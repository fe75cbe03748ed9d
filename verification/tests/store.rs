use bm::bm::{Bm, BookmarksDatabase, LoadOutcome};
use bm::codec::{deserialize_doc, probe, serialize_doc};
use bm::errors::{ConfigError, LoadError, ProbeError, ValidationError};
use bm::filter::SimpleFilter;
use bm::schema::{compare, MinimalSchema, SchemaValidation, SchemaVersion};
use bm::table::{Bookmark, BookmarkTable, Timestamp};
use bm::SCHEMA_VERSION;

fn ts(y: u16, mo: u8, d: u8, h: u8, mi: u8, s: u8) -> Timestamp {
    Timestamp::new(y, mo, d, h, mi, s).unwrap()
}

fn record(url: &str) -> Bookmark {
    Bookmark {
        timestamp: ts(2024, 1, 2, 3, 4, 5),
        url: String::from(url),
    }
}

// ---------------------------------------------------------------- schema

#[test]
fn data_newer_db_schema() {
    // Loading a DB where the schema is newer than we can handle
    let db = BookmarksDatabase {
        schema_version: SCHEMA_VERSION + 2,
        ..Default::default()
    };

    assert_eq!(db.check_schema(), SchemaVersion::Newer { by: 2 })
}

#[test]
fn data_equal_db_schema() {
    let db = BookmarksDatabase {
        schema_version: SCHEMA_VERSION,
        ..Default::default()
    };

    assert_eq!(db.check_schema(), SchemaVersion::Same)
}

#[test]
fn data_older_db_schema() {
    let db = BookmarksDatabase {
        schema_version: SCHEMA_VERSION - 2,
        ..Default::default()
    };

    assert_eq!(db.check_schema(), SchemaVersion::Older { by: 2 })
}

#[test]
fn v0_newer_db_schema() {
    let db = BookmarksDatabase {
        schema_version: SCHEMA_VERSION + 2,
        ..Default::default()
    };

    assert_eq!(db.check_schema(), SchemaVersion::Newer { by: 2 })
}

#[test]
fn v0_equal_db_schema() {
    let db = BookmarksDatabase {
        schema_version: SCHEMA_VERSION,
        ..Default::default()
    };

    assert_eq!(db.check_schema(), SchemaVersion::Same)
}

#[test]
fn v0_older_db_schema() {
    let db = BookmarksDatabase {
        schema_version: SCHEMA_VERSION - 2,
        ..Default::default()
    };

    assert_eq!(db.check_schema(), SchemaVersion::Older { by: 2 })
}

#[test]
fn minimal_schema_probe_shape() {
    let m = MinimalSchema { schema_version: 3 };
    assert_eq!(m.get_schema_version(), 3);
    assert_eq!(m.check_schema(), SchemaVersion::Newer { by: 3 });
}

#[test]
fn version_policy_concrete() {
    assert_eq!(compare(0, 0), SchemaVersion::Same);
    assert_eq!(compare(3, 1), SchemaVersion::Newer { by: 2 });
    assert_eq!(compare(1, 3), SchemaVersion::Older { by: 2 });
    assert_eq!(compare(-128, 127), SchemaVersion::Older { by: 255 });
}

// -------------------------------------------------------------- location

#[test]
fn fails_if_xdg_and_home_env_unset() {
    let bm = Bm::new(None, None);
    assert!(bm.is_err())
}

#[test]
fn succeeds_if_xdg_env_set() {
    let bm = Bm::new(Some("/sample"), None);
    assert!(bm.is_ok())
}

#[test]
fn succeeds_if_home_env_set() {
    let bm = Bm::new(None, Some("/sample"));
    assert!(bm.is_ok())
}

#[test]
fn xdg_preferred_over_home() {
    let bm = Bm::new(Some("/xdg"), Some("/home/u")).unwrap();
    assert_eq!(bm.db_path, "/xdg/bm.ron");
}

#[test]
fn home_fallback_builds_local_share_path() {
    let bm = Bm::new(None, Some("/home/u")).unwrap();
    assert_eq!(bm.db_path, "/home/u/.local/share/bm.ron");
}

#[test]
fn empty_variables_count_as_unset() {
    let r = Bm::new(Some(""), Some(""));
    assert!(matches!(r, Err(ConfigError::MissingBaseDirs)));
    let bm = Bm::new(Some(""), Some("/home/u")).unwrap();
    assert_eq!(bm.db_path, "/home/u/.local/share/bm.ron");
}

#[test]
fn config_error_message_names_the_variables() {
    let msg = ConfigError::MissingBaseDirs.message();
    assert!(msg.contains("XDG_DATA_HOME"));
    assert!(msg.contains("HOME"));
}

// ----------------------------------------------------------------- codec

#[test]
fn serialize_exact_text() {
    let mut t = BookmarkTable::new();
    t.put("a", record("https://example.com/a")).unwrap();
    let s = serialize_doc(0, &t);
    assert_eq!(
        s,
        "(schema_version:0,bookmarks:{\"a\":(timestamp:\"2024-01-02T03:04:05Z\",url:\"https://example.com/a\"),})"
    );
}

#[test]
fn round_trip_preserves_table() {
    let mut t = BookmarkTable::new();
    t.put("rust-lang", record("https://rust-lang.org/")).unwrap();
    t.put("docs", record("https://docs.rs/")).unwrap();
    let s = serialize_doc(SCHEMA_VERSION, &t);
    let (v, t2) = deserialize_doc(&s).unwrap();
    assert_eq!(v, SCHEMA_VERSION);
    let names: Vec<&str> = t2.list().iter().map(|e| e.0.as_str()).collect();
    assert_eq!(names, vec!["docs", "rust-lang"]);
    assert_eq!(t2.get("docs").unwrap().url, "https://docs.rs/");
    assert_eq!(t2.get("rust-lang").unwrap().timestamp, ts(2024, 1, 2, 3, 4, 5));
}

#[test]
fn round_trip_with_quotes_and_backslashes_in_title() {
    let mut t = BookmarkTable::new();
    t.put("a\"b\\c", record("https://example.com/")).unwrap();
    let s = serialize_doc(0, &t);
    let (_, t2) = deserialize_doc(&s).unwrap();
    assert!(t2.get("a\"b\\c").is_some());
    assert_eq!(t2.get("a\"b\\c").unwrap().url, "https://example.com/");
}

#[test]
fn probe_reads_version_without_payload_knowledge() {
    // an evolved payload shape the current reader has never seen
    let doc = "(schema_version:3,records:[{title:1},{weird:true}])";
    assert_eq!(probe(doc), Ok(3));
    assert_eq!(probe("(schema_version:-2,x)"), Ok(-2));
}

#[test]
fn probe_rejects_unrecognizable_bytes() {
    assert_eq!(probe("hello world"), Err(ProbeError::Malformed));
    assert_eq!(probe(""), Err(ProbeError::Malformed));
    assert_eq!(probe("(schema_version:,bookmarks:{})"), Err(ProbeError::Malformed));
    assert_eq!(probe("(schema_version:9999,b)"), Err(ProbeError::Malformed));
}

#[test]
fn deserialize_rejects_bad_urls_and_shapes() {
    assert!(deserialize_doc("(schema_version:0,bookmarks:{)").is_none());
    // structurally fine but the URL does not parse as absolute
    let doc = "(schema_version:0,bookmarks:{\"a\":(timestamp:\"2024-01-02T03:04:05Z\",url:\"not a url\"),})";
    assert!(deserialize_doc(doc).is_none());
    // invalid calendar date
    let doc = "(schema_version:0,bookmarks:{\"a\":(timestamp:\"2023-02-29T00:00:00Z\",url:\"https://example.com/\"),})";
    assert!(deserialize_doc(doc).is_none());
}

// ----------------------------------------------------------------- store

#[test]
fn load_on_absent_file_creates_empty_store() {
    let mut bm = Bm::new(Some("/data"), None).unwrap();
    let outcome = bm.load_db(None).unwrap();
    assert_eq!(outcome, LoadOutcome::Created);
    assert_eq!(bm.bookmarks.schema_version, SCHEMA_VERSION);
    assert_eq!(bm.bookmarks.bookmarks.len(), 0);
    // what the caller then writes out is itself a valid, readable document
    let text = bm.save_db();
    let (v, t) = deserialize_doc(&text).unwrap();
    assert_eq!(v, SCHEMA_VERSION);
    assert_eq!(t.len(), 0);
}

#[test]
fn put_save_load_get_returns_same_record() {
    let mut bm = Bm::new(Some("/data"), None).unwrap();
    bm.load_db(None).unwrap();
    let stamp = ts(2021, 6, 30, 12, 0, 59);
    bm.bookmarks
        .bookmarks
        .put(
            "rust-lang",
            Bookmark {
                timestamp: stamp,
                url: String::from("https://rust-lang.org/"),
            },
        )
        .unwrap();
    let text = bm.save_db();

    let mut fresh = Bm::new(Some("/data"), None).unwrap();
    let outcome = fresh.load_db(Some(&text)).unwrap();
    assert_eq!(
        outcome,
        LoadOutcome::Opened {
            schema: SchemaVersion::Same
        }
    );
    let got = fresh.bookmarks.bookmarks.get("rust-lang").unwrap();
    assert_eq!(got.url, "https://rust-lang.org/");
    assert_eq!(got.timestamp, stamp);
}

#[test]
fn load_refuses_newer_schema_and_leaves_store_untouched() {
    let mut bm = Bm::new(Some("/data"), None).unwrap();
    bm.load_db(None).unwrap();
    let newer = format!("(schema_version:{},bookmarks:{{}})", SCHEMA_VERSION as i16 + 1);
    let err = bm.load_db(Some(&newer)).unwrap_err();
    assert_eq!(err, LoadError::SchemaNewer { by: 1 });
    assert_eq!(bm.bookmarks.schema_version, SCHEMA_VERSION);
    assert_eq!(bm.bookmarks.bookmarks.len(), 0);
}

#[test]
fn load_accepts_older_schema_and_save_upgrades_the_tag() {
    let mut bm = Bm::new(Some("/data"), None).unwrap();
    let older = format!(
        "(schema_version:{},bookmarks:{{\"a\":(timestamp:\"2024-01-02T03:04:05Z\",url:\"https://example.com/a\"),}})",
        SCHEMA_VERSION as i16 - 1
    );
    let outcome = bm.load_db(Some(&older)).unwrap();
    assert_eq!(
        outcome,
        LoadOutcome::Opened {
            schema: SchemaVersion::Older { by: 1 }
        }
    );
    assert_eq!(bm.bookmarks.schema_version, SCHEMA_VERSION - 1);
    assert!(bm.bookmarks.bookmarks.get("a").is_some());
    let rewritten = bm.save_db();
    assert_eq!(probe(&rewritten), Ok(SCHEMA_VERSION));
}

#[test]
fn load_flags_corrupt_documents() {
    let mut bm = Bm::new(Some("/data"), None).unwrap();
    assert_eq!(bm.load_db(Some("garbage")).unwrap_err(), LoadError::Corrupt);
    // probe succeeds but the full structural parse fails
    assert_eq!(
        bm.load_db(Some("(schema_version:0,bookmarks:oops)")).unwrap_err(),
        LoadError::Corrupt
    );
}

// ----------------------------------------------------------------- table

#[test]
fn put_rejects_invalid_urls_before_storage() {
    let mut t = BookmarkTable::new();
    let err = t.put("a", record("not a url")).unwrap_err();
    assert_eq!(err, ValidationError::InvalidUrl);
    assert_eq!(t.len(), 0);
}

#[test]
fn put_is_an_upsert_and_list_is_sorted() {
    let mut t = BookmarkTable::new();
    t.put("b", record("https://b.example/")).unwrap();
    t.put("a", record("https://a.example/")).unwrap();
    t.put("c", record("https://c.example/")).unwrap();
    t.put("b", record("https://b2.example/")).unwrap();
    let names: Vec<&str> = t.list().iter().map(|e| e.0.as_str()).collect();
    assert_eq!(names, vec!["a", "b", "c"]);
    assert_eq!(t.get("b").unwrap().url, "https://b2.example/");
}

#[test]
fn remove_reports_absence_without_error() {
    let mut t = BookmarkTable::new();
    t.put("a", record("https://a.example/")).unwrap();
    assert!(t.remove("a"));
    assert!(!t.remove("a"));
    assert!(t.get("a").is_none());
}

#[test]
fn timestamp_rejects_impossible_dates() {
    assert!(Timestamp::new(2023, 2, 29, 0, 0, 0).is_none());
    assert!(Timestamp::new(2024, 2, 29, 0, 0, 0).is_some());
    assert!(Timestamp::new(2024, 13, 1, 0, 0, 0).is_none());
    assert!(Timestamp::new(2024, 1, 1, 24, 0, 0).is_none());
}

// ----------------------------------------------------------------- count

#[test]
fn count_all_equals_list_length() {
    let mut t = BookmarkTable::new();
    t.put("a", record("https://example.com/a")).unwrap();
    t.put("b", record("https://other.com/b")).unwrap();
    t.put("c", record("ftp://files.example.com/c")).unwrap();
    assert_eq!(t.count(&SimpleFilter::All), t.list().len());
}

#[test]
fn count_with_domain_filter() {
    let mut t = BookmarkTable::new();
    t.put("a", record("https://example.com/a")).unwrap();
    t.put("b", record("https://other.com/b")).unwrap();
    assert_eq!(t.count(&SimpleFilter::Domain(String::from("example.com"))), 1);
    assert_eq!(t.count(&SimpleFilter::Domain(String::from("nowhere.com"))), 0);
}

#[test]
fn count_with_scheme_filter() {
    let mut t = BookmarkTable::new();
    t.put("a", record("https://example.com/a")).unwrap();
    t.put("b", record("ftp://files.example.com/b")).unwrap();
    t.put("c", record("https://other.com/c")).unwrap();
    assert_eq!(t.count(&SimpleFilter::Scheme(String::from("https"))), 2);
    assert_eq!(t.count(&SimpleFilter::Scheme(String::from("ftp"))), 1);
}

#[test]
fn count_with_contains_filter_is_case_insensitive() {
    let mut t = BookmarkTable::new();
    t.put("Rust Book", record("https://doc.rust-lang.org/book/")).unwrap();
    t.put("news", record("https://example.com/RUST/today")).unwrap();
    t.put("other", record("https://example.com/misc")).unwrap();
    assert_eq!(t.count(&SimpleFilter::Contains(String::from("rust"))), 2);
    assert_eq!(t.count(&SimpleFilter::Contains(String::from("RUST"))), 2);
    assert_eq!(t.count(&SimpleFilter::Contains(String::from(""))), 3);
}
