//! The store lifecycle: resolving the database location from
//! configuration input, loading a document (creating it when absent),
//! and producing the text that a save writes back.
//!
//! All filesystem reads and writes stay with the caller; the functions
//! here map plain values to plain values, so every decision they take
//! is verified.

use vstd::prelude::*;
use vstd::string::*;

verus! {

use crate::SCHEMA_VERSION;
use crate::errors::{ConfigError, LoadError};
use crate::schema::{SchemaVersion, SchemaValidation, spec_compare, compare};
use crate::table::{BookmarkTable, BookmarkV};
use crate::codec::{spec_ser_doc, spec_probe, p_doc, probe, deserialize_doc, serialize_doc};

/// The database as owned in memory: the version tag its payload was
/// read under, plus the bookmark table. `save_db` always writes
/// `SCHEMA_VERSION`, whatever tag the document was loaded at.
pub struct BookmarksDatabase {
    pub schema_version: i8,
    pub bookmarks: BookmarkTable,
}

impl BookmarksDatabase {
    pub open spec fn wf(self) -> bool {
        self.bookmarks.wf()
    }
}

impl Default for BookmarksDatabase {
    /// An empty document at the current schema version.
    fn default() -> (r: Self)
        ensures
            r.schema_version == SCHEMA_VERSION,
            r.bookmarks@ =~= Seq::<(Seq<char>, BookmarkV)>::empty(),
            r.wf(),
    {
        BookmarksDatabase { schema_version: SCHEMA_VERSION, bookmarks: BookmarkTable::new() }
    }
}

impl SchemaValidation for BookmarksDatabase {
    open spec fn spec_schema_version(&self) -> i8 {
        self.schema_version
    }

    fn get_schema_version(&self) -> (v: i8) {
        self.schema_version
    }
}

/// Whether a base-directory variable value is usable: present and
/// non-empty.
pub open spec fn dir_usable(v: Option<Seq<char>>) -> bool {
    v matches Some(s) && s.len() > 0
}

/// Where the database lives, given the configuration input: the XDG
/// data home is preferred; an unset or empty value falls back to
/// `<HOME>/.local/share`; with neither usable, resolution fails rather
/// than defaulting silently.
pub open spec fn spec_resolve(xdg: Option<Seq<char>>, home: Option<Seq<char>>) -> Result<
    Seq<char>,
    ConfigError,
> {
    if dir_usable(xdg) {
        Ok(xdg->Some_0 + "/bm.ron"@)
    } else if dir_usable(home) {
        Ok(home->Some_0 + "/.local/share/bm.ron"@)
    } else {
        Err(ConfigError::MissingBaseDirs)
    }
}

/// The view of an optional borrowed string.
pub open spec fn opt_view(v: Option<&str>) -> Option<Seq<char>> {
    match v {
        Some(s) => Some(s@),
        None => None,
    }
}

/// Derive the database path from the configuration input. Pure: reads
/// nothing but its arguments.
pub fn resolve(xdg: Option<&str>, home: Option<&str>) -> (r: Result<String, ConfigError>)
    ensures
        match (r, spec_resolve(opt_view(xdg), opt_view(home))) {
            (Ok(p), Ok(q)) => p@ == q,
            (Err(a), Err(b)) => a == b,
            _ => false,
        },
{
    match xdg {
        Some(x) => {
            if !x.is_empty() {
                let mut s = String::from_str(x);
                s.append("/bm.ron");
                return Ok(s);
            }
            resolve_from_home(home)
        },
        None => resolve_from_home(home),
    }
}

/// The HOME fallback of `resolve`.
fn resolve_from_home(home: Option<&str>) -> (r: Result<String, ConfigError>)
    ensures
        match (r, spec_resolve(None, opt_view(home))) {
            (Ok(p), Ok(q)) => p@ == q,
            (Err(a), Err(b)) => a == b,
            _ => false,
        },
{
    match home {
        Some(h) => {
            if !h.is_empty() {
                let mut s = String::from_str(h);
                s.append("/.local/share/bm.ron");
                return Ok(s);
            }
            Err(ConfigError::MissingBaseDirs)
        },
        None => Err(ConfigError::MissingBaseDirs),
    }
}

/// What `load_db` did: created a fresh empty document (the caller must
/// write it out), or opened an existing one, with how its version
/// compared to `SCHEMA_VERSION`.
#[derive(Clone, Copy, Debug, PartialEq, Eq, Structural)]
pub enum LoadOutcome {
    Created,
    Opened { schema: SchemaVersion },
}

/// The store: its on-disk location and the in-memory database.
pub struct Bm {
    pub db_path: String,
    pub bookmarks: BookmarksDatabase,
}

impl Bm {
    pub open spec fn wf(self) -> bool {
        self.bookmarks.wf()
    }

    /// Build a store handle from the configuration input, with an empty
    /// in-memory database; fails when no base directory is usable.
    pub fn new(xdg: Option<&str>, home: Option<&str>) -> (r: Result<Bm, ConfigError>)
        ensures
            match (r, spec_resolve(opt_view(xdg), opt_view(home))) {
                (Ok(bm), Ok(q)) => bm.db_path@ == q && bm.bookmarks.schema_version
                    == SCHEMA_VERSION && bm.bookmarks.bookmarks@ =~= Seq::<
                    (Seq<char>, BookmarkV),
                >::empty() && bm.wf(),
                (Err(a), Err(b)) => a == b,
                _ => false,
            },
    {
        match resolve(xdg, home) {
            Ok(p) => Ok(Bm { db_path: p, bookmarks: Default::default() }),
            Err(e) => Err(e),
        }
    }

    /// Open the database from the file's contents, or create it.
    ///
    /// `contents` is `None` when no file exists at the path: the store
    /// is then initialized empty at the current version and the caller
    /// must write `save_db()` out, so a first run always leaves a valid
    /// file behind. With contents present, the cheap version probe runs
    /// first; a document from a newer release is refused before any
    /// structural parse, an older one is loaded and flagged for
    /// upgrade on the next save, and only a same-or-older document is
    /// parsed in full.
    pub fn load_db(&mut self, contents: Option<&str>) -> (r: Result<LoadOutcome, LoadError>)
        requires
            old(self).wf(),
        ensures
            final(self).wf(),
            final(self).db_path == old(self).db_path,
            match contents {
                None => {
                    &&& r == Ok::<LoadOutcome, LoadError>(LoadOutcome::Created)
                    &&& final(self).bookmarks.schema_version == SCHEMA_VERSION
                    &&& final(self).bookmarks.bookmarks@ =~= Seq::<(Seq<char>, BookmarkV)>::empty()
                },
                Some(text) => match spec_probe(text@) {
                    None => r == Err::<LoadOutcome, LoadError>(LoadError::Corrupt) && *final(self)
                        == *old(self),
                    Some(pv) => if pv > SCHEMA_VERSION as int {
                        r == Err::<LoadOutcome, LoadError>(
                            LoadError::SchemaNewer { by: (pv - SCHEMA_VERSION as int) as i16 },
                        ) && *final(self) == *old(self)
                    } else {
                        match p_doc(text@) {
                            None => r == Err::<LoadOutcome, LoadError>(LoadError::Corrupt)
                                && *final(self) == *old(self),
                            Some((dv, es)) => {
                                &&& r == Ok::<LoadOutcome, LoadError>(
                                    LoadOutcome::Opened {
                                        schema: spec_compare(dv, SCHEMA_VERSION as int),
                                    },
                                )
                                &&& final(self).bookmarks.schema_version as int == dv
                                &&& final(self).bookmarks.bookmarks@ == es
                            },
                        }
                    },
                },
            },
    {
        match contents {
            None => {
                self.bookmarks = Default::default();
                Ok(LoadOutcome::Created)
            },
            Some(text) => {
                let ver = match probe(text) {
                    Err(_) => { return Err(LoadError::Corrupt); },
                    Ok(x) => x,
                };
                match compare(ver, SCHEMA_VERSION) {
                    SchemaVersion::Newer { by } => Err(LoadError::SchemaNewer { by }),
                    _ => {
                        match deserialize_doc(text) {
                            None => Err(LoadError::Corrupt),
                            Some((dv, table)) => {
                                self.bookmarks = BookmarksDatabase {
                                    schema_version: dv,
                                    bookmarks: table,
                                };
                                Ok(LoadOutcome::Opened { schema: compare(dv, SCHEMA_VERSION) })
                            },
                        }
                    },
                }
            },
        }
    }

    /// The text a save writes: the whole document, always tagged with
    /// the current `SCHEMA_VERSION` — the point at which an older
    /// document is upgraded to the current tag. The caller must write
    /// it to a temporary file in the database's directory and rename it
    /// into place, so a crash mid-write never corrupts the live file.
    pub fn save_db(&self) -> (r: String)
        requires
            self.wf(),
        ensures
            r@ == spec_ser_doc(SCHEMA_VERSION as int, self.bookmarks.bookmarks@),
    {
        serialize_doc(SCHEMA_VERSION, &self.bookmarks.bookmarks)
    }
}

} // verus!
