//! The on-disk text format of the versioned document, written and parsed
//! by verified code.
//!
//! A document is a single text object with two top-level fields: the
//! `schema_version` tag and the `bookmarks` mapping. The writer emits a
//! canonical form (no whitespace, entries in ascending title order, one
//! trailing comma per entry); the parser accepts exactly the canonical
//! form, except that the version probe reads only the leading
//! `schema_version` field and ignores everything after it, whatever
//! shape the payload has.

use vstd::prelude::*;
use vstd::string::*;

verus! {

use crate::chars::{push_char, str_to_chars, key_lt, key_cmp, lemma_key_lt_trans};
use crate::table::{
    Timestamp,
    Bookmark,
    BookmarkV,
    BookmarkTable,
    entries_view,
    table_sorted,
    table_valid,
    table_wf,
    bookmark_valid,
};
use crate::urlinfo::{url_ok, parse_url};

// ---------------------------------------------------------------------
// Serialization, at the specification level.
// ---------------------------------------------------------------------
/// The character for the decimal digit `d`.
pub open spec fn digit(d: int) -> char {
    ((48 + d) as u8) as char
}

/// Decimal digits of `n`, most significant first, without sign.
pub open spec fn dec_digits(n: int) -> Seq<char>
    decreases n,
{
    if n < 10 {
        seq![digit(n)]
    } else {
        dec_digits(n / 10).push(digit(n % 10))
    }
}

/// Canonical decimal text of `v`, with a leading '-' when negative.
pub open spec fn spec_ser_int(v: int) -> Seq<char> {
    if v < 0 {
        seq!['-'] + dec_digits(-v)
    } else {
        dec_digits(v)
    }
}

/// A quote or backslash is preceded by a backslash; all else is itself.
pub open spec fn esc_char(c: char) -> Seq<char> {
    if c == '"' || c == '\\' {
        seq!['\\', c]
    } else {
        seq![c]
    }
}

/// The escaped body of a quoted string.
pub open spec fn esc(s: Seq<char>) -> Seq<char>
    decreases s.len(),
{
    if s.len() == 0 {
        Seq::empty()
    } else {
        esc_char(s[0]) + esc(s.drop_first())
    }
}

/// The RFC 3339 UTC text of a timestamp: `YYYY-MM-DDTHH:MM:SSZ`.
pub open spec fn spec_ser_ts(t: Timestamp) -> Seq<char> {
    let y = t.year as int;
    let mo = t.month as int;
    let d = t.day as int;
    let h = t.hour as int;
    let mi = t.minute as int;
    let se = t.second as int;
    seq![
        digit(y / 1000 % 10),
        digit(y / 100 % 10),
        digit(y / 10 % 10),
        digit(y % 10),
        '-',
        digit(mo / 10),
        digit(mo % 10),
        '-',
        digit(d / 10),
        digit(d % 10),
        'T',
        digit(h / 10),
        digit(h % 10),
        ':',
        digit(mi / 10),
        digit(mi % 10),
        ':',
        digit(se / 10),
        digit(se % 10),
        'Z',
    ]
}

/// One table entry: quoted escaped title, then the record.
pub open spec fn spec_ser_entry(k: Seq<char>, b: BookmarkV) -> Seq<char> {
    "\""@ + esc(k) + "\":"@ + "(timestamp:\""@ + spec_ser_ts(b.timestamp) + "\",url:\""@ + esc(
        b.url,
    ) + "\"),"@
}

/// The entries, in table order, each with its trailing comma.
pub open spec fn spec_ser_entries(s: Seq<(Seq<char>, BookmarkV)>) -> Seq<char>
    decreases s.len(),
{
    if s.len() == 0 {
        Seq::empty()
    } else {
        spec_ser_entry(s[0].0, s[0].1) + spec_ser_entries(s.drop_first())
    }
}

/// The whole document.
pub open spec fn spec_ser_doc(v: int, s: Seq<(Seq<char>, BookmarkV)>) -> Seq<char> {
    "(schema_version:"@ + spec_ser_int(v) + ",bookmarks:{"@ + spec_ser_entries(s) + "})"@
}

// ---------------------------------------------------------------------
// Parsing, at the specification level. Each function takes the input
// and a position, and yields the parsed value with the position after
// it, or nothing.
// ---------------------------------------------------------------------
pub open spec fn is_digit(c: char) -> bool {
    48 <= c as u32 <= 57
}

pub open spec fn digit_val(c: char) -> int {
    c as u32 - 48
}

/// First position at or after `i` holding no digit.
pub open spec fn digits_end(s: Seq<char>, i: int) -> int
    decreases s.len() - i,
{
    if 0 <= i < s.len() && is_digit(s[i]) {
        digits_end(s, i + 1)
    } else {
        i
    }
}

/// Value of a run of digit characters, most significant first.
pub open spec fn digits_val(t: Seq<char>) -> int
    decreases t.len(),
{
    if t.len() == 0 {
        0
    } else {
        digits_val(t.drop_last()) * 10 + digit_val(t.last())
    }
}

/// Expect the literal `lit` at position `i`.
pub open spec fn p_lit(s: Seq<char>, i: int, lit: Seq<char>) -> Option<int> {
    if 0 <= i && i + lit.len() <= s.len() && s.subrange(i, i + lit.len()) == lit {
        Some(i + lit.len())
    } else {
        None
    }
}

/// A small integer: optional '-', then one to three digits.
pub open spec fn p_int(s: Seq<char>, i: int) -> Option<(int, int)> {
    if !(0 <= i < s.len()) {
        None
    } else {
        let neg = s[i] == '-';
        let st = if neg {
            i + 1
        } else {
            i
        };
        let e = digits_end(s, st);
        if e == st || e - st > 3 {
            None
        } else {
            let v = digits_val(s.subrange(st, e));
            Some(
                (
                    if neg {
                        -v
                    } else {
                        v
                    },
                    e,
                ),
            )
        }
    }
}

/// The body of a quoted string, after its opening quote: characters up
/// to the closing quote, a backslash taking the next character
/// literally.
pub open spec fn p_str_body(s: Seq<char>, i: int) -> Option<(Seq<char>, int)>
    decreases s.len() - i,
{
    if !(0 <= i < s.len()) {
        None
    } else if s[i] == '"' {
        Some((Seq::empty(), i + 1))
    } else if s[i] == '\\' {
        if i + 1 < s.len() {
            match p_str_body(s, i + 2) {
                Some(r) => Some((seq![s[i + 1]] + r.0, r.1)),
                None => None,
            }
        } else {
            None
        }
    } else {
        match p_str_body(s, i + 1) {
            Some(r) => Some((seq![s[i]] + r.0, r.1)),
            None => None,
        }
    }
}

/// A timestamp in the exact RFC 3339 UTC shape, denoting a valid
/// instant.
pub open spec fn p_ts(s: Seq<char>, i: int) -> Option<(Timestamp, int)> {
    if !(0 <= i && i + 20 <= s.len()) {
        None
    } else if !(is_digit(s[i]) && is_digit(s[i + 1]) && is_digit(s[i + 2]) && is_digit(s[i + 3])
        && s[i + 4] == '-' && is_digit(s[i + 5]) && is_digit(s[i + 6]) && s[i + 7] == '-'
        && is_digit(s[i + 8]) && is_digit(s[i + 9]) && s[i + 10] == 'T' && is_digit(s[i + 11])
        && is_digit(s[i + 12]) && s[i + 13] == ':' && is_digit(s[i + 14]) && is_digit(s[i + 15])
        && s[i + 16] == ':' && is_digit(s[i + 17]) && is_digit(s[i + 18]) && s[i + 19] == 'Z') {
        None
    } else {
        let t = Timestamp {
            year: (digit_val(s[i]) * 1000 + digit_val(s[i + 1]) * 100 + digit_val(s[i + 2]) * 10
                + digit_val(s[i + 3])) as u16,
            month: (digit_val(s[i + 5]) * 10 + digit_val(s[i + 6])) as u8,
            day: (digit_val(s[i + 8]) * 10 + digit_val(s[i + 9])) as u8,
            hour: (digit_val(s[i + 11]) * 10 + digit_val(s[i + 12])) as u8,
            minute: (digit_val(s[i + 14]) * 10 + digit_val(s[i + 15])) as u8,
            second: (digit_val(s[i + 17]) * 10 + digit_val(s[i + 18])) as u8,
        };
        if t.valid() {
            Some((t, i + 20))
        } else {
            None
        }
    }
}

/// A record: `(timestamp:"…",url:"…")`, with a URL the engine accepts.
pub open spec fn p_record(s: Seq<char>, i: int) -> Option<(BookmarkV, int)> {
    match p_lit(s, i, "(timestamp:\""@) {
        None => None,
        Some(j1) => match p_ts(s, j1) {
            None => None,
            Some((t, j2)) => match p_lit(s, j2, "\",url:\""@) {
                None => None,
                Some(j3) => match p_str_body(s, j3) {
                    None => None,
                    Some((u, j4)) => match p_lit(s, j4, ")"@) {
                        None => None,
                        Some(j5) => if url_ok(u) {
                            Some((BookmarkV { timestamp: t, url: u }, j5))
                        } else {
                            None
                        },
                    },
                },
            },
        },
    }
}

/// One entry: quoted title, colon, record, trailing comma.
pub open spec fn p_entry(s: Seq<char>, i: int) -> Option<((Seq<char>, BookmarkV), int)> {
    match p_lit(s, i, "\""@) {
        None => None,
        Some(j1) => match p_str_body(s, j1) {
            None => None,
            Some((k, j2)) => match p_lit(s, j2, ":"@) {
                None => None,
                Some(j3) => match p_record(s, j3) {
                    None => None,
                    Some((b, j4)) => match p_lit(s, j4, ","@) {
                        None => None,
                        Some(j5) => Some(((k, b), j5)),
                    },
                },
            },
        },
    }
}

/// Entries up to and including the closing brace.
pub open spec fn p_entries(s: Seq<char>, i: int) -> Option<(Seq<(Seq<char>, BookmarkV)>, int)>
    decreases s.len() - i,
{
    if !(0 <= i < s.len()) {
        None
    } else if s[i] == '}' {
        Some((Seq::empty(), i + 1))
    } else {
        match p_entry(s, i) {
            None => None,
            Some((e, j)) => if i < j <= s.len() {
                match p_entries(s, j) {
                    None => None,
                    Some((rest, j2)) => Some((seq![e] + rest, j2)),
                }
            } else {
                None
            },
        }
    }
}

/// The whole document: version, bookmarks, nothing after, entries in
/// strictly ascending title order.
pub open spec fn p_doc(s: Seq<char>) -> Option<(int, Seq<(Seq<char>, BookmarkV)>)> {
    match p_lit(s, 0, "(schema_version:"@) {
        None => None,
        Some(j1) => match p_int(s, j1) {
            None => None,
            Some((v, j2)) => if !(-128 <= v <= 127) {
                None
            } else {
                match p_lit(s, j2, ",bookmarks:{"@) {
                    None => None,
                    Some(j3) => match p_entries(s, j3) {
                        None => None,
                        Some((es, j4)) => match p_lit(s, j4, ")"@) {
                            None => None,
                            Some(j5) => if j5 == s.len() && table_sorted(es) {
                                Some((v, es))
                            } else {
                                None
                            },
                        },
                    },
                }
            },
        },
    }
}

/// The version probe: reads the leading `schema_version` field and the
/// comma after it, and ignores the rest of the document entirely.
pub open spec fn spec_probe(s: Seq<char>) -> Option<int> {
    match p_lit(s, 0, "(schema_version:"@) {
        None => None,
        Some(j1) => match p_int(s, j1) {
            None => None,
            Some((v, j2)) => if -128 <= v <= 127 && j2 < s.len() && s[j2] == ',' {
                Some(v)
            } else {
                None
            },
        },
    }
}

// ---------------------------------------------------------------------
// The verified writer.
// ---------------------------------------------------------------------
/// Escaping distributes over concatenation.
pub proof fn lemma_esc_append(a: Seq<char>, b: Seq<char>)
    ensures
        esc(a + b) == esc(a) + esc(b),
    decreases a.len(),
{
    if a.len() == 0 {
        assert(a + b =~= b);
        assert(esc(a) + esc(b) =~= esc(b));
    } else {
        assert((a + b)[0] == a[0]);
        assert((a + b).drop_first() =~= a.drop_first() + b);
        lemma_esc_append(a.drop_first(), b);
        assert(esc_char(a[0]) + (esc(a.drop_first()) + esc(b)) =~= (esc_char(a[0]) + esc(
            a.drop_first(),
        )) + esc(b));
    }
}

/// Serialization of entries distributes over concatenation.
pub proof fn lemma_ser_entries_append(a: Seq<(Seq<char>, BookmarkV)>, b: Seq<(Seq<char>, BookmarkV)>)
    ensures
        spec_ser_entries(a + b) == spec_ser_entries(a) + spec_ser_entries(b),
    decreases a.len(),
{
    if a.len() == 0 {
        assert(a + b =~= b);
        assert(spec_ser_entries(a) + spec_ser_entries(b) =~= spec_ser_entries(b));
    } else {
        assert((a + b)[0] == a[0]);
        assert((a + b).drop_first() =~= a.drop_first() + b);
        lemma_ser_entries_append(a.drop_first(), b);
        assert(spec_ser_entry(a[0].0, a[0].1) + (spec_ser_entries(a.drop_first())
            + spec_ser_entries(b)) =~= (spec_ser_entry(a[0].0, a[0].1) + spec_ser_entries(
            a.drop_first(),
        )) + spec_ser_entries(b));
    }
}

/// Append the decimal digits of `n`.
fn push_digits(out: &mut String, n: u16)
    ensures
        final(out)@ == old(out)@ + dec_digits(n as int),
    decreases n,
{
    if n < 10 {
        push_char(out, (48 + n as u8) as char);
        assert(final(out)@ =~= old(out)@ + dec_digits(n as int));
    } else {
        push_digits(out, n / 10);
        push_char(out, (48 + (n % 10) as u8) as char);
        assert(dec_digits(n as int) == dec_digits(n as int / 10).push(digit(n as int % 10)));
        assert(final(out)@ =~= old(out)@ + dec_digits(n as int));
    }
}

/// Append the canonical decimal text of `v`.
fn push_i8(out: &mut String, v: i8)
    ensures
        final(out)@ == old(out)@ + spec_ser_int(v as int),
{
    if v < 0 {
        push_char(out, '-');
        let mag: u16 = (-(v as i16)) as u16;
        push_digits(out, mag);
        assert(final(out)@ =~= old(out)@ + (seq!['-'] + dec_digits(-(v as int))));
    } else {
        push_digits(out, v as u16);
    }
}

/// Append the escaped body of `s`.
fn push_escaped(out: &mut String, s: &str)
    ensures
        final(out)@ == old(out)@ + esc(s@),
{
    let n: usize = s.unicode_len();
    let mut i: usize = 0;
    while i < n
        invariant
            i <= n,
            n == s@.len(),
            out@ == old(out)@ + esc(s@.subrange(0, i as int)),
        decreases n - i,
    {
        let c = s.get_char(i);
        if c == '"' || c == '\\' {
            push_char(out, '\\');
            push_char(out, c);
        } else {
            push_char(out, c);
        }
        proof {
            lemma_esc_append(s@.subrange(0, i as int), seq![s@[i as int]]);
            assert(s@.subrange(0, i as int) + seq![s@[i as int]] =~= s@.subrange(0, i as int + 1));
            assert(seq![s@[i as int]].drop_first() =~= Seq::<char>::empty());
            assert(esc(Seq::<char>::empty()) == Seq::<char>::empty());
            assert(esc(seq![s@[i as int]]) =~= esc_char(s@[i as int]));
            assert(out@ =~= old(out)@ + esc(s@.subrange(0, i as int + 1)));
        }
        i += 1;
    }
    assert(s@.subrange(0, n as int) =~= s@);
}

/// Append the RFC 3339 text of a valid timestamp.
fn push_ts(out: &mut String, t: &Timestamp)
    requires
        t.valid(),
    ensures
        final(out)@ == old(out)@ + spec_ser_ts(*t),
{
    push_char(out, (48 + (t.year / 1000) as u8) as char);
    push_char(out, (48 + (t.year / 100 % 10) as u8) as char);
    push_char(out, (48 + (t.year / 10 % 10) as u8) as char);
    push_char(out, (48 + (t.year % 10) as u8) as char);
    push_char(out, '-');
    push_char(out, (48 + (t.month / 10) as u8) as char);
    push_char(out, (48 + (t.month % 10) as u8) as char);
    push_char(out, '-');
    push_char(out, (48 + (t.day / 10) as u8) as char);
    push_char(out, (48 + (t.day % 10) as u8) as char);
    push_char(out, 'T');
    push_char(out, (48 + (t.hour / 10) as u8) as char);
    push_char(out, (48 + (t.hour % 10) as u8) as char);
    push_char(out, ':');
    push_char(out, (48 + (t.minute / 10) as u8) as char);
    push_char(out, (48 + (t.minute % 10) as u8) as char);
    push_char(out, ':');
    push_char(out, (48 + (t.second / 10) as u8) as char);
    push_char(out, (48 + (t.second % 10) as u8) as char);
    push_char(out, 'Z');
    assert(t.year as int / 1000 % 10 == t.year as int / 1000);
    assert(final(out)@ =~= old(out)@ + spec_ser_ts(*t));
}

/// Serialize a whole document in canonical form.
pub fn serialize_doc(version: i8, table: &BookmarkTable) -> (r: String)
    requires
        table.wf(),
    ensures
        r@ == spec_ser_doc(version as int, table@),
{
    let ghost tv = table@;
    let mut out = String::new();
    out.append("(schema_version:");
    push_i8(&mut out, version);
    out.append(",bookmarks:{");
    let ghost prefix = "(schema_version:"@ + spec_ser_int(version as int) + ",bookmarks:{"@;
    assert(out@ =~= prefix);
    let mut i: usize = 0;
    while i < table.entries.len()
        invariant
            i <= table.entries.len(),
            tv == table@,
            table.wf(),
            prefix == "(schema_version:"@ + spec_ser_int(version as int) + ",bookmarks:{"@,
            out@ == prefix + spec_ser_entries(tv.subrange(0, i as int)),
        decreases table.entries.len() - i,
    {
        let ghost e = tv[i as int];
        assert(tv[i as int] == (table.entries@[i as int].0@, table.entries@[i as int].1@));
        assert(bookmark_valid(e.1));
        let ghost chunk0 = out@;
        out.append("\"");
        push_escaped(&mut out, table.entries[i].0.as_str());
        out.append("\":");
        out.append("(timestamp:\"");
        push_ts(&mut out, &table.entries[i].1.timestamp);
        out.append("\",url:\"");
        push_escaped(&mut out, table.entries[i].1.url.as_str());
        out.append("\"),");
        assert(out@ =~= chunk0 + spec_ser_entry(e.0, e.1));
        proof {
            lemma_ser_entries_append(tv.subrange(0, i as int), seq![e]);
            assert(tv.subrange(0, i as int) + seq![e] =~= tv.subrange(0, i as int + 1));
            assert(seq![e].drop_first() =~= Seq::<(Seq<char>, BookmarkV)>::empty());
            assert(spec_ser_entries(Seq::<(Seq<char>, BookmarkV)>::empty())
                == Seq::<char>::empty());
            assert(seq![e][0] == e);
            assert(spec_ser_entries(seq![e]) =~= spec_ser_entry(e.0, e.1));
            assert(out@ =~= prefix + spec_ser_entries(tv.subrange(0, i as int + 1)));
        }
        i += 1;
    }
    assert(tv.subrange(0, tv.len() as int) =~= tv);
    out.append("})");
    assert(out@ =~= spec_ser_doc(version as int, tv));
    out
}

// ---------------------------------------------------------------------
// The verified reader.
// ---------------------------------------------------------------------
/// Runtime check of `is_digit`.
fn char_is_digit(c: char) -> (r: bool)
    ensures
        r == is_digit(c),
{
    let u = c as u32;
    48 <= u && u <= 57
}

/// A scanned digit run ends exactly where `digits_end` says.
proof fn lemma_digits_end(s: Seq<char>, i: int, e: int)
    requires
        0 <= i <= e <= s.len(),
        forall|t: int| i <= t < e ==> is_digit(#[trigger] s[t]),
        e < s.len() ==> !is_digit(s[e]),
    ensures
        digits_end(s, i) == e,
    decreases e - i,
{
    if i < e {
        lemma_digits_end(s, i + 1, e);
    }
}

/// Expect the literal `lit` at position `i`.
fn e_lit(v: &Vec<char>, i: usize, lit: &str) -> (r: Option<usize>)
    ensures
        match r {
            Some(j) => p_lit(v@, i as int, lit@) == Some(j as int),
            None => p_lit(v@, i as int, lit@) is None,
        },
{
    let n: usize = lit.unicode_len();
    if i > v.len() || v.len() - i < n {
        return None;
    }
    let mut j: usize = 0;
    while j < n
        invariant
            j <= n,
            i + n <= v.len(),
            n == lit@.len(),
            forall|t: int| 0 <= t < j ==> v@[i + t] == lit@[t],
        decreases n - j,
    {
        if v[i + j] != lit.get_char(j) {
            proof {
                if p_lit(v@, i as int, lit@) is Some {
                    assert(v@.subrange(i as int, i as int + lit@.len() as int) == lit@);
                    assert(v@.subrange(i as int, i as int + lit@.len() as int)[j as int] == v@[
                        i as int + j as int
                    ]);
                    assert(false);
                }
            }
            return None;
        }
        j += 1;
    }
    assert(v@.subrange(i as int, i as int + lit@.len() as int) =~= lit@);
    Some(i + n)
}

/// Read a small signed integer.
fn e_int(v: &Vec<char>, i: usize) -> (r: Option<(i16, usize)>)
    ensures
        match r {
            Some(p) => p_int(v@, i as int) == Some((p.0 as int, p.1 as int)),
            None => p_int(v@, i as int) is None,
        },
{
    if i >= v.len() {
        return None;
    }
    let neg = v[i] == '-';
    let st: usize = if neg {
        i + 1
    } else {
        i
    };
    let mut e: usize = st;
    loop
        invariant
            st <= e <= v.len(),
            forall|t: int| st <= t < e ==> is_digit(#[trigger] v@[t]),
        ensures
            st <= e <= v.len(),
            forall|t: int| st <= t < e ==> is_digit(#[trigger] v@[t]),
            e < v.len() ==> !is_digit(v@[e as int]),
        decreases v.len() - e,
    {
        if e >= v.len() {
            break;
        }
        if !char_is_digit(v[e]) {
            break;
        }
        e += 1;
    }
    proof {
        lemma_digits_end(v@, st as int, e as int);
    }
    if e == st || e - st > 3 {
        return None;
    }
    let mut x: i16 = 0;
    let mut t: usize = st;
    while t < e
        invariant
            st <= t <= e <= v.len(),
            e - st <= 3,
            forall|u: int| st <= u < e ==> is_digit(#[trigger] v@[u]),
            x == digits_val(v@.subrange(st as int, t as int)),
            t - st == 0 ==> x == 0,
            t - st == 1 ==> 0 <= x <= 9,
            t - st == 2 ==> 0 <= x <= 99,
            t - st == 3 ==> 0 <= x <= 999,
        decreases e - t,
    {
        let c = v[t];
        let d: i16 = (c as u32 - 48) as i16;
        x = x * 10 + d;
        proof {
            assert(v@.subrange(st as int, t as int + 1).drop_last() =~= v@.subrange(
                st as int,
                t as int,
            ));
            assert(v@.subrange(st as int, t as int + 1).last() == v@[t as int]);
        }
        t += 1;
    }
    assert(v@.subrange(st as int, e as int) == v@.subrange(st as int, t as int));
    let val: i16 = if neg {
        -x
    } else {
        x
    };
    Some((val, e))
}

/// Read a timestamp in the exact RFC 3339 UTC shape.
fn e_ts(v: &Vec<char>, i: usize) -> (r: Option<(Timestamp, usize)>)
    ensures
        match r {
            Some(p) => p_ts(v@, i as int) == Some((p.0, p.1 as int)),
            None => p_ts(v@, i as int) is None,
        },
{
    if i > v.len() || v.len() - i < 20 {
        return None;
    }
    let shape_ok = char_is_digit(v[i]) && char_is_digit(v[i + 1]) && char_is_digit(v[i + 2])
        && char_is_digit(v[i + 3]) && v[i + 4] == '-' && char_is_digit(v[i + 5]) && char_is_digit(
        v[i + 6],
    ) && v[i + 7] == '-' && char_is_digit(v[i + 8]) && char_is_digit(v[i + 9]) && v[i + 10] == 'T'
        && char_is_digit(v[i + 11]) && char_is_digit(v[i + 12]) && v[i + 13] == ':'
        && char_is_digit(v[i + 14]) && char_is_digit(v[i + 15]) && v[i + 16] == ':'
        && char_is_digit(v[i + 17]) && char_is_digit(v[i + 18]) && v[i + 19] == 'Z';
    if !shape_ok {
        return None;
    }
    let year: u16 = ((v[i] as u32 - 48) * 1000 + (v[i + 1] as u32 - 48) * 100 + (v[i + 2] as u32
        - 48) * 10 + (v[i + 3] as u32 - 48)) as u16;
    let month: u8 = ((v[i + 5] as u32 - 48) * 10 + (v[i + 6] as u32 - 48)) as u8;
    let day: u8 = ((v[i + 8] as u32 - 48) * 10 + (v[i + 9] as u32 - 48)) as u8;
    let hour: u8 = ((v[i + 11] as u32 - 48) * 10 + (v[i + 12] as u32 - 48)) as u8;
    let minute: u8 = ((v[i + 14] as u32 - 48) * 10 + (v[i + 15] as u32 - 48)) as u8;
    let second: u8 = ((v[i + 17] as u32 - 48) * 10 + (v[i + 18] as u32 - 48)) as u8;
    let t = Timestamp { year, month, day, hour, minute, second };
    if t.is_valid() {
        Some((t, i + 20))
    } else {
        None
    }
}

/// Read a quoted string body up to its closing quote.
fn e_str_body(v: &Vec<char>, start: usize) -> (r: Option<(String, usize)>)
    ensures
        match r {
            Some(p) => p_str_body(v@, start as int) matches Some(sp) && p.0@ == sp.0 && p.1
                == sp.1,
            None => p_str_body(v@, start as int) is None,
        },
{
    let mut acc = String::new();
    let mut cur: usize = start;
    loop
        invariant
            start <= cur,
            (match p_str_body(v@, cur as int) {
                Some(r2) => p_str_body(v@, start as int) == Some((acc@ + r2.0, r2.1)),
                None => p_str_body(v@, start as int) is None,
            }),
        decreases v.len() - cur,
    {
        if cur >= v.len() {
            return None;
        }
        let c = v[cur];
        if c == '"' {
            assert(acc@ + Seq::<char>::empty() =~= acc@);
            return Some((acc, cur + 1));
        }
        if c == '\\' {
            if cur + 1 >= v.len() {
                return None;
            }
            let ghost accv = acc@;
            push_char(&mut acc, v[cur + 1]);
            proof {
                match p_str_body(v@, cur as int + 2) {
                    Some(r3) => {
                        assert(accv.push(v@[cur as int + 1]) + r3.0 =~= accv + (seq![
                            v@[cur as int + 1]
                        ] + r3.0));
                    },
                    None => {},
                }
            }
            cur = cur + 2;
        } else {
            let ghost accv = acc@;
            push_char(&mut acc, c);
            proof {
                match p_str_body(v@, cur as int + 1) {
                    Some(r3) => {
                        assert(accv.push(v@[cur as int]) + r3.0 =~= accv + (seq![v@[cur as int]]
                            + r3.0));
                    },
                    None => {},
                }
            }
            cur = cur + 1;
        }
    }
}

/// Read one record.
fn e_record(v: &Vec<char>, i: usize) -> (r: Option<(Bookmark, usize)>)
    ensures
        match r {
            Some(p) => p_record(v@, i as int) == Some((p.0@, p.1 as int)) && bookmark_valid(p.0@),
            None => p_record(v@, i as int) is None,
        },
{
    let j1 = match e_lit(v, i, "(timestamp:\"") {
        None => { return None; },
        Some(j) => j,
    };
    let (ts, j2) = match e_ts(v, j1) {
        None => { return None; },
        Some(p) => p,
    };
    let j3 = match e_lit(v, j2, "\",url:\"") {
        None => { return None; },
        Some(j) => j,
    };
    let (u, j4) = match e_str_body(v, j3) {
        None => { return None; },
        Some(p) => p,
    };
    let j5 = match e_lit(v, j4, ")") {
        None => { return None; },
        Some(j) => j,
    };
    if parse_url(u.as_str()).is_none() {
        return None;
    }
    Some((Bookmark { timestamp: ts, url: u }, j5))
}

/// Read one entry with its trailing comma.
fn e_entry(v: &Vec<char>, i: usize) -> (r: Option<((String, Bookmark), usize)>)
    ensures
        match r {
            Some(p) => p_entry(v@, i as int) == Some(((p.0.0@, p.0.1@), p.1 as int))
                && bookmark_valid(p.0.1@),
            None => p_entry(v@, i as int) is None,
        },
{
    let j1 = match e_lit(v, i, "\"") {
        None => { return None; },
        Some(j) => j,
    };
    let (k, j2) = match e_str_body(v, j1) {
        None => { return None; },
        Some(p) => p,
    };
    let j3 = match e_lit(v, j2, ":") {
        None => { return None; },
        Some(j) => j,
    };
    let (b, j4) = match e_record(v, j3) {
        None => { return None; },
        Some(p) => p,
    };
    let j5 = match e_lit(v, j4, ",") {
        None => { return None; },
        Some(j) => j,
    };
    Some(((k, b), j5))
}

/// Read entries up to and including the closing brace.
fn e_entries(v: &Vec<char>, start: usize) -> (r: Option<(Vec<(String, Bookmark)>, usize)>)
    ensures
        match r {
            Some(p) => p_entries(v@, start as int) == Some((entries_view(p.0@), p.1 as int))
                && table_valid(entries_view(p.0@)),
            None => p_entries(v@, start as int) is None,
        },
{
    let mut acc: Vec<(String, Bookmark)> = Vec::new();
    let mut cur: usize = start;
    loop
        invariant
            table_valid(entries_view(acc@)),
            (match p_entries(v@, cur as int) {
                Some(r2) => p_entries(v@, start as int) == Some(
                    (entries_view(acc@) + r2.0, r2.1),
                ),
                None => p_entries(v@, start as int) is None,
            }),
        decreases v.len() - cur,
    {
        if cur >= v.len() {
            return None;
        }
        if v[cur] == '}' {
            assert(entries_view(acc@) + Seq::<(Seq<char>, BookmarkV)>::empty() =~= entries_view(
                acc@,
            ));
            return Some((acc, cur + 1));
        }
        match e_entry(v, cur) {
            None => { return None; },
            Some((e, j)) => {
                if j <= cur || j > v.len() {
                    return None;
                }
                let ghost ev = (e.0@, e.1@);
                let ghost accv = acc@;
                proof {
                    match p_entries(v@, j as int) {
                        Some(r3) => {
                            assert(entries_view(accv).push(ev) + r3.0 =~= entries_view(accv)
                                + (seq![ev] + r3.0));
                        },
                        None => {},
                    }
                }
                acc.push(e);
                assert(entries_view(acc@) =~= entries_view(accv).push(ev));
                assert forall|q: int| 0 <= q < entries_view(acc@).len() implies bookmark_valid(
                    (#[trigger] entries_view(acc@)[q]).1,
                ) by {
                    if q < accv.len() {
                        assert(entries_view(acc@)[q] == entries_view(accv)[q]);
                    }
                }
                cur = j;
            },
        }
    }
}

/// Keys ascend pairwise when they ascend between neighbours.
proof fn lemma_sorted_chain(s: Seq<(Seq<char>, BookmarkV)>, i: int, j: int)
    requires
        forall|t: int| 0 <= t < s.len() - 1 ==> key_lt((#[trigger] s[t]).0, s[t + 1].0),
        0 <= i < j < s.len(),
    ensures
        key_lt(s[i].0, s[j].0),
    decreases j - i,
{
    if j == i + 1 {
    } else {
        lemma_sorted_chain(s, i, j - 1);
        lemma_key_lt_trans(s[i].0, s[j - 1].0, s[j].0);
    }
}

/// Parse a whole document: the full structural read, used on the `Same`
/// and `Older` paths after the probe.
#[verifier::rlimit(80)]
pub fn deserialize_doc(s: &str) -> (r: Option<(i8, BookmarkTable)>)
    ensures
        match r {
            Some(p) => p_doc(s@) == Some((p.0 as int, p.1@)) && p.1.wf(),
            None => p_doc(s@) is None,
        },
{
    let v = str_to_chars(s);
    let j1 = match e_lit(&v, 0, "(schema_version:") {
        None => { return None; },
        Some(j) => j,
    };
    let (x, j2) = match e_int(&v, j1) {
        None => { return None; },
        Some(p) => p,
    };
    if x < -128 || x > 127 {
        return None;
    }
    let ver: i8 = x as i8;
    let j3 = match e_lit(&v, j2, ",bookmarks:{") {
        None => { return None; },
        Some(j) => j,
    };
    let (es, j4) = match e_entries(&v, j3) {
        None => { return None; },
        Some(p) => p,
    };
    let j5 = match e_lit(&v, j4, ")") {
        None => { return None; },
        Some(j) => j,
    };
    if j5 != v.len() {
        return None;
    }
    let ghost evv = entries_view(es@);
    let n: usize = es.len();
    let mut q: usize = 0;
    let mut sorted_ok = true;
    loop
        invariant_except_break
            sorted_ok,
        invariant
            q <= n,
            n == es.len(),
            evv == entries_view(es@),
            evv.len() == n,
            forall|t: int| 0 <= t < q && t + 1 < n ==> key_lt((#[trigger] evv[t]).0, evv[t + 1].0),
        ensures
            sorted_ok ==> table_sorted(evv),
            !sorted_ok ==> !table_sorted(evv),
        decreases n - q,
    {
        if n - q <= 1 {
            proof {
                assert forall|a: int, b: int| 0 <= a < b < evv.len() implies key_lt(
                    (#[trigger] evv[a]).0,
                    (#[trigger] evv[b]).0,
                ) by {
                    lemma_sorted_chain(evv, a, b);
                }
                assert(table_sorted(evv));
            }
            break;
        }
        assert(evv[q as int] == (es@[q as int].0@, es@[q as int].1@));
        assert(evv[q as int + 1] == (es@[q as int + 1].0@, es@[q as int + 1].1@));
        if key_cmp(es[q].0.as_str(), es[q + 1].0.as_str()) != -1 {
            proof {
                if table_sorted(evv) {
                    assert(key_lt(evv[q as int].0, evv[q as int + 1].0));
                }
            }
            sorted_ok = false;
            break;
        }
        q += 1;
    }
    if !sorted_ok {
        return None;
    }
    let table = BookmarkTable { entries: es };
    assert(table@ == evv);
    assert(table_wf(evv));
    Some((ver, table))
}

/// The schema probe: extract only the version tag from a serialized
/// document, with no knowledge of the payload shape. `Malformed` means
/// the bytes are not a recognizable versioned document at all.
pub fn probe(s: &str) -> (r: Result<i8, crate::errors::ProbeError>)
    ensures
        match spec_probe(s@) {
            Some(pv) => r matches Ok(x) && x as int == pv,
            None => r == Err::<i8, crate::errors::ProbeError>(crate::errors::ProbeError::Malformed),
        },
{
    let v = str_to_chars(s);
    let j1 = match e_lit(&v, 0, "(schema_version:") {
        None => { return Err(crate::errors::ProbeError::Malformed); },
        Some(j) => j,
    };
    let (x, j2) = match e_int(&v, j1) {
        None => { return Err(crate::errors::ProbeError::Malformed); },
        Some(p) => p,
    };
    if x < -128 || x > 127 {
        return Err(crate::errors::ProbeError::Malformed);
    }
    if j2 >= v.len() {
        return Err(crate::errors::ProbeError::Malformed);
    }
    if v[j2] != ',' {
        return Err(crate::errors::ProbeError::Malformed);
    }
    Ok(x as i8)
}

// ---------------------------------------------------------------------
// Laws: what the reader makes of what the writer wrote.
// ---------------------------------------------------------------------
/// Digits of a non-negative number: at most three for values below a
/// thousand, every character a digit, and the value reads back.
proof fn lemma_dec_digits(n: int)
    requires
        0 <= n,
    ensures
        dec_digits(n).len() >= 1,
        n < 1000 ==> dec_digits(n).len() <= 3,
        forall|t: int| 0 <= t < dec_digits(n).len() ==> is_digit(#[trigger] dec_digits(n)[t]),
        digits_val(dec_digits(n)) == n,
    decreases n,
{
    if n < 10 {
        assert(dec_digits(n) =~= seq![digit(n)]);
        assert(is_digit(digit(n)));
        assert(dec_digits(n).drop_last() =~= Seq::<char>::empty());
        assert(digit_val(digit(n)) == n);
        assert(digits_val(Seq::<char>::empty()) == 0);
        assert(seq![digit(n)].last() == digit(n));
        assert(digits_val(dec_digits(n)) == digits_val(dec_digits(n).drop_last()) * 10 + digit_val(
            dec_digits(n).last(),
        ));
    } else {
        lemma_dec_digits(n / 10);
        let d = dec_digits(n / 10);
        assert(dec_digits(n) == d.push(digit(n % 10)));
        assert forall|t: int| 0 <= t < dec_digits(n).len() implies is_digit(
            #[trigger] dec_digits(n)[t],
        ) by {
            if t < d.len() {
                assert(dec_digits(n)[t] == d[t]);
            } else {
                assert(dec_digits(n)[t] == digit(n % 10));
            }
        }
        assert(d.push(digit(n % 10)).drop_last() =~= d);
        assert(digits_val(dec_digits(n)) == digits_val(d) * 10 + digit_val(digit(n % 10)));
        assert(digit_val(digit(n % 10)) == n % 10);
        assert((n / 10) * 10 + n % 10 == n);
        if n < 1000 {
            assert(n / 10 < 100);
            if n / 10 < 10 {
            } else {
                assert(dec_digits(n / 10 / 10).len() >= 1);
            }
        }
    }
}

/// The canonical text of a small integer, followed by any non-digit,
/// reads back as that integer.
proof fn lemma_p_int_of_ser(s: Seq<char>, i: int, v: int)
    requires
        -128 <= v <= 127,
        0 <= i,
        i + spec_ser_int(v).len() < s.len(),
        s.subrange(i, i + spec_ser_int(v).len()) == spec_ser_int(v),
        !is_digit(s[i + spec_ser_int(v).len()]),
    ensures
        p_int(s, i) == Some((v, i + spec_ser_int(v).len())),
{
    let l = spec_ser_int(v).len() as int;
    if v >= 0 {
        lemma_dec_digits(v);
        assert(spec_ser_int(v) == dec_digits(v));
        assert(s[i] == dec_digits(v)[0]);
        assert(is_digit(s[i]));
        assert(s[i] as u32 >= 48);
        assert('-' as u32 == 45);
        assert(s[i] != '-');
        assert forall|u: int| i <= u < i + l implies is_digit(#[trigger] s[u]) by {
            assert(s[u] == s.subrange(i, i + l)[u - i]);
        }
        lemma_digits_end(s, i, i + l);
        assert(s.subrange(i, i + l) == dec_digits(v));
        assert(digits_val(s.subrange(i, i + l)) == v);
    } else {
        lemma_dec_digits(-v);
        assert(spec_ser_int(v) == seq!['-'] + dec_digits(-v));
        assert(s[i] == spec_ser_int(v)[0]);
        assert(s[i] == '-');
        assert(s.subrange(i + 1, i + l) =~= dec_digits(-v)) by {
            assert forall|u: int| 0 <= u < l - 1 implies #[trigger] s.subrange(i + 1, i + l)[u]
                == dec_digits(-v)[u] by {
                assert(s.subrange(i, i + l)[u + 1] == spec_ser_int(v)[u + 1]);
            }
        }
        assert forall|u: int| i + 1 <= u < i + l implies is_digit(#[trigger] s[u]) by {
            assert(s[u] == s.subrange(i + 1, i + l)[u - i - 1]);
        }
        lemma_digits_end(s, i + 1, i + l);
        assert(digits_val(s.subrange(i + 1, i + l)) == -v);
        assert(-(-v) == v);
    }
}

/// The escaped body of a string, followed by a closing quote, reads
/// back as the original string.
proof fn lemma_p_str_body_of_esc(s: Seq<char>, i: int, k: Seq<char>)
    requires
        0 <= i,
        i + esc(k).len() + 1 <= s.len(),
        s.subrange(i, i + esc(k).len()) == esc(k),
        s[i + esc(k).len()] == '"',
    ensures
        p_str_body(s, i) == Some((k, i + esc(k).len() + 1)),
    decreases k.len(),
{
    let l = esc(k).len() as int;
    if k.len() == 0 {
        assert(k =~= Seq::<char>::empty());
        assert(s[i] == '"');
    } else {
        let c = k[0];
        let kd = k.drop_first();
        assert(esc(k) == esc_char(c) + esc(kd));
        let cl = esc_char(c).len() as int;
        assert(s.subrange(i + cl, i + l) =~= esc(kd)) by {
            assert forall|u: int| 0 <= u < l - cl implies s.subrange(i + cl, i + l)[u] == esc(kd)[u]
                by {
                assert(s.subrange(i, i + l)[u + cl] == esc(k)[u + cl]);
                assert(esc(k)[u + cl] == esc(kd)[u]);
            }
        }
        assert(i + cl + esc(kd).len() == i + l);
        if c == '"' || c == '\\' {
            assert(esc_char(c) =~= seq!['\\', c]);
            assert(s[i] == esc(k)[0]) by {
                assert(s.subrange(i, i + l)[0] == esc(k)[0]);
            }
            assert(s[i] == '\\');
            assert(s[i + 1] == esc(k)[1]) by {
                assert(s.subrange(i, i + l)[1] == esc(k)[1]);
            }
            assert(s[i + 1] == c);
            assert('"' as u32 == 34 && '\\' as u32 == 92);
            assert(s[i] != '"');
            lemma_p_str_body_of_esc(s, i + 2, kd);
            assert(p_str_body(s, i) == Some((seq![s[i + 1]] + kd, i + l + 1)));
            assert(seq![c] + kd =~= k);
        } else {
            assert(esc_char(c) =~= seq![c]);
            assert(s[i] == esc(k)[0]) by {
                assert(s.subrange(i, i + l)[0] == esc(k)[0]);
            }
            assert(s[i] == c);
            assert(s[i] != '"' && s[i] != '\\');
            lemma_p_str_body_of_esc(s, i + 1, kd);
            assert(p_str_body(s, i) == Some((seq![s[i]] + kd, i + l + 1)));
            assert(seq![c] + kd =~= k);
        }
    }
}

/// Splitting a four-digit year into its decimal digits loses nothing.
proof fn lemma_digits4(y: int)
    requires
        0 <= y <= 9999,
    ensures
        (y / 1000 % 10) * 1000 + (y / 100 % 10) * 100 + (y / 10 % 10) * 10 + y % 10 == y,
        0 <= y / 1000 % 10 <= 9,
        0 <= y / 100 % 10 <= 9,
        0 <= y / 10 % 10 <= 9,
        0 <= y % 10 <= 9,
{
    assert((y / 1000 % 10) * 1000 + (y / 100 % 10) * 100 + (y / 10 % 10) * 10 + y % 10 == y)
        by (nonlinear_arith)
        requires
            0 <= y <= 9999,
    ;
}

/// The written form of a valid timestamp reads back as that timestamp.
proof fn lemma_p_ts_of_ser(s: Seq<char>, i: int, ts: Timestamp)
    requires
        ts.valid(),
        0 <= i,
        i + 20 <= s.len(),
        s.subrange(i, i + 20) == spec_ser_ts(ts),
    ensures
        p_ts(s, i) == Some((ts, i + 20)),
{
    let w = spec_ser_ts(ts);
    assert forall|u: int| 0 <= u < 20 implies s[i + u] == w[u] by {
        assert(s.subrange(i, i + 20)[u] == w[u]);
    }
    lemma_digits4(ts.year as int);
    lemma_digits4(ts.month as int);
    lemma_digits4(ts.day as int);
    lemma_digits4(ts.hour as int);
    lemma_digits4(ts.minute as int);
    lemma_digits4(ts.second as int);
    assert(ts.year as int / 1000 % 10 == ts.year as int / 1000);
    assert(digit_val(w[0]) == ts.year as int / 1000 % 10);
    assert(digit_val(w[1]) == ts.year as int / 100 % 10);
    assert(digit_val(w[2]) == ts.year as int / 10 % 10);
    assert(digit_val(w[3]) == ts.year as int % 10);
    assert((ts.month as int / 10) * 10 + ts.month as int % 10 == ts.month as int);
    assert((ts.day as int / 10) * 10 + ts.day as int % 10 == ts.day as int);
    assert((ts.hour as int / 10) * 10 + ts.hour as int % 10 == ts.hour as int);
    assert((ts.minute as int / 10) * 10 + ts.minute as int % 10 == ts.minute as int);
    assert((ts.second as int / 10) * 10 + ts.second as int % 10 == ts.second as int);
    match p_ts(s, i) {
        Some(r) => {
            assert(r.0 == ts);
        },
        None => {
            assert(false);
        },
    }
}

/// A piece of a known region of `s` is itself a known region of `s`.
proof fn lemma_chunk(s: Seq<char>, i: int, a: Seq<char>, off: int, part: Seq<char>)
    requires
        0 <= i,
        i + a.len() <= s.len(),
        s.subrange(i, i + a.len()) == a,
        0 <= off,
        off + part.len() <= a.len(),
        a.subrange(off, off + part.len()) == part,
    ensures
        s.subrange(i + off, i + off + part.len()) == part,
{
    assert(s.subrange(i + off, i + off + part.len()) =~= part) by {
        assert forall|u: int| 0 <= u < part.len() implies #[trigger] s.subrange(
            i + off,
            i + off + part.len(),
        )[u] == part[u] by {
            assert(s.subrange(i, i + a.len())[off + u] == a[off + u]);
            assert(a.subrange(off, off + part.len())[u] == a[off + u]);
        }
    }
}

/// The written form of one entry reads back as that entry.
#[verifier::rlimit(100)]
proof fn lemma_p_entry_of_ser(s: Seq<char>, i: int, k: Seq<char>, b: BookmarkV)
    requires
        bookmark_valid(b),
        0 <= i,
        i + spec_ser_entry(k, b).len() <= s.len(),
        s.subrange(i, i + spec_ser_entry(k, b).len()) == spec_ser_entry(k, b),
    ensures
        p_entry(s, i) == Some(((k, b), i + spec_ser_entry(k, b).len())),
{
    reveal_strlit("\"");
    reveal_strlit("\":");
    reveal_strlit(":");
    reveal_strlit("(timestamp:\"");
    reveal_strlit("\",url:\"");
    reveal_strlit("\"),");
    reveal_strlit(")");
    reveal_strlit(",");
    let e = spec_ser_entry(k, b);
    let el = e.len() as int;
    let q1 = "\""@;
    let ek = esc(k);
    let q2 = "\":"@;
    let q3 = "(timestamp:\""@;
    let w = spec_ser_ts(b.timestamp);
    let q4 = "\",url:\""@;
    let eu = esc(b.url);
    let q5 = "\"),"@;
    let ekl = ek.len() as int;
    let eul = eu.len() as int;
    let o1 = i + 1;
    let o2 = o1 + ekl;
    let o3 = o2 + 2;
    let o4 = o3 + 12;
    let o5 = o4 + 20;
    let o6 = o5 + 7;
    let o7 = o6 + eul;
    assert(el == 1 + ekl + 2 + 12 + 20 + 7 + eul + 3);
    assert(e.subrange(0, 1) =~= q1);
    assert(e.subrange(1, 1 + ekl) =~= ek);
    assert(e.subrange(1 + ekl, 3 + ekl) =~= q2);
    assert(e.subrange(3 + ekl, 15 + ekl) =~= q3);
    assert(e.subrange(15 + ekl, 35 + ekl) =~= w);
    assert(e.subrange(35 + ekl, 42 + ekl) =~= q4);
    assert(e.subrange(42 + ekl, 42 + ekl + eul) =~= eu);
    assert(e.subrange(42 + ekl + eul, el) =~= q5);
    lemma_chunk(s, i, e, 0, q1);
    lemma_chunk(s, i, e, 1, ek);
    lemma_chunk(s, i, e, 1 + ekl, q2);
    lemma_chunk(s, i, e, 3 + ekl, q3);
    lemma_chunk(s, i, e, 15 + ekl, w);
    lemma_chunk(s, i, e, 35 + ekl, q4);
    lemma_chunk(s, i, e, 42 + ekl, eu);
    lemma_chunk(s, i, e, 42 + ekl + eul, q5);
    // the opening quote
    assert(p_lit(s, i, q1) == Some(o1));
    // the title and its closing quote, the first character of q2
    assert(s[o2] == q2[0]) by {
        assert(s.subrange(o2, o2 + 2)[0] == q2[0]);
    }
    lemma_p_str_body_of_esc(s, o1, k);
    assert(p_str_body(s, o1) == Some((k, o2 + 1)));
    // the colon, the second character of q2
    assert(s[o2 + 1] == q2[1]) by {
        assert(s.subrange(o2, o2 + 2)[1] == q2[1]);
    }
    assert(s.subrange(o2 + 1, o2 + 2) =~= ":"@);
    assert(p_lit(s, o2 + 1, ":"@) == Some(o3));
    // the record
    assert(p_lit(s, o3, q3) == Some(o4));
    lemma_p_ts_of_ser(s, o4, b.timestamp);
    assert(p_lit(s, o5, q4) == Some(o6));
    assert(s[o7] == q5[0]) by {
        assert(s.subrange(o7, o7 + 3)[0] == q5[0]);
    }
    lemma_p_str_body_of_esc(s, o6, b.url);
    assert(p_str_body(s, o6) == Some((b.url, o7 + 1)));
    assert(s[o7 + 1] == q5[1]) by {
        assert(s.subrange(o7, o7 + 3)[1] == q5[1]);
    }
    assert(s.subrange(o7 + 1, o7 + 2) =~= ")"@);
    assert(p_lit(s, o7 + 1, ")"@) == Some(o7 + 2));
    assert(p_record(s, o3) == Some((b, o7 + 2)));
    // the trailing comma
    assert(s[o7 + 2] == q5[2]) by {
        assert(s.subrange(o7, o7 + 3)[2] == q5[2]);
    }
    assert(s.subrange(o7 + 2, o7 + 3) =~= ","@);
    assert(p_lit(s, o7 + 2, ","@) == Some(o7 + 3));
    assert(o7 + 3 == i + el);
}

/// The written entries, followed by the closing brace, read back as
/// those entries.
proof fn lemma_p_entries_of_ser(s: Seq<char>, i: int, es: Seq<(Seq<char>, BookmarkV)>)
    requires
        table_valid(es),
        0 <= i,
        i + spec_ser_entries(es).len() + 1 <= s.len(),
        s.subrange(i, i + spec_ser_entries(es).len()) == spec_ser_entries(es),
        s[i + spec_ser_entries(es).len()] == '}',
    ensures
        p_entries(s, i) == Some((es, i + spec_ser_entries(es).len() + 1)),
    decreases es.len(),
{
    reveal_strlit("\"");
    let w = spec_ser_entries(es);
    let wl = w.len() as int;
    if es.len() == 0 {
        assert(s[i] == '}');
        assert(es =~= Seq::<(Seq<char>, BookmarkV)>::empty());
    } else {
        let e0 = spec_ser_entry(es[0].0, es[0].1);
        let rest = spec_ser_entries(es.drop_first());
        assert(w == e0 + rest);
        assert(e0.len() >= 1);
        assert(w.subrange(0, e0.len() as int) =~= e0);
        assert(w.subrange(e0.len() as int, wl) =~= rest);
        lemma_chunk(s, i, w, 0, e0);
        lemma_chunk(s, i, w, e0.len() as int, rest);
        assert(bookmark_valid(es[0].1));
        lemma_p_entry_of_ser(s, i, es[0].0, es[0].1);
        let j = i + e0.len() as int;
        // an entry starts with a quote, not the closing brace
        assert(s[i] == e0[0]) by {
            assert(s.subrange(i, i + e0.len() as int)[0] == e0[0]);
        }
        assert(e0[0] == '"') by {
            assert(e0[0] == "\""@[0]);
        }
        assert(s[i] != '}');
        assert forall|u: int| 0 <= u < es.drop_first().len() implies bookmark_valid(
            (#[trigger] es.drop_first()[u]).1,
        ) by {
            assert(es.drop_first()[u] == es[u + 1]);
        }
        lemma_p_entries_of_ser(s, j, es.drop_first());
        assert(p_entries(s, j) == Some((es.drop_first(), i + wl + 1)));
        assert(p_entry(s, i) == Some(((es[0].0, es[0].1), j)));
        assert(i < j <= s.len());
        assert(seq![(es[0].0, es[0].1)] + es.drop_first() =~= es);
    }
}

/// Round trip: a serialized document always parses back to exactly the
/// version and table it was written from — key set, order, and each
/// record's timestamp and URL preserved.
/// Where each piece of a serialized document lies in the whole.
proof fn lemma_doc_layout(v: int, es: Seq<(Seq<char>, BookmarkV)>)
    ensures
        ({
            let s = spec_ser_doc(v, es);
            let q1 = "(schema_version:"@;
            let iv = spec_ser_int(v);
            let q2 = ",bookmarks:{"@;
            let w = spec_ser_entries(es);
            let o1 = q1.len() as int;
            let o2 = o1 + iv.len();
            let o3 = o2 + q2.len();
            let o4 = o3 + w.len();
            &&& s.len() == o4 + 2
            &&& s.subrange(0, o1) == q1
            &&& s.subrange(o1, o2) == iv
            &&& s.subrange(o2, o3) == q2
            &&& s.subrange(o3, o4) == w
            &&& s.subrange(o4, o4 + 2) == "})"@
        }),
{
    reveal_strlit("})");
    let s = spec_ser_doc(v, es);
    let q1 = "(schema_version:"@;
    let iv = spec_ser_int(v);
    let q2 = ",bookmarks:{"@;
    let w = spec_ser_entries(es);
    let o1 = q1.len() as int;
    let o2 = o1 + iv.len();
    let o3 = o2 + q2.len();
    let o4 = o3 + w.len();
    assert(s.subrange(0, o1) =~= q1);
    assert(s.subrange(o1, o2) =~= iv);
    assert(s.subrange(o2, o3) =~= q2);
    assert(s.subrange(o3, o4) =~= w);
    assert(s.subrange(o4, o4 + 2) =~= "})"@);
}

#[verifier::rlimit(100)]
pub proof fn lemma_round_trip(v: int, es: Seq<(Seq<char>, BookmarkV)>)
    requires
        -128 <= v <= 127,
        table_wf(es),
    ensures
        p_doc(spec_ser_doc(v, es)) == Some((v, es)),
{
    reveal_strlit("(schema_version:");
    reveal_strlit(",bookmarks:{");
    reveal_strlit("})");
    reveal_strlit(")");
    let s = spec_ser_doc(v, es);
    let q1 = "(schema_version:"@;
    let iv = spec_ser_int(v);
    let q2 = ",bookmarks:{"@;
    let w = spec_ser_entries(es);
    let q3 = "})"@;
    let o1 = q1.len() as int;
    let o2 = o1 + iv.len();
    let o3 = o2 + q2.len();
    let o4 = o3 + w.len();
    lemma_doc_layout(v, es);
    assert(s.len() == o4 + 2);
    assert(p_lit(s, 0, q1) == Some(o1));
    assert(s[o2] == q2[0]) by {
        assert(s.subrange(o2, o3)[0] == q2[0]);
    }
    assert(s[o2] == ',');
    assert(!is_digit(',')) by {
        assert(',' as u32 == 44);
    }
    lemma_p_int_of_ser(s, o1, v);
    assert(p_int(s, o1) == Some((v, o2)));
    assert(p_lit(s, o2, q2) == Some(o3));
    assert(s[o4] == q3[0]) by {
        assert(s.subrange(o4, o4 + 2)[0] == q3[0]);
    }
    assert(s[o4] == '}');
    lemma_p_entries_of_ser(s, o3, es);
    assert(p_entries(s, o3) == Some((es, o4 + 1)));
    assert(s[o4 + 1] == q3[1]) by {
        assert(s.subrange(o4, o4 + 2)[1] == q3[1]);
    }
    assert(s.subrange(o4 + 1, o4 + 2) =~= ")"@);
    assert(p_lit(s, o4 + 1, ")"@) == Some(o4 + 2));
}

/// The probe reads the version tag from any document that begins with
/// a well-formed `schema_version` field, whatever follows the comma:
/// an unrecognized or evolved payload shape does not disturb it.
pub proof fn lemma_probe_ignores_payload(v: int, rest: Seq<char>)
    requires
        -128 <= v <= 127,
    ensures
        spec_probe("(schema_version:"@ + spec_ser_int(v) + seq![','] + rest) == Some(v),
{
    reveal_strlit("(schema_version:");
    let q1 = "(schema_version:"@;
    let iv = spec_ser_int(v);
    let s = q1 + iv + seq![','] + rest;
    let o1 = q1.len() as int;
    let o2 = o1 + iv.len();
    assert(s.subrange(0, o1) =~= q1);
    assert(s.subrange(o1, o2) =~= iv);
    assert(s[o2] == ',');
    assert(p_lit(s, 0, q1) == Some(o1));
    assert(!is_digit(',')) by {
        assert(',' as u32 == 44);
    }
    lemma_p_int_of_ser(s, o1, v);
    assert(p_int(s, o1) == Some((v, o2)));
}

/// In particular the probe of a serialized document yields the version
/// it was written with.
pub proof fn lemma_probe_of_ser(v: int, es: Seq<(Seq<char>, BookmarkV)>)
    requires
        -128 <= v <= 127,
    ensures
        spec_probe(spec_ser_doc(v, es)) == Some(v),
{
    reveal_strlit(",bookmarks:{");
    let q2 = ",bookmarks:{"@;
    let tail = q2.drop_first() + spec_ser_entries(es) + "})"@;
    assert(q2[0] == ',');
    assert(spec_ser_doc(v, es) =~= "(schema_version:"@ + spec_ser_int(v) + seq![','] + tail);
    lemma_probe_ignores_payload(v, tail);
}

} // verus!
