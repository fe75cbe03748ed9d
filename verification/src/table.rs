//! The in-memory bookmark table: a mapping from title to bookmark record,
//! kept in stable sorted-by-title order for deterministic listing.

use vstd::prelude::*;
use vstd::string::*;
use vstd::pervasive::VecAdditionalExecFns;

verus! {

use crate::chars::{key_lt, key_cmp, lemma_key_lt_irrefl, lemma_key_lt_trans, lemma_key_lt_total};
use crate::errors::ValidationError;
use crate::urlinfo::{url_ok, parse_url};

/// A UTC instant, as the calendar fields of its RFC 3339 text.
#[derive(Clone, Copy, Debug, PartialEq, Eq, Structural)]
pub struct Timestamp {
    pub year: u16,
    pub month: u8,
    pub day: u8,
    pub hour: u8,
    pub minute: u8,
    pub second: u8,
}

pub open spec fn spec_is_leap_year(y: int) -> bool {
    (y % 4 == 0 && y % 100 != 0) || y % 400 == 0
}

pub open spec fn spec_days_in_month(y: int, m: int) -> int {
    if m == 2 {
        if spec_is_leap_year(y) {
            29
        } else {
            28
        }
    } else if m == 4 || m == 6 || m == 9 || m == 11 {
        30
    } else {
        31
    }
}

impl Timestamp {
    /// The fields denote a real calendar instant that RFC 3339 text with
    /// a four-digit year can carry.
    pub open spec fn valid(self) -> bool {
        &&& self.year <= 9999
        &&& 1 <= self.month <= 12
        &&& 1 <= self.day
        &&& self.day as int <= spec_days_in_month(self.year as int, self.month as int)
        &&& self.hour <= 23
        &&& self.minute <= 59
        &&& self.second <= 59
    }

    /// Build a timestamp from calendar fields; `None` exactly when the
    /// fields do not denote a valid instant.
    pub fn new(year: u16, month: u8, day: u8, hour: u8, minute: u8, second: u8) -> (r: Option<
        Timestamp,
    >)
        ensures
            r matches Some(t) ==> t == (Timestamp { year, month, day, hour, minute, second })
                && t.valid(),
            r is None ==> !(Timestamp { year, month, day, hour, minute, second }).valid(),
    {
        let t = Timestamp { year, month, day, hour, minute, second };
        if t.is_valid() {
            Some(t)
        } else {
            None
        }
    }

    /// Runtime check of `valid`.
    pub fn is_valid(&self) -> (r: bool)
        ensures
            r == self.valid(),
    {
        let leap: bool = (self.year % 4 == 0 && self.year % 100 != 0) || self.year % 400 == 0;
        let dim: u8 = if self.month == 2 {
            if leap {
                29
            } else {
                28
            }
        } else if self.month == 4 || self.month == 6 || self.month == 9 || self.month == 11 {
            30
        } else {
            31
        };
        self.year <= 9999 && 1 <= self.month && self.month <= 12 && 1 <= self.day && self.day <= dim
            && self.hour <= 23 && self.minute <= 59 && self.second <= 59
    }
}

/// A stored bookmark record: when it was created, and where it points.
#[derive(Clone, Debug)]
pub struct Bookmark {
    pub timestamp: Timestamp,
    pub url: String,
}

/// Anything that points at a URL.
pub trait BookmarkUrl {
    /// The URL pointed at.
    spec fn spec_url(&self) -> Seq<char>;

    fn get_url(&self) -> (r: String)
        ensures
            r@ == self.spec_url(),
    ;
}

impl BookmarkUrl for Bookmark {
    open spec fn spec_url(&self) -> Seq<char> {
        self.url@
    }

    fn get_url(&self) -> (r: String) {
        self.url.clone()
    }
}

/// Mathematical model of a bookmark record.
pub struct BookmarkV {
    pub timestamp: Timestamp,
    pub url: Seq<char>,
}

impl View for Bookmark {
    type V = BookmarkV;

    open spec fn view(&self) -> BookmarkV {
        BookmarkV { timestamp: self.timestamp, url: self.url@ }
    }
}

/// A record the engine will persist: valid instant, parseable URL.
pub open spec fn bookmark_valid(b: BookmarkV) -> bool {
    b.timestamp.valid() && url_ok(b.url)
}

/// The model of a table's entry vector.
pub open spec fn entries_view(s: Seq<(String, Bookmark)>) -> Seq<(Seq<char>, BookmarkV)> {
    s.map_values(|e: (String, Bookmark)| (e.0@, e.1@))
}

/// Entries are in strictly ascending title order (hence titles are
/// unique).
pub open spec fn table_sorted(s: Seq<(Seq<char>, BookmarkV)>) -> bool {
    forall|i: int, j: int| 0 <= i < j < s.len() ==> key_lt(#[trigger] s[i].0, #[trigger] s[j].0)
}

/// Every stored record is one the engine may persist.
pub open spec fn table_valid(s: Seq<(Seq<char>, BookmarkV)>) -> bool {
    forall|i: int| 0 <= i < s.len() ==> bookmark_valid(#[trigger] s[i].1)
}

pub open spec fn table_wf(s: Seq<(Seq<char>, BookmarkV)>) -> bool {
    table_sorted(s) && table_valid(s)
}

/// Sorted order makes titles unique: a table never holds two entries
/// with the same title.
pub proof fn lemma_sorted_keys_unique(s: Seq<(Seq<char>, BookmarkV)>)
    requires
        table_sorted(s),
    ensures
        forall|i: int, j: int|
            0 <= i < j < s.len() ==> (#[trigger] s[i]).0 != (#[trigger] s[j]).0,
{
    assert forall|i: int, j: int| 0 <= i < j < s.len() implies (#[trigger] s[i]).0 != (
    #[trigger] s[j]).0 by {
        assert(key_lt(s[i].0, s[j].0));
        lemma_key_lt_irrefl(s[i].0);
    }
}

/// The record stored under `k`, if any.
pub open spec fn spec_lookup(s: Seq<(Seq<char>, BookmarkV)>, k: Seq<char>) -> Option<BookmarkV>
    decreases s.len(),
{
    if s.len() == 0 {
        None
    } else if s[0].0 == k {
        Some(s[0].1)
    } else {
        spec_lookup(s.drop_first(), k)
    }
}

/// The table after an upsert of `b` under `k`, keeping sorted order.
pub open spec fn spec_insert(
    s: Seq<(Seq<char>, BookmarkV)>,
    k: Seq<char>,
    b: BookmarkV,
) -> Seq<(Seq<char>, BookmarkV)>
    decreases s.len(),
{
    if s.len() == 0 {
        seq![(k, b)]
    } else if key_lt(k, s[0].0) {
        seq![(k, b)] + s
    } else if k == s[0].0 {
        seq![(k, b)] + s.drop_first()
    } else {
        seq![s[0]] + spec_insert(s.drop_first(), k, b)
    }
}

/// The table after deleting the entry under `k`, if it was there.
pub open spec fn spec_remove(s: Seq<(Seq<char>, BookmarkV)>, k: Seq<char>) -> Seq<
    (Seq<char>, BookmarkV),
>
    decreases s.len(),
{
    if s.len() == 0 {
        s
    } else if s[0].0 == k {
        s.drop_first()
    } else {
        seq![s[0]] + spec_remove(s.drop_first(), k)
    }
}

/// Looking up a key skips over entries with other keys.
proof fn lemma_lookup_peel(s: Seq<(Seq<char>, BookmarkV)>, k: Seq<char>, p: int)
    requires
        0 <= p <= s.len(),
        forall|i: int| 0 <= i < p ==> (#[trigger] s[i]).0 != k,
    ensures
        spec_lookup(s, k) == spec_lookup(s.skip(p), k),
    decreases p,
{
    if p == 0 {
        assert(s.skip(0) =~= s);
    } else {
        lemma_lookup_peel(s.drop_first(), k, p - 1);
        assert(forall|i: int|
            0 <= i < p - 1 ==> (#[trigger] s.drop_first()[i]).0 == s[i + 1].0);
        assert(s.drop_first().skip(p - 1) =~= s.skip(p));
    }
}

/// Inserting below a run of smaller keys leaves that run in place.
proof fn lemma_insert_peel(s: Seq<(Seq<char>, BookmarkV)>, k: Seq<char>, b: BookmarkV, p: int)
    requires
        0 <= p <= s.len(),
        forall|i: int| 0 <= i < p ==> key_lt((#[trigger] s[i]).0, k),
    ensures
        spec_insert(s, k, b) =~= s.subrange(0, p) + spec_insert(s.skip(p), k, b),
    decreases p,
{
    if p == 0 {
        assert(s.skip(0) =~= s);
        assert(s.subrange(0, 0) + spec_insert(s, k, b) =~= spec_insert(s, k, b));
    } else {
        assert(key_lt(s[0].0, k));
        lemma_key_lt_irrefl(k);
        if key_lt(k, s[0].0) {
            lemma_key_lt_trans(k, s[0].0, k);
        }
        assert(k != s[0].0);
        assert(spec_insert(s, k, b) == seq![s[0]] + spec_insert(s.drop_first(), k, b));
        assert(forall|i: int|
            0 <= i < p - 1 ==> (#[trigger] s.drop_first()[i]) == s[i + 1]);
        lemma_insert_peel(s.drop_first(), k, b, p - 1);
        assert(s.drop_first().skip(p - 1) =~= s.skip(p));
        assert(seq![s[0]] + (s.drop_first().subrange(0, p - 1) + spec_insert(s.skip(p), k, b))
            =~= s.subrange(0, p) + spec_insert(s.skip(p), k, b));
    }
}

/// Deleting skips over entries with other keys.
proof fn lemma_remove_peel(s: Seq<(Seq<char>, BookmarkV)>, k: Seq<char>, p: int)
    requires
        0 <= p <= s.len(),
        forall|i: int| 0 <= i < p ==> (#[trigger] s[i]).0 != k,
    ensures
        spec_remove(s, k) =~= s.subrange(0, p) + spec_remove(s.skip(p), k),
    decreases p,
{
    if p == 0 {
        assert(s.skip(0) =~= s);
        assert(s.subrange(0, 0) + spec_remove(s, k) =~= spec_remove(s, k));
    } else {
        assert(spec_remove(s, k) == seq![s[0]] + spec_remove(s.drop_first(), k));
        assert(forall|i: int|
            0 <= i < p - 1 ==> (#[trigger] s.drop_first()[i]) == s[i + 1]);
        lemma_remove_peel(s.drop_first(), k, p - 1);
        assert(s.drop_first().skip(p - 1) =~= s.skip(p));
        assert(seq![s[0]] + (s.drop_first().subrange(0, p - 1) + spec_remove(s.skip(p), k))
            =~= s.subrange(0, p) + spec_remove(s.skip(p), k));
    }
}

/// The mapping from unique title to bookmark record, held in strictly
/// ascending title order.
pub struct BookmarkTable {
    pub entries: Vec<(String, Bookmark)>,
}

impl View for BookmarkTable {
    type V = Seq<(Seq<char>, BookmarkV)>;

    open spec fn view(&self) -> Seq<(Seq<char>, BookmarkV)> {
        entries_view(self.entries@)
    }
}

impl BookmarkTable {
    /// The table's invariant: sorted, unique titles, persistable records.
    pub open spec fn wf(self) -> bool {
        table_wf(self@)
    }

    /// An empty table.
    pub fn new() -> (t: BookmarkTable)
        ensures
            t@ =~= Seq::<(Seq<char>, BookmarkV)>::empty(),
            t.wf(),
    {
        BookmarkTable { entries: Vec::new() }
    }

    /// Number of records in the table.
    pub fn len(&self) -> (n: usize)
        ensures
            n == self@.len(),
    {
        self.entries.len()
    }

    /// The entries in ascending title order, for listing and diffing.
    pub fn list(&self) -> (r: &Vec<(String, Bookmark)>)
        ensures
            entries_view(r@) == self@,
    {
        &self.entries
    }

    /// The record stored under `title`, if any.
    pub fn get(&self, title: &str) -> (r: Option<&Bookmark>)
        ensures
            match r {
                Some(b) => spec_lookup(self@, title@) == Some(b@),
                None => spec_lookup(self@, title@) is None,
            },
    {
        let ghost s = self@;
        let mut i: usize = 0;
        while i < self.entries.len()
            invariant
                i <= self.entries.len(),
                s == self@,
                forall|j: int| 0 <= j < i ==> (#[trigger] s[j]).0 != title@,
            decreases self.entries.len() - i,
        {
            if key_cmp(self.entries[i].0.as_str(), title) == 0 {
                proof {
                    lemma_lookup_peel(s, title@, i as int);
                    assert(s.skip(i as int)[0] == s[i as int]);
                }
                return Some(&self.entries[i].1);
            }
            i += 1;
        }
        proof {
            lemma_lookup_peel(s, title@, s.len() as int);
            assert(s.skip(s.len() as int) =~= Seq::<(Seq<char>, BookmarkV)>::empty());
        }
        None
    }

    /// Upsert: store `record` under `title`, overwriting in place any
    /// record already there. A record whose URL is not a valid absolute
    /// URL is rejected before it reaches the table.
    pub fn put(&mut self, title: &str, record: Bookmark) -> (r: Result<(), ValidationError>)
        requires
            old(self).wf(),
            record.timestamp.valid(),
        ensures
            final(self).wf(),
            url_ok(record@.url) ==> r is Ok && final(self)@ == spec_insert(
                old(self)@,
                title@,
                record@,
            ),
            !url_ok(record@.url) ==> r == Err::<(), ValidationError>(ValidationError::InvalidUrl)
                && final(self)@ == old(self)@,
    {
        if parse_url(record.url.as_str()).is_none() {
            return Err(ValidationError::InvalidUrl);
        }
        let ghost s = self@;
        let ghost k = title@;
        let ghost bv = record@;
        let mut p: usize = 0;
        loop
            invariant
                p <= self.entries.len(),
                s == self@,
                k == title@,
                forall|j: int| 0 <= j < p ==> key_lt((#[trigger] s[j]).0, k),
            ensures
                p <= s.len(),
                forall|j: int| 0 <= j < p ==> key_lt((#[trigger] s[j]).0, k),
                p < s.len() ==> !key_lt(s[p as int].0, k),
            decreases self.entries.len() - p,
        {
            if p >= self.entries.len() {
                break;
            }
            let c = key_cmp(self.entries[p].0.as_str(), title);
            assert(s[p as int] == (self.entries@[p as int].0@, self.entries@[p as int].1@));
            if c != -1 {
                break;
            }
            p += 1;
        }
        proof {
            lemma_insert_peel(s, k, bv, p as int);
            assert(bookmark_valid(bv));
            if p < s.len() {
                assert(s[p as int] == (self.entries@[p as int].0@, self.entries@[p as int].1@));
                assert(s.skip(p as int)[0] == s[p as int]);
            }
        }
        let owned_title = String::from_str(title);
        if p < self.entries.len() && key_cmp(self.entries[p].0.as_str(), title) == 0 {
            assert(s[p as int].0 == k);
            proof {
                lemma_key_lt_irrefl(k);
            }
            assert(spec_insert(s.skip(p as int), k, bv) =~= seq![(k, bv)] + s.skip(p as int
            ).drop_first());
            self.entries.set(p, (owned_title, record));
            assert(self@ =~= s.subrange(0, p as int) + (seq![(k, bv)] + s.skip(p as int
            ).drop_first()));
            assert(self@ =~= s.update(p as int, (k, bv)));
            proof {
                lemma_wf_replace(s, k, bv, p as int);
            }
        } else {
            proof {
                if p < s.len() {
                    assert(s[p as int].0 != k);
                    lemma_key_lt_total(k, s[p as int].0);
                    assert(key_lt(k, s[p as int].0));
                }
            }
            assert(spec_insert(s.skip(p as int), k, bv) =~= seq![(k, bv)] + s.skip(p as int));
            self.entries.insert(p, (owned_title, record));
            assert(self@ =~= s.subrange(0, p as int) + (seq![(k, bv)] + s.skip(p as int)));
            proof {
                lemma_wf_inserted(s, k, bv, p as int);
            }
        }
        Ok(())
    }

    /// Delete the entry under `title`; `false` (not an error) if absent.
    pub fn remove(&mut self, title: &str) -> (r: bool)
        requires
            old(self).wf(),
        ensures
            final(self).wf(),
            final(self)@ == spec_remove(old(self)@, title@),
            r == (spec_lookup(old(self)@, title@) is Some),
    {
        let ghost s = self@;
        let ghost k = title@;
        let mut i: usize = 0;
        while i < self.entries.len()
            invariant
                i <= self.entries.len(),
                s == self@,
                s == old(self)@,
                k == title@,
                table_wf(s),
                forall|j: int| 0 <= j < i ==> (#[trigger] s[j]).0 != k,
            decreases self.entries.len() - i,
        {
            assert(s[i as int] == (self.entries@[i as int].0@, self.entries@[i as int].1@));
            if key_cmp(self.entries[i].0.as_str(), title) == 0 {
                proof {
                    lemma_lookup_peel(s, k, i as int);
                    lemma_remove_peel(s, k, i as int);
                    assert(s.skip(i as int)[0] == s[i as int]);
                }
                assert(s[i as int].0 == k);
                self.entries.remove(i);
                assert(self@ =~= s.subrange(0, i as int) + s.skip(i as int).drop_first());
                assert(s.skip(i as int).len() > 0);
                assert(spec_remove(s.skip(i as int), k) == s.skip(i as int).drop_first());
                assert(self@ =~= spec_remove(s, k));
                proof {
                    lemma_wf_removed(s, k, i as int);
                }
                return true;
            }
            i += 1;
        }
        proof {
            lemma_lookup_peel(s, k, s.len() as int);
            lemma_remove_peel(s, k, s.len() as int);
            assert(s.skip(s.len() as int) =~= Seq::<(Seq<char>, BookmarkV)>::empty());
            assert(spec_remove(s, k) =~= s);
        }
        false
    }
}

/// Replacing the record at an existing title keeps the table well formed.
proof fn lemma_wf_replace(s: Seq<(Seq<char>, BookmarkV)>, k: Seq<char>, b: BookmarkV, p: int)
    requires
        table_wf(s),
        bookmark_valid(b),
        0 <= p < s.len(),
        s[p].0 == k,
    ensures
        table_wf(s.update(p, (k, b))),
{
    let t = s.update(p, (k, b));
    assert forall|i: int, j: int| 0 <= i < j < t.len() implies key_lt(
        (#[trigger] t[i]).0,
        (#[trigger] t[j]).0,
    ) by {
        assert(t[i].0 == s[i].0 && t[j].0 == s[j].0);
    }
}

/// Inserting a fresh title at its sorted position keeps the table well
/// formed.
proof fn lemma_wf_inserted(s: Seq<(Seq<char>, BookmarkV)>, k: Seq<char>, b: BookmarkV, p: int)
    requires
        table_wf(s),
        bookmark_valid(b),
        0 <= p <= s.len(),
        forall|i: int| 0 <= i < p ==> key_lt((#[trigger] s[i]).0, k),
        p < s.len() ==> key_lt(k, s[p].0),
    ensures
        table_wf(s.subrange(0, p) + (seq![(k, b)] + s.skip(p))),
{
    let t = s.subrange(0, p) + (seq![(k, b)] + s.skip(p));
    assert(t.len() == s.len() + 1);
    assert forall|i: int, j: int| 0 <= i < j < t.len() implies key_lt(
        (#[trigger] t[i]).0,
        (#[trigger] t[j]).0,
    ) by {
        if i < p {
            assert(t[i] == s[i]);
        } else if i == p {
            assert(t[i] == (k, b));
        } else {
            assert(t[i] == s[i - 1]);
        }
        if j < p {
            assert(t[j] == s[j]);
        } else if j == p {
            assert(t[j] == (k, b));
        } else {
            assert(t[j] == s[j - 1]);
        }
        if i < p && j == p {
            assert(key_lt(t[i].0, k));
        } else if i == p && j > p {
            if j - 1 == p {
                assert(key_lt(k, s[p].0));
            } else {
                lemma_key_lt_trans(k, s[p].0, s[j - 1].0);
            }
        }
    }
    assert forall|i: int| 0 <= i < t.len() implies bookmark_valid((#[trigger] t[i]).1) by {
        if i < p {
            assert(t[i] == s[i]);
        } else if i == p {
            assert(t[i] == (k, b));
        } else {
            assert(t[i] == s[i - 1]);
        }
    }
}

/// Deleting an entry keeps the table well formed.
proof fn lemma_wf_removed(s: Seq<(Seq<char>, BookmarkV)>, k: Seq<char>, p: int)
    requires
        table_wf(s),
        0 <= p < s.len(),
    ensures
        table_wf(s.subrange(0, p) + s.skip(p).drop_first()),
{
    let t = s.subrange(0, p) + s.skip(p).drop_first();
    assert(t.len() == s.len() - 1);
    assert forall|i: int, j: int| 0 <= i < j < t.len() implies key_lt(
        (#[trigger] t[i]).0,
        (#[trigger] t[j]).0,
    ) by {
        let i2 = if i < p { i } else { i + 1 };
        let j2 = if j < p { j } else { j + 1 };
        assert(t[i] == s[i2]);
        assert(t[j] == s[j2]);
    }
    assert forall|i: int| 0 <= i < t.len() implies bookmark_valid((#[trigger] t[i]).1) by {
        let i2 = if i < p { i } else { i + 1 };
        assert(t[i] == s[i2]);
    }
}

} // verus!
