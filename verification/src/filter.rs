//! Counting bookmarks under a predicate: all of them, a
//! case-insensitive substring of title or URL, a URL host, or a URL
//! scheme.

use vstd::prelude::*;

verus! {

use crate::chars::str_to_chars;
use crate::table::{BookmarkTable, BookmarkV, bookmark_valid};
use crate::urlinfo::{url_host, url_scheme, parse_url};

/// ASCII lower-casing of one character.
pub open spec fn lower_char(c: char) -> char {
    if 65 <= c as u32 <= 90 {
        ((c as u32 + 32) as u8) as char
    } else {
        c
    }
}

/// ASCII lower-casing of a sequence.
pub open spec fn lower(s: Seq<char>) -> Seq<char> {
    s.map_values(|c: char| lower_char(c))
}

/// `nee` occurs in `hay` starting at `i`.
pub open spec fn match_at(hay: Seq<char>, nee: Seq<char>, i: int) -> bool {
    forall|j: int| 0 <= j < nee.len() ==> hay[i + j] == #[trigger] nee[j]
}

/// `nee` occurs somewhere in `hay`.
pub open spec fn is_substring(hay: Seq<char>, nee: Seq<char>) -> bool {
    exists|i: int| 0 <= i <= hay.len() - nee.len() && match_at(hay, nee, i)
}

/// `nee` occurs in `hay`, ASCII case-insensitively.
pub open spec fn contains_ci(hay: Seq<char>, nee: Seq<char>) -> bool {
    is_substring(lower(hay), lower(nee))
}

/// The predicate a count runs under.
#[derive(Debug, Clone)]
pub enum SimpleFilter {
    /// Do not filter.
    All,
    /// The title or URL contains the text, case-insensitively.
    Contains(String),
    /// The URL's host equals the domain.
    Domain(String),
    /// The URL's scheme equals the given scheme.
    Scheme(String),
}

/// Mathematical model of a filter.
pub enum FilterV {
    All,
    Contains(Seq<char>),
    Domain(Seq<char>),
    Scheme(Seq<char>),
}

impl View for SimpleFilter {
    type V = FilterV;

    open spec fn view(&self) -> FilterV {
        match self {
            SimpleFilter::All => FilterV::All,
            SimpleFilter::Contains(t) => FilterV::Contains(t@),
            SimpleFilter::Domain(d) => FilterV::Domain(d@),
            SimpleFilter::Scheme(sc) => FilterV::Scheme(sc@),
        }
    }
}

/// Whether one entry passes the filter.
pub open spec fn filter_matches(f: FilterV, k: Seq<char>, b: BookmarkV) -> bool {
    match f {
        FilterV::All => true,
        FilterV::Contains(t) => contains_ci(k, t) || contains_ci(b.url, t),
        FilterV::Domain(d) => url_host(b.url) == Some(d),
        FilterV::Scheme(sc) => url_scheme(b.url) == sc,
    }
}

/// How many entries pass the filter.
pub open spec fn spec_count(s: Seq<(Seq<char>, BookmarkV)>, f: FilterV) -> int
    decreases s.len(),
{
    if s.len() == 0 {
        0
    } else {
        (if filter_matches(f, s[0].0, s[0].1) {
            1int
        } else {
            0int
        }) + spec_count(s.drop_first(), f)
    }
}

/// The all-filter counts every entry: `count` with it equals the length
/// of `list()`.
pub proof fn lemma_count_all(s: Seq<(Seq<char>, BookmarkV)>)
    ensures
        spec_count(s, FilterV::All) == s.len(),
    decreases s.len(),
{
    if s.len() > 0 {
        lemma_count_all(s.drop_first());
    }
}

/// Counting never exceeds the number of entries.
pub proof fn lemma_count_le_len(s: Seq<(Seq<char>, BookmarkV)>, f: FilterV)
    ensures
        0 <= spec_count(s, f) <= s.len(),
    decreases s.len(),
{
    if s.len() > 0 {
        lemma_count_le_len(s.drop_first(), f);
    }
}

/// ASCII lower-casing of one character.
fn lower_char_exec(c: char) -> (r: char)
    ensures
        r == lower_char(c),
{
    let u = c as u32;
    if 65 <= u && u <= 90 {
        ((u + 32) as u8) as char
    } else {
        c
    }
}

/// The lower-cased characters of a string.
fn lower_vec(s: &str) -> (r: Vec<char>)
    ensures
        r@ == lower(s@),
{
    let v = str_to_chars(s);
    let mut out: Vec<char> = Vec::new();
    let mut i: usize = 0;
    while i < v.len()
        invariant
            i <= v.len(),
            v@ == s@,
            out@ =~= lower(s@).subrange(0, i as int),
        decreases v.len() - i,
    {
        out.push(lower_char_exec(v[i]));
        assert(out@ =~= lower(s@).subrange(0, i as int + 1));
        i += 1;
    }
    assert(out@ =~= lower(s@));
    out
}

/// Whether `nee` occurs in `hay` at position `i`.
fn match_at_exec(hay: &Vec<char>, nee: &Vec<char>, i: usize) -> (r: bool)
    requires
        i + nee.len() <= hay.len(),
    ensures
        r == match_at(hay@, nee@, i as int),
{
    let mut j: usize = 0;
    while j < nee.len()
        invariant
            j <= nee.len(),
            i + nee.len() <= hay.len(),
            forall|t: int| 0 <= t < j ==> hay@[i + t] == #[trigger] nee@[t],
        decreases nee.len() - j,
    {
        if hay[i + j] != nee[j] {
            assert(!match_at(hay@, nee@, i as int));
            return false;
        }
        j += 1;
    }
    true
}

/// Whether `nee` occurs anywhere in `hay`.
fn is_substring_exec(hay: &Vec<char>, nee: &Vec<char>) -> (r: bool)
    ensures
        r == is_substring(hay@, nee@),
{
    if nee.len() > hay.len() {
        assert(!is_substring(hay@, nee@));
        return false;
    }
    let bound: usize = hay.len() - nee.len();
    let mut i: usize = 0;
    while i <= bound
        invariant
            i <= bound + 1,
            bound == hay.len() - nee.len(),
            nee.len() <= hay.len(),
            forall|t: int| 0 <= t < i ==> !match_at(hay@, nee@, t),
        decreases bound + 1 - i,
    {
        if match_at_exec(hay, nee, i) {
            assert(is_substring(hay@, nee@));
            return true;
        }
        i += 1;
    }
    assert(!is_substring(hay@, nee@));
    false
}

/// Whether `nee` occurs in `hay`, ASCII case-insensitively.
pub fn str_contains_ci(hay: &str, nee: &str) -> (r: bool)
    ensures
        r == contains_ci(hay@, nee@),
{
    let hv = lower_vec(hay);
    let nv = lower_vec(nee);
    is_substring_exec(&hv, &nv)
}

impl BookmarkTable {
    /// Count the records that pass the filter.
    pub fn count(&self, filter: &SimpleFilter) -> (n: usize)
        requires
            self.wf(),
        ensures
            n as int == spec_count(self@, filter@),
    {
        let ghost s = self@;
        let ghost fv = filter@;
        let mut n: usize = 0;
        let mut i: usize = 0;
        proof {
            assert(s.skip(0) =~= s);
            lemma_count_le_len(s, fv);
        }
        while i < self.entries.len()
            invariant
                i <= self.entries.len(),
                s == self@,
                fv == filter@,
                self.wf(),
                n <= i,
                n as int + spec_count(s.skip(i as int), fv) == spec_count(s, fv),
            decreases self.entries.len() - i,
        {
            assert(s[i as int] == (self.entries@[i as int].0@, self.entries@[i as int].1@));
            assert(s.skip(i as int)[0] == s[i as int]);
            assert(bookmark_valid(s[i as int].1));
            let hit: bool = match filter {
                SimpleFilter::All => true,
                SimpleFilter::Contains(t) => {
                    str_contains_ci(self.entries[i].0.as_str(), t.as_str()) || str_contains_ci(
                        self.entries[i].1.url.as_str(),
                        t.as_str(),
                    )
                },
                SimpleFilter::Domain(d) => {
                    match parse_url(self.entries[i].1.url.as_str()) {
                        Some(p) => match p.host {
                            Some(h) => h.eq(d),
                            None => false,
                        },
                        None => {
                            proof {
                                assert(false);
                            }
                            false
                        },
                    }
                },
                SimpleFilter::Scheme(sc) => {
                    match parse_url(self.entries[i].1.url.as_str()) {
                        Some(p) => p.scheme.eq(sc),
                        None => {
                            proof {
                                assert(false);
                            }
                            false
                        },
                    }
                },
            };
            assert(hit == filter_matches(fv, s[i as int].0, s[i as int].1));
            if hit {
                n += 1;
            }
            assert(s.skip(i as int).drop_first() =~= s.skip(i as int + 1));
            i += 1;
        }
        assert(s.skip(s.len() as int) =~= Seq::<(Seq<char>, BookmarkV)>::empty());
        n
    }
}

} // verus!
