//! URL validation and inspection, through the `url` crate.
//!
//! A bookmark's URL must be a syntactically valid absolute URL; the
//! engine also needs the URL's host and scheme for the counting filters.
//! What the parser accepts and how it normalizes host and scheme take
//! pages to state, so the results are given names: `url_ok`, `url_host`
//! and `url_scheme` stand for what `url::Url::parse` (and the accessors
//! on its result) return for a given input string.

use vstd::prelude::*;

verus! {

/// Whether `url::Url::parse` accepts the string as an absolute URL.
pub uninterp spec fn url_ok(s: Seq<char>) -> bool;

/// The host of the parsed URL (`url::Url::host_str`), if it has one,
/// after the parser's normalization.
pub uninterp spec fn url_host(s: Seq<char>) -> Option<Seq<char>>;

/// The scheme of the parsed URL (`url::Url::scheme`), lower-cased,
/// without the ':' delimiter.
pub uninterp spec fn url_scheme(s: Seq<char>) -> Seq<char>;

/// The host and scheme of a parsed absolute URL, as plain strings.
pub struct UrlParts {
    pub host: Option<String>,
    pub scheme: String,
}

/// Relies on `url::Url::parse`, which succeeds exactly on syntactically
/// valid absolute URLs and fails with a `ParseError` otherwise, and on
/// the accessors `url::Url::host_str` and `url::Url::scheme` of the
/// parsed value. All three depend on the input string alone.
#[verifier::external_body]
pub fn parse_url(s: &str) -> (r: Option<UrlParts>)
    ensures
        r is Some <==> url_ok(s@),
        r matches Some(p) ==> match p.host {
            Some(h) => url_host(s@) == Some(h@),
            None => url_host(s@) is None,
        },
        r matches Some(p) ==> p.scheme@ == url_scheme(s@),
{
    match url::Url::parse(s) {
        Ok(u) => Some(UrlParts {
            host: u.host_str().map(|h| h.to_string()),
            scheme: u.scheme().to_string(),
        }),
        Err(_) => None,
    }
}

} // verus!
