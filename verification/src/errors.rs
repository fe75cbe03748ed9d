//! Error taxonomy of the persistence engine.
//!
//! Every failure path of the engine returns one of these typed errors;
//! nothing is logged-and-swallowed.

use vstd::prelude::*;
use vstd::string::*;

verus! {

/// No usable base directory could be derived from the configuration input.
#[derive(Debug, PartialEq, Eq, Clone, Copy)]
pub enum ConfigError {
    /// Neither the XDG data-home variable nor the home fallback was usable.
    MissingBaseDirs,
}

impl ConfigError {
    /// A user-facing description naming the missing variables and the
    /// suggested remedy.
    pub fn message(&self) -> (r: String)
        ensures
            r@ == "Neither XDG_DATA_HOME nor HOME is set; cannot locate the bookmarks database. Consider setting XDG_DATA_HOME"@,
    {
        String::from_str(
            "Neither XDG_DATA_HOME nor HOME is set; cannot locate the bookmarks database. Consider setting XDG_DATA_HOME",
        )
    }
}

/// The bytes handed to the schema probe are not a recognizable versioned
/// document of any version.
#[derive(Debug, PartialEq, Eq, Clone, Copy)]
pub enum ProbeError {
    Malformed,
}

/// Failure to open a store from a document.
#[derive(Debug, PartialEq, Eq, Clone)]
pub enum LoadError {
    /// Filesystem access failed for a reason other than absence; the
    /// underlying cause is surfaced verbatim by the caller that did the
    /// read.
    Io { detail: String },
    /// The bytes are present but are not a valid document of any known
    /// version, or the full parse failed.
    Corrupt,
    /// The document was written by a newer release; loading it with this
    /// release risks silent data loss. `by` is the magnitude of the gap.
    SchemaNewer { by: i16 },
}

/// Failure to persist a document.
#[derive(Debug, PartialEq, Eq, Clone)]
pub enum SaveError {
    /// Writing or renaming failed; the atomic temp-file-then-rename
    /// discipline guarantees the live file was left untouched.
    Io { detail: String },
}

/// A record was rejected before it reached the in-memory table.
#[derive(Debug, PartialEq, Eq, Clone, Copy)]
pub enum ValidationError {
    /// The URL is not a syntactically valid absolute URL.
    InvalidUrl,
}

} // verus!
