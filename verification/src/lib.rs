//! A file-backed store for named bookmark records.
//!
//! The crate is the versioned persistence engine of a small bookmark
//! manager: it resolves the database location from configuration input,
//! probes a serialized document for its schema version, decides whether a
//! stored document can be opened by this release, and serializes and
//! deserializes the document to the on-disk text format.

use vstd::prelude::*;

pub mod bm;
pub mod chars;
pub mod codec;
pub mod errors;
pub mod filter;
pub mod schema;
pub mod table;
pub mod urlinfo;

verus! {

/// Schema version written by this release of the software.
pub const SCHEMA_VERSION: i8 = 0;

} // verus!
