//! Version policy: comparing a stored schema version against the version
//! this release expects.
//!
//! The stored tag always reflects the shape the payload was written in,
//! never the shape the reader expects; the policy decides whether a full
//! structural parse may proceed.

use vstd::prelude::*;

verus! {

use crate::SCHEMA_VERSION;

/// Outcome of comparing a stored schema version against the expected one.
/// `by` is the absolute difference: always positive in the `Newer` and
/// `Older` cases.
#[derive(Clone, Copy, Debug, PartialEq, Eq, Structural)]
pub enum SchemaVersion {
    Same,
    Newer { by: i16 },
    Older { by: i16 },
}

/// Pure comparison of a stored version against an expected version.
pub open spec fn spec_compare(stored: int, expected: int) -> SchemaVersion {
    if stored == expected {
        SchemaVersion::Same
    } else if stored > expected {
        SchemaVersion::Newer { by: (stored - expected) as i16 }
    } else {
        SchemaVersion::Older { by: (expected - stored) as i16 }
    }
}

/// Compare the version a document was written under against the version
/// the running software expects.
pub fn compare(stored: i8, expected: i8) -> (r: SchemaVersion)
    ensures
        r == spec_compare(stored as int, expected as int),
{
    let diff: i16 = (stored as i16) - (expected as i16);
    if diff == 0 {
        SchemaVersion::Same
    } else if diff > 0 {
        SchemaVersion::Newer { by: diff }
    } else {
        SchemaVersion::Older { by: -diff }
    }
}

/// The version policy over all versions: comparing a version with itself
/// yields `Same`; a version ahead of the expected one by `k > 0` yields
/// `Newer { by: k }`; one behind by `k > 0` yields `Older { by: k }`.
pub proof fn lemma_version_policy(v: int, k: int)
    requires
        0 < k <= 0x7fff,
    ensures
        spec_compare(v, v) == SchemaVersion::Same,
        spec_compare(v + k, v) == (SchemaVersion::Newer { by: k as i16 }),
        spec_compare(v - k, v) == (SchemaVersion::Older { by: k as i16 }),
{
}

/// Anything that carries a schema version tag and can be checked against
/// the running software's expected version.
pub trait SchemaValidation {
    /// The version tag this value carries.
    spec fn spec_schema_version(&self) -> i8;

    fn get_schema_version(&self) -> (v: i8)
        ensures
            v == self.spec_schema_version(),
    ;

    /// Check the carried tag against `SCHEMA_VERSION`.
    fn check_schema(&self) -> (r: SchemaVersion)
        ensures
            r == spec_compare(self.spec_schema_version() as int, SCHEMA_VERSION as int),
    {
        compare(self.get_schema_version(), SCHEMA_VERSION)
    }
}

/// The reduced document shape used by the schema probe: only the version
/// tag, with no knowledge of the payload's structure.
#[derive(Clone, Copy, Debug, PartialEq, Eq, Structural)]
pub struct MinimalSchema {
    pub schema_version: i8,
}

impl SchemaValidation for MinimalSchema {
    open spec fn spec_schema_version(&self) -> i8 {
        self.schema_version
    }

    fn get_schema_version(&self) -> (v: i8) {
        self.schema_version
    }
}

} // verus!
