//! The ways in which the store can refuse an operation.
use vstd::prelude::*;

verus! {

/// Why an operation on the store failed.
#[derive(Clone, Copy, Debug, PartialEq, Eq, Structural)]
pub enum StoreError {
    /// The manifest is absent and may not be created, or a file that the
    /// manifest names is missing.
    NotFound,
    /// The manifest could not be read as a manifest.
    CorruptManifest,
    /// A record is malformed: truncated, of an unknown type, of the wrong
    /// payload width, or not UTF-8 where text is expected.
    CorruptRecord,
    /// A sparse index is empty or ends in the middle of an entry.
    CorruptIndex,
    /// An index entry points at a record with another key.
    CorruptTable,
    /// The manifest was written by another version of the engine.
    VersionMismatch,
    /// A lookup was attempted in a table whose index has no entry at all.
    InvariantViolation,
}

impl StoreError {
    /// The words that `describe` gives for each error.
    pub open spec fn description(self) -> Seq<char> {
        match self {
            StoreError::NotFound => "not found"@,
            StoreError::CorruptManifest => "corrupt manifest"@,
            StoreError::CorruptRecord => "corrupt record"@,
            StoreError::CorruptIndex => "corrupt index"@,
            StoreError::CorruptTable => "corrupt table"@,
            StoreError::VersionMismatch => "version mismatch"@,
            StoreError::InvariantViolation => "invariant violation"@,
        }
    }

    /// A short description for messages and logs.
    pub fn describe(&self) -> (r: &'static str)
        ensures
            r@ == self.description(),
    {
        match self {
            StoreError::NotFound => "not found",
            StoreError::CorruptManifest => "corrupt manifest",
            StoreError::CorruptRecord => "corrupt record",
            StoreError::CorruptIndex => "corrupt index",
            StoreError::CorruptTable => "corrupt table",
            StoreError::VersionMismatch => "version mismatch",
            StoreError::InvariantViolation => "invariant violation",
        }
    }
}

} // verus!
