//! The closed error taxonomy shared by the filter, the index and the jar.

use vstd::prelude::*;

verus! {

/// Everything that can go wrong while building, opening or querying a jar.
#[derive(Debug, Clone, Copy, PartialEq, Eq, Structural)]
pub enum NippyJarError {
    /// The operation is not available under the active filter configuration.
    UnsupportedFilterQuery,
    /// The filter could not place a fingerprint within its relocation budget.
    FilterMaxCapacity,
    /// Two rows were given the same key while a perfect hash was requested.
    DuplicateKey,
    /// A row did not carry exactly one value per column.
    ColumnCountMismatch,
    /// The jar cannot take another row or byte without exceeding its limits.
    TooLarge,
    /// A serialized artifact failed its integrity or consistency check.
    Corruption,
    /// The key is not stored in the jar.
    NotFound,
}

impl NippyJarError {
    /// A short, stable, human-readable description of the error.
    pub fn message(&self) -> (s: &'static str)
        ensures
            s@ == self.message_spec(),
    {
        match self {
            NippyJarError::UnsupportedFilterQuery => "filter query is not supported",
            NippyJarError::FilterMaxCapacity => "filter has reached its maximum capacity",
            NippyJarError::DuplicateKey => "duplicate key",
            NippyJarError::ColumnCountMismatch => "row does not match the column count",
            NippyJarError::TooLarge => "jar size limit exceeded",
            NippyJarError::Corruption => "artifact is corrupted",
            NippyJarError::NotFound => "key not found",
        }
    }

    /// The text that [`NippyJarError::message`] returns.
    pub open spec fn message_spec(&self) -> Seq<char> {
        match self {
            NippyJarError::UnsupportedFilterQuery => "filter query is not supported"@,
            NippyJarError::FilterMaxCapacity => "filter has reached its maximum capacity"@,
            NippyJarError::DuplicateKey => "duplicate key"@,
            NippyJarError::ColumnCountMismatch => "row does not match the column count"@,
            NippyJarError::TooLarge => "jar size limit exceeded"@,
            NippyJarError::Corruption => "artifact is corrupted"@,
            NippyJarError::NotFound => "key not found"@,
        }
    }
}

} // verus!
