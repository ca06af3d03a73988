//! The filter configuration that is chosen when a jar is created and stays
//! fixed for its lifetime.

use vstd::prelude::*;

verus! {

/// Snapshot filters.
#[derive(Debug, Clone, Copy, PartialEq, Eq, Structural)]
pub enum Filters {
    /// The jar carries an inclusion filter and a perfect hashing function.
    WithFilters(InclusionFilter, PerfectHashingFunction),
    /// The jar carries neither.
    WithoutFilters,
}

/// The kind of inclusion filter. Also see [`Filters`].
#[derive(Debug, Clone, Copy, PartialEq, Eq, Structural)]
pub enum InclusionFilter {
    /// Cuckoo filter.
    Cuckoo,
}

/// The kind of perfect hashing function. Also see [`Filters`].
#[derive(Debug, Clone, Copy, PartialEq, Eq, Structural)]
pub enum PerfectHashingFunction {
    /// Fingerprint-based minimal perfect hash function.
    Fmph,
    /// Fingerprint-based minimal perfect hash function with group optimization.
    GoFmph,
}

impl Filters {
    /// Returns `true` if the snapshot uses filters.
    pub fn has_filters(&self) -> (b: bool)
        ensures
            b == (*self is WithFilters),
    {
        match self {
            Filters::WithFilters(_, _) => true,
            Filters::WithoutFilters => false,
        }
    }
}

} // verus!
