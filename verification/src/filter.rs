//! The membership filter abstraction and the closed set of filters that a
//! jar can carry.

use vstd::prelude::*;
use crate::bytes::byte_rows;
use crate::cuckoo::{lemma_cuckoo_roundtrip, Cuckoo, CuckooState};
use crate::error::NippyJarError;

verus! {

/// Membership filter set trait.
///
/// `may_contain` is what the filter answers for an element. Adding never
/// takes an answer back: whatever was reported present stays so, and an
/// element whose `add` succeeded is reported present from then on.
pub trait InclusionFilter {
    /// The filter's invariant.
    spec fn valid(&self) -> bool;

    /// What `contains` answers for the element.
    spec fn may_contain(&self, element: Seq<u8>) -> bool;

    /// Add element to the inclusion list.
    fn add(&mut self, element: &[u8]) -> (r: Result<(), NippyJarError>)
        requires
            old(self).valid(),
        ensures
            final(self).valid(),
            r is Ok ==> final(self).may_contain(element@),
            forall|e: Seq<u8>| old(self).may_contain(e) ==> final(self).may_contain(e),
    ;

    /// Checks if the element belongs to the inclusion list. **There might be
    /// false positives.**
    fn contains(&self, element: &[u8]) -> (r: Result<bool, NippyJarError>)
        requires
            self.valid(),
        ensures
            r matches Ok(b) ==> b == self.may_contain(element@),
    ;
}

/// The model of a jar's filter: a cuckoo filter, or none.
pub enum FilterState {
    Cuckoo(CuckooState),
    Unused,
}

/// Enum with different [`InclusionFilter`] types.
#[derive(Debug)]
pub enum InclusionFilters {
    /// A cuckoo filter.
    Cuckoo(Cuckoo),
    /// The jar was made without filters; every query is unsupported.
    Unused,
}

impl View for InclusionFilters {
    type V = FilterState;

    open spec fn view(&self) -> FilterState {
        match self {
            InclusionFilters::Cuckoo(c) => FilterState::Cuckoo(c@),
            InclusionFilters::Unused => FilterState::Unused,
        }
    }
}

impl FilterState {
    /// What adding an element does to the filter and returns: a cuckoo
    /// filter inserts and stays as it was when it is full; without a filter
    /// the call is unsupported.
    pub open spec fn add(self, element: Seq<u8>) -> (FilterState, Result<(), NippyJarError>) {
        match self {
            FilterState::Cuckoo(st) => match st.insert(element) {
                Some(after) => (FilterState::Cuckoo(after), Ok(())),
                None => (self, Err(NippyJarError::FilterMaxCapacity)),
            },
            FilterState::Unused => (self, Err(NippyJarError::UnsupportedFilterQuery)),
        }
    }

    /// What asking for an element returns.
    pub open spec fn contains(self, element: Seq<u8>) -> Result<bool, NippyJarError> {
        match self {
            FilterState::Cuckoo(st) => Ok(st.may_contain(element)),
            FilterState::Unused => Err(NippyJarError::UnsupportedFilterQuery),
        }
    }
}

impl InclusionFilter for InclusionFilters {
    open spec fn valid(&self) -> bool {
        match self {
            InclusionFilters::Cuckoo(c) => c.wf(),
            InclusionFilters::Unused => true,
        }
    }

    open spec fn may_contain(&self, element: Seq<u8>) -> bool {
        match self {
            InclusionFilters::Cuckoo(c) => c.may_contain(element),
            InclusionFilters::Unused => false,
        }
    }

    fn add(&mut self, element: &[u8]) -> (r: Result<(), NippyJarError>)
        ensures
            final(self)@ == old(self)@.add(element@).0,
            r == old(self)@.add(element@).1,
    {
        match self {
            InclusionFilters::Cuckoo(c) => c.add(element),
            InclusionFilters::Unused => Err(NippyJarError::UnsupportedFilterQuery),
        }
    }

    fn contains(&self, element: &[u8]) -> (r: Result<bool, NippyJarError>)
        ensures
            r == self@.contains(element@),
    {
        match self {
            InclusionFilters::Cuckoo(c) => c.contains(element),
            InclusionFilters::Unused => Err(NippyJarError::UnsupportedFilterQuery),
        }
    }
}

impl FilterState {
    /// The filter's invariant.
    pub open spec fn wf(self) -> bool {
        match self {
            FilterState::Cuckoo(st) => st.wf(),
            FilterState::Unused => true,
        }
    }

    /// What the filter answers for an element; without a filter, nothing
    /// is reported present.
    pub open spec fn may_contain(self, element: Seq<u8>) -> bool {
        match self {
            FilterState::Cuckoo(st) => st.may_contain(element),
            FilterState::Unused => false,
        }
    }

    /// The filter as sections of an artifact: none without a filter.
    pub open spec fn sections(self) -> Seq<Seq<u8>> {
        match self {
            FilterState::Cuckoo(st) => st.sections(),
            FilterState::Unused => Seq::empty(),
        }
    }

    /// The filter that sections of an artifact hold, if they hold a well
    /// formed one.
    pub open spec fn decoded(sections: Seq<Seq<u8>>) -> Option<FilterState> {
        if sections.len() == 0 {
            Some(FilterState::Unused)
        } else {
            match CuckooState::decoded(sections) {
                Some(st) => Some(FilterState::Cuckoo(st)),
                None => None,
            }
        }
    }
}

/// Round trip of a jar's filter: its sections hold the filter itself.
pub proof fn lemma_filter_roundtrip(st: FilterState)
    requires
        st.wf(),
    ensures
        FilterState::decoded(st.sections()) == Some(st),
{
    match st {
        FilterState::Cuckoo(c) => {
            lemma_cuckoo_roundtrip(c);
        },
        FilterState::Unused => {},
    }
}

impl InclusionFilters {
    /// The filter as sections of an artifact.
    pub fn to_sections(&self) -> (out: Vec<Vec<u8>>)
        ensures
            byte_rows(out@) == self@.sections(),
    {
        match self {
            InclusionFilters::Cuckoo(c) => c.to_sections(),
            InclusionFilters::Unused => {
                let out: Vec<Vec<u8>> = Vec::new();
                proof {
                    assert(byte_rows(out@) =~= Seq::<Seq<u8>>::empty());
                }
                out
            },
        }
    }

    /// The filter that sections of an artifact hold, if they hold a well
    /// formed one.
    pub fn from_sections(sections: &Vec<Vec<u8>>) -> (r: Option<InclusionFilters>)
        ensures
            match FilterState::decoded(byte_rows(sections@)) {
                Some(st) => r matches Some(f) && f@ == st && f.valid(),
                None => r is None,
            },
    {
        if sections.len() == 0 {
            return Some(InclusionFilters::Unused);
        }
        match Cuckoo::from_sections(sections) {
            Some(c) => Some(InclusionFilters::Cuckoo(c)),
            None => None,
        }
    }
}

} // verus!
