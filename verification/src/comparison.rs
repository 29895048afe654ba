//! The comparison operators of paths and of their parts.

use crate::json_crawl::{JsonPath, JsonPathPart};
use crate::order::Rank;
use crate::path_order::{path_rank, rank_parts, rank_paths, step_rank};
use std::cmp::Ordering;
use vstd::prelude::*;
use vstd::std_specs::cmp::{PartialEqSpecImpl, PartialOrdSpecImpl};

verus! {

/// The answer of a comparison that says what `rank` says.
pub open spec fn ordering_of(rank: Rank) -> Ordering {
    match rank {
        Rank::Before => Ordering::Less,
        Rank::Same => Ordering::Equal,
        Rank::After => Ordering::Greater,
    }
}

/// The answer of a comparison that says what `rank` says.
pub fn to_ordering(rank: Rank) -> (answer: Ordering)
    ensures
        answer == ordering_of(rank),
{
    match rank {
        Rank::Before => Ordering::Less,
        Rank::Same => Ordering::Equal,
        Rank::After => Ordering::Greater,
    }
}

impl PartialEq for JsonPathPart {
    fn eq(&self, other: &Self) -> (equal: bool) {
        match self {
            JsonPathPart::Field(a) => match other {
                JsonPathPart::Field(b) => *a == *b,
                JsonPathPart::Index(_) => false,
            },
            JsonPathPart::Index(a) => match other {
                JsonPathPart::Field(_) => false,
                JsonPathPart::Index(b) => *a == *b,
            },
        }
    }
}

impl PartialEqSpecImpl for JsonPathPart {
    open spec fn obeys_eq_spec() -> bool {
        true
    }

    open spec fn eq_spec(&self, other: &Self) -> bool {
        self@ == other@
    }
}

impl PartialOrd for JsonPathPart {
    fn partial_cmp(&self, other: &Self) -> (answer: Option<Ordering>) {
        Some(to_ordering(rank_parts(self, other)))
    }
}

impl PartialOrdSpecImpl for JsonPathPart {
    open spec fn obeys_partial_cmp_spec() -> bool {
        true
    }

    open spec fn partial_cmp_spec(&self, other: &Self) -> Option<Ordering> {
        Some(ordering_of(step_rank(self@, other@)))
    }
}

impl PartialEq for JsonPath {
    fn eq(&self, other: &Self) -> (equal: bool) {
        rank_paths(self, other) == Rank::Same
    }
}

impl PartialEqSpecImpl for JsonPath {
    open spec fn obeys_eq_spec() -> bool {
        true
    }

    open spec fn eq_spec(&self, other: &Self) -> bool {
        self@ == other@
    }
}

impl PartialOrd for JsonPath {
    fn partial_cmp(&self, other: &Self) -> (answer: Option<Ordering>) {
        Some(to_ordering(rank_paths(self, other)))
    }
}

impl PartialOrdSpecImpl for JsonPath {
    open spec fn obeys_partial_cmp_spec() -> bool {
        true
    }

    open spec fn partial_cmp_spec(&self, other: &Self) -> Option<Ordering> {
        Some(ordering_of(path_rank(self@, other@)))
    }
}

} // verus!
