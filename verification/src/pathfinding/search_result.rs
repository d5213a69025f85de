//! What a region search finds, and the order of its finds.

use vstd::prelude::*;
use vstd::std_specs::cmp::PartialOrdSpecImpl;
use core::cmp::Ordering;
use crate::sector::SectorId;

verus! {

/// A sector that a region search found, and how many hops away it lies.
#[derive(Clone, Copy, Debug, PartialEq, Eq, Structural, Ord)]
pub struct SearchResult {
    pub distance: u8,
    pub sector: SectorId,
}

/// The order of results: the nearer first; of two that are equally far, the
/// one with the smaller sector.
pub open spec fn ranks_before(a: SearchResult, b: SearchResult) -> bool {
    a.distance < b.distance || (a.distance == b.distance && a.sector < b.sector)
}

/// `ranks_before` is a strict total order.
pub proof fn lemma_ranks_before_is_total_order(a: SearchResult, b: SearchResult, c: SearchResult)
    ensures
        !ranks_before(a, a),
        ranks_before(a, b) ==> !ranks_before(b, a),
        ranks_before(a, b) && ranks_before(b, c) ==> ranks_before(a, c),
        a == b || ranks_before(a, b) || ranks_before(b, a),
{
}

impl PartialOrd for SearchResult {
    fn partial_cmp(&self, other: &Self) -> (order: Option<Ordering>) {
        if self.distance < other.distance {
            Some(Ordering::Less)
        } else if self.distance > other.distance {
            Some(Ordering::Greater)
        } else if self.sector < other.sector {
            Some(Ordering::Less)
        } else if self.sector > other.sector {
            Some(Ordering::Greater)
        } else {
            Some(Ordering::Equal)
        }
    }
}

impl PartialOrdSpecImpl for SearchResult {
    open spec fn obeys_partial_cmp_spec() -> bool {
        true
    }

    open spec fn partial_cmp_spec(&self, other: &Self) -> Option<Ordering> {
        if ranks_before(*self, *other) {
            Some(Ordering::Less)
        } else if ranks_before(*other, *self) {
            Some(Ordering::Greater)
        } else {
            Some(Ordering::Equal)
        }
    }
}

} // verus!
