//! The entries of the frontier of a route search, and their order.

use vstd::prelude::*;
use crate::sector::{GatePairInSector, PathElement, SectorId};

verus! {

/// What crossing a gate costs, on top of the way to it.
pub const GATE_COST: u128 = 200;

/// A path element that waits to be looked at, with the cost of reaching it.
#[derive(Clone, Copy, Debug, PartialEq, Eq, Structural)]
pub struct SearchNode {
    pub sector: SectorId,
    pub gate_pair: GatePairInSector,
    pub cost: u128,
}

/// What a `SearchNode` stands for: a path element and the cost of a route
/// that ends with it.
pub ghost struct Candidate {
    pub element: PathElement,
    pub cost: nat,
}

impl View for SearchNode {
    type V = Candidate;

    open spec fn view(&self) -> Candidate {
        Candidate {
            element: PathElement { exit_sector: self.sector, gate_pair: self.gate_pair },
            cost: self.cost as nat,
        }
    }
}

/// The order in which candidates are looked at: the cheaper first; of two
/// that cost the same, the one with the smaller sector; then the smaller
/// gate `from`; then the smaller gate `to`.
pub open spec fn comes_before(a: Candidate, b: Candidate) -> bool {
    ||| a.cost < b.cost
    ||| a.cost == b.cost && a.element.exit_sector < b.element.exit_sector
    ||| a.cost == b.cost && a.element.exit_sector == b.element.exit_sector
        && a.element.gate_pair.from < b.element.gate_pair.from
    ||| a.cost == b.cost && a.element.exit_sector == b.element.exit_sector
        && a.element.gate_pair.from == b.element.gate_pair.from && a.element.gate_pair.to
        < b.element.gate_pair.to
}

/// `comes_before` is a strict total order.
pub proof fn lemma_comes_before_is_total_order(a: Candidate, b: Candidate, c: Candidate)
    ensures
        !comes_before(a, a),
        comes_before(a, b) ==> !comes_before(b, a),
        comes_before(a, b) && comes_before(b, c) ==> comes_before(a, c),
        a == b || comes_before(a, b) || comes_before(b, a),
{
}

impl SearchNode {
    /// The path element that this node stands for.
    pub fn element(&self) -> (element: PathElement)
        ensures
            element == self@.element,
    {
        PathElement { exit_sector: self.sector, gate_pair: self.gate_pair }
    }

    /// Whether this node is looked at before `other`.
    pub fn precedes(&self, other: &SearchNode) -> (before: bool)
        ensures
            before == comes_before(self@, other@),
    {
        if self.cost != other.cost {
            self.cost < other.cost
        } else if self.sector != other.sector {
            self.sector < other.sector
        } else if self.gate_pair.from != other.gate_pair.from {
            self.gate_pair.from < other.gate_pair.from
        } else {
            self.gate_pair.to < other.gate_pair.to
        }
    }
}

} // verus!
