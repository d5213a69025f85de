//! The route search: the cheapest way from a position in one sector into
//! another sector.

use vstd::prelude::*;
use crate::pathfinding::frontier::{lemma_first_is_unique, Frontier};
use crate::pathfinding::optimality::{
    closed_hold, closing, cost_cap, lemma_goal_reached, lemma_nothing_waits, lemma_pending,
    lemma_reached_is_link, lemma_relax, lemma_relax_settled, lemma_search_starts,
    lemma_take_fresh, lemma_take_stale, relaxing, search_inv, starting, taken,
};
use crate::pathfinding::route::{cost_through, is_route_to, max_link_cost, route_cost};
use crate::pathfinding::search::{
    blank, enough_rounds, expanded, first_of, is_chain, lemma_chain_is_unique, predecessor_chain,
    search, searched_route, seeded, SearchState,
};
use crate::pathfinding::search_law::{
    lemma_rounds_after_closing, lemma_rounds_are_left, lemma_rounds_at_start, rounds_left,
};
use crate::pathfinding::search_node::{SearchNode, GATE_COST};
use crate::pathfinding::tables::{CostTable, PredecessorTable};
use crate::position::Position;
use crate::sector::{PathElement, SectorGraph, SectorId, MAX_LINKS};

verus! {

/// The state that the three collections of a search stand for.
pub open spec fn state_of(
    open: &Frontier,
    costs: &CostTable,
    came_from: &PredecessorTable,
) -> SearchState {
    SearchState { open: open@, costs: costs@, came_from: came_from@ }
}

/// No cost that a search records overflows.
proof fn lemma_cap_fits(n: nat)
    requires
        n <= MAX_LINKS + 1,
    ensures
        cost_cap(n) <= 0x4_0000_0000_0000_0000_0000_0000,
{
    assert(n * max_link_cost() <= 0x4_0000_0000_0000_0000_0000_0000) by (nonlinear_arith)
        requires
            n <= 0x1_0000_0000,
            max_link_cost() == 0x4_0000_0000_0000_0000,
    ;
}

/// Follows the predecessors back from `end` and returns the elements met, in
/// travel order.
pub(crate) fn reconstruct_path(came_from: &PredecessorTable, end: SearchNode) -> (path: Vec<
    PathElement,
>)
    requires
        exists|chain: Seq<PathElement>| is_chain(came_from@, chain, end@.element),
    ensures
        is_chain(came_from@, path@, end@.element),
        path@ == predecessor_chain(came_from@, end@.element),
{
    let ghost chain = predecessor_chain(came_from@, end@.element);
    let mut backward: Vec<PathElement> = Vec::new();
    let mut current = end.element();
    backward.push(current);
    loop
        invariant
            is_chain(came_from@, chain, end@.element),
            1 <= backward.len() <= chain.len(),
            current == chain[chain.len() - backward.len()],
            forall|j: int| 0 <= j < backward.len() ==> backward[j] == chain[chain.len() - 1 - j],
        ensures
            backward.len() == chain.len(),
        decreases chain.len() - backward.len(),
    {
        match came_from.previous(current) {
            Some(previous) => {
                backward.push(previous);
                current = previous;
            },
            None => {
                break ;
            },
        }
    }
    let mut path: Vec<PathElement> = Vec::new();
    let mut i: usize = backward.len();
    while i > 0
        invariant
            i <= backward.len(),
            backward.len() == chain.len(),
            path.len() == backward.len() - i,
            forall|j: int| 0 <= j < backward.len() ==> backward[j] == chain[chain.len() - 1 - j],
            forall|j: int| 0 <= j < path.len() ==> path[j] == chain[j],
        decreases i,
    {
        i = i - 1;
        path.push(backward[i]);
    }
    assert(path@ =~= chain);
    path
}

/// Finds the cheapest route from `from_position` in sector `from` into sector
/// `to`. A route names each gate pair to go through and the sector that it
/// leads into; `None` says that no route leads there. A route has at least
/// one element: a route into `from` itself leaves it and comes back. The
/// cost of a route is the squared distance to each gate from where the ship
/// is, plus `GATE_COST` for each gate but the first.
///
/// For all its name the search follows no estimate of what is left to go: it
/// looks at the cheapest candidate first, which is why the first candidate
/// that lies in `to` ends a cheapest route.
///
/// The result depends on the arguments alone: it is `searched_route` of them.
pub fn a_star(
    sectors: &SectorGraph,
    from: SectorId,
    from_position: Position,
    to: SectorId,
) -> (route: Option<Vec<PathElement>>)
    requires
        sectors.wf(),
        from < sectors.sector_total(),
    ensures
        match route {
            Some(path) => {
                &&& searched_route(sectors, from, from_position, to) == Some(path@)
                &&& is_route_to(sectors, from, path@, to)
                &&& forall|other: Seq<PathElement>| #[trigger]
                    is_route_to(sectors, from, other, to) ==> route_cost(
                        sectors,
                        from_position,
                        path@,
                    ) <= route_cost(sectors, from_position, other)
            },
            None => {
                &&& searched_route(sectors, from, from_position, to) is None
                &&& forall|other: Seq<PathElement>| !#[trigger] is_route_to(sectors, from, other, to)
            },
        },
{
    let mut open = Frontier::new();
    let mut costs = CostTable::new();
    let mut came_from = PredecessorTable::new();
    assert(state_of(&open, &costs, &came_from) == blank()) by {
        assert(costs@ =~= Map::<PathElement, nat>::empty());
        assert(came_from@ =~= Map::<PathElement, PathElement>::empty());
    }
    let start_links = sectors.links_of(from);
    let mut i: usize = 0;
    while i < start_links.len()
        invariant
            sectors.wf(),
            open.wf(),
            start_links@ == sectors.links(from),
            i <= start_links.len(),
            state_of(&open, &costs, &came_from) == seeded(sectors, from, from_position, i as nat),
        decreases start_links.len() - i,
    {
        let link = start_links[i];
        proof {
            sectors.lemma_link_is_valid(from, i as int);
        }
        // Only the way to its gate counts for the first link: every later
        // link is charged for its crossing when it is tried.
        let cost_to_gate = cost_through(sectors, from_position, link) - GATE_COST;
        costs.record(link, cost_to_gate);
        open.push(
            SearchNode { sector: link.exit_sector, gate_pair: link.gate_pair, cost: cost_to_gate },
        );
        i = i + 1;
    }
    let ghost mut progress = starting(state_of(&open, &costs, &came_from));
    let ghost mut rounds: nat = enough_rounds(sectors);
    proof {
        lemma_search_starts(sectors, from, from_position, to);
        lemma_rounds_at_start(sectors, from);
        assert(progress.closed.len() == 0);
    }
    loop
        invariant
            sectors.wf(),
            open.wf(),
            search_inv(
                sectors,
                from,
                from_position,
                to,
                state_of(&open, &costs, &came_from),
                progress,
                None,
            ),
            search(sectors, state_of(&open, &costs, &came_from), to, rounds) == searched_route(
                sectors,
                from,
                from_position,
                to,
            ),
            progress.closed.len() <= sectors.link_set().len(),
            rounds >= rounds_left(sectors, open@.len(), progress.closed.len()),
        decreases rounds,
    {
        let ghost before = state_of(&open, &costs, &came_from);
        proof {
            lemma_rounds_are_left(sectors, open@.len(), progress.closed.len());
        }
        let node = match open.pop() {
            Some(node) => node,
            None => {
                proof {
                    lemma_nothing_waits(sectors, from, from_position, to, before, progress);
                }
                return None;
            },
        };
        proof {
            let chosen = first_of(before.open);
            lemma_first_is_unique(before.open, chosen, node@);
        }
        if node.sector == to {
            proof {
                lemma_goal_reached(sectors, from, from_position, to, before, progress, node@);
                lemma_chain_is_unique(
                    came_from@,
                    predecessor_chain(came_from@, node@.element),
                    progress.witness[node@.element],
                    node@.element,
                );
            }
            return Some(reconstruct_path(&came_from, node));
        }
        let current = node.element();
        let ghost fresh = !progress.closed.contains(current);
        let ghost start = taken(before, node@);
        assert(state_of(&open, &costs, &came_from) == start);
        proof {
            sectors.lemma_links_are_bounded(current.exit_sector);
            if fresh {
                lemma_take_fresh(sectors, from, from_position, to, before, progress, node@);
                progress = closing(progress, current);
                assert(progress.closed.subset_of(sectors.link_set()) && sectors.link_set().finite())
                    by {
                    reveal(closed_hold);
                }
                vstd::set_lib::lemma_len_subset(progress.closed, sectors.link_set());
            } else {
                lemma_take_stale(sectors, from, from_position, to, before, progress, node@);
                lemma_pending(sectors, start.costs, progress.closed, current, 0);
                assert(start.costs.contains_key(current)) by {
                    reveal(closed_hold);
                }
            }
            lemma_reached_is_link(
                sectors,
                from,
                from_position,
                start.costs,
                progress.witness,
                current,
            );
            lemma_cap_fits(progress.closed.len() + 1);
        }
        let current_cost = costs.cost_of(current);
        let links = sectors.links_of(node.sector);
        let gate_pos = sectors.gate_position(node.gate_pair.to);
        let ghost closed = progress.closed;
        let mut k: usize = 0;
        while k < links.len()
            invariant
                sectors.wf(),
                open.wf(),
                k <= links.len(),
                links@ == sectors.links(current.exit_sector),
                gate_pos == sectors.position_of(current.gate_pair.to),
                progress.closed == closed,
                closed.contains(current),
                closed.len() <= MAX_LINKS,
                costs@.contains_key(current),
                costs@[current] == current_cost,
                search_inv(
                    sectors,
                    from,
                    from_position,
                    to,
                    state_of(&open, &costs, &came_from),
                    progress,
                    Some((current, k as nat)),
                ),
                state_of(&open, &costs, &came_from) == expanded(
                    sectors,
                    start,
                    current,
                    current_cost as nat,
                    k as nat,
                ),
                !fresh ==> state_of(&open, &costs, &came_from) == start && search_inv(
                    sectors,
                    from,
                    from_position,
                    to,
                    start,
                    progress,
                    None,
                ),
                open@.len() <= start.open.len() + k,
            decreases links.len() - k,
        {
            let neighbor = links[k];
            let ghost old_state = state_of(&open, &costs, &came_from);
            proof {
                lemma_relax(
                    sectors,
                    from,
                    from_position,
                    to,
                    old_state,
                    progress,
                    current,
                    k as nat,
                );
                lemma_cap_fits(closed.len() + 1);
                if !fresh {
                    lemma_relax_settled(sectors, old_state, closed, current, k as nat);
                }
            }
            let neighbor_cost = current_cost + cost_through(sectors, gate_pos, neighbor);
            if !costs.has(neighbor) || costs.cost_of(neighbor) > neighbor_cost {
                came_from.link(neighbor, current);
                costs.record(neighbor, neighbor_cost);
                open.push(
                    SearchNode {
                        sector: neighbor.exit_sector,
                        gate_pair: neighbor.gate_pair,
                        cost: neighbor_cost,
                    },
                );
            }
            proof {
                progress = relaxing(
                    sectors,
                    old_state,
                    progress,
                    current,
                    current_cost as nat,
                    neighbor,
                );
            }
            k = k + 1;
        }
        proof {
            lemma_pending(sectors, costs@, closed, current, k as nat);
            if fresh {
                lemma_rounds_after_closing(
                    sectors,
                    current.exit_sector,
                    before.open.len(),
                    (closed.len() - 1) as nat,
                    open@.len(),
                );
            }
            rounds = (rounds - 1) as nat;
        }
    }
}

} // verus!
