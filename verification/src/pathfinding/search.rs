//! The route search, step by step, as a function of its arguments.

use vstd::prelude::*;
use vstd::multiset::Multiset;
use crate::pathfinding::frontier::is_first;
use crate::pathfinding::route::{approach_cost, leg_cost};
use crate::pathfinding::search_node::Candidate;
use crate::position::Position;
use crate::sector::{PathElement, SectorGraph, SectorId};

verus! {

/// What a route search knows at one moment: the candidates that wait, the
/// cheapest cost found so far for each path element reached, and the element
/// before it on the route of that cost.
pub ghost struct SearchState {
    pub open: Multiset<Candidate>,
    pub costs: Map<PathElement, nat>,
    pub came_from: Map<PathElement, PathElement>,
}

/// Whether `chain` is what following `came_from` back from `end` gives, in
/// travel order: it ends with `end`, each element but the first is preceded by
/// its recorded predecessor, and the first has none.
pub open spec fn is_chain(
    came_from: Map<PathElement, PathElement>,
    chain: Seq<PathElement>,
    end: PathElement,
) -> bool {
    &&& chain.len() > 0
    &&& chain.last() == end
    &&& !came_from.contains_key(chain[0])
    &&& forall|i: int|
        0 < i < chain.len() ==> came_from.contains_key(#[trigger] chain[i]) && came_from[chain[i]]
            == chain[i - 1]
}

/// The chain of predecessors that ends with `end`.
pub open spec fn predecessor_chain(
    came_from: Map<PathElement, PathElement>,
    end: PathElement,
) -> Seq<PathElement> {
    choose|chain: Seq<PathElement>| is_chain(came_from, chain, end)
}

/// Following `came_from` back from one element gives one chain.
pub proof fn lemma_chain_is_unique(
    came_from: Map<PathElement, PathElement>,
    a: Seq<PathElement>,
    b: Seq<PathElement>,
    end: PathElement,
)
    requires
        is_chain(came_from, a, end),
        is_chain(came_from, b, end),
    ensures
        a == b,
    decreases a.len(),
{
    if a.len() == 1 {
        if b.len() > 1 {
            assert(came_from.contains_key(b[b.len() - 1]));
        }
    } else {
        assert(came_from.contains_key(a[a.len() - 1]));
        if b.len() == 1 {
            assert(false);
        }
        assert(came_from[a[a.len() - 1]] == a[a.len() - 2]);
        assert(came_from[b[b.len() - 1]] == b[b.len() - 2]);
        lemma_chain_is_unique(came_from, a.drop_last(), b.drop_last(), a[a.len() - 2]);
        assert(a =~= a.drop_last().push(end));
        assert(b =~= b.drop_last().push(end));
    }
}

/// The state in which nothing is known.
pub open spec fn blank() -> SearchState {
    SearchState { open: Multiset::empty(), costs: Map::empty(), came_from: Map::empty() }
}

/// The state after `link`, which leaves the start sector, has been entered:
/// only the way to its gate counts, not the crossing, which every later link
/// is charged for.
pub open spec fn seed(
    graph: &SectorGraph,
    from_position: Position,
    state: SearchState,
    link: PathElement,
) -> SearchState {
    let cost = approach_cost(graph, from_position, link);
    SearchState {
        open: state.open.insert(Candidate { element: link, cost }),
        costs: state.costs.insert(link, cost),
        came_from: state.came_from,
    }
}

/// The state after the first `n` links of the start sector have been entered.
pub open spec fn seeded(
    graph: &SectorGraph,
    from: SectorId,
    from_position: Position,
    n: nat,
) -> SearchState
    decreases n,
{
    if n == 0 {
        blank()
    } else {
        seed(
            graph,
            from_position,
            seeded(graph, from, from_position, (n - 1) as nat),
            graph.links(from)[n - 1],
        )
    }
}

/// The state after `link` has been tried from `current`, which costs
/// `current_cost` to reach: where `link` has no cost yet, or a higher one, it
/// gets the new cost and `current` as its predecessor, and waits once more.
pub open spec fn relax(
    graph: &SectorGraph,
    state: SearchState,
    current: PathElement,
    current_cost: nat,
    link: PathElement,
) -> SearchState {
    let cost = current_cost + leg_cost(graph, current, link);
    if !state.costs.contains_key(link) || state.costs[link] > cost {
        SearchState {
            open: state.open.insert(Candidate { element: link, cost }),
            costs: state.costs.insert(link, cost),
            came_from: state.came_from.insert(link, current),
        }
    } else {
        state
    }
}

/// The state after the first `n` links that leave the sector of `current`
/// have been tried.
pub open spec fn expanded(
    graph: &SectorGraph,
    state: SearchState,
    current: PathElement,
    current_cost: nat,
    n: nat,
) -> SearchState
    decreases n,
{
    if n == 0 {
        state
    } else {
        relax(
            graph,
            expanded(graph, state, current, current_cost, (n - 1) as nat),
            current,
            current_cost,
            graph.links(current.exit_sector)[n - 1],
        )
    }
}

/// The candidate of `open` that is looked at first.
pub open spec fn first_of(open: Multiset<Candidate>) -> Candidate {
    choose|candidate: Candidate| is_first(open, candidate)
}

/// What the search returns from `state` within `rounds` rounds. Each round
/// takes the first candidate out. Where it lies in `to`, its chain of
/// predecessors is the route. Else every link that leaves its sector is
/// tried. Where nothing waits, there is no route.
pub open spec fn search(
    graph: &SectorGraph,
    state: SearchState,
    to: SectorId,
    rounds: nat,
) -> Option<Seq<PathElement>>
    decreases rounds,
{
    if rounds == 0 || state.open.len() == 0 {
        None
    } else {
        let first = first_of(state.open);
        if first.element.exit_sector == to {
            Some(predecessor_chain(state.came_from, first.element))
        } else {
            let taken = SearchState {
                open: state.open.remove(first),
                costs: state.costs,
                came_from: state.came_from,
            };
            search(
                graph,
                expanded(
                    graph,
                    taken,
                    first.element,
                    taken.costs[first.element],
                    graph.links(first.element.exit_sector).len(),
                ),
                to,
                (rounds - 1) as nat,
            )
        }
    }
}

/// More rounds than any search on `graph` takes.
pub open spec fn enough_rounds(graph: &SectorGraph) -> nat {
    graph.link_total() * graph.link_total() + graph.link_total() + 1
}

/// The route that the search finds from `from_position` in `from` to `to`.
pub open spec fn searched_route(
    graph: &SectorGraph,
    from: SectorId,
    from_position: Position,
    to: SectorId,
) -> Option<Seq<PathElement>> {
    search(
        graph,
        seeded(graph, from, from_position, graph.links(from).len()),
        to,
        enough_rounds(graph),
    )
}

} // verus!
