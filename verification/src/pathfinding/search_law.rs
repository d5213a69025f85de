//! The route that the search finds is a cheapest one.

use vstd::prelude::*;
use vstd::multiset::Multiset;
use crate::pathfinding::frontier::is_first;
use crate::pathfinding::optimality::{
    closed_hold, closing, lemma_goal_reached, lemma_nothing_waits, lemma_pending, lemma_relax,
    lemma_relax_settled, lemma_search_starts, lemma_take_fresh, lemma_take_stale, links_hold,
    relaxing, search_inv, starting, taken, Progress,
};
use crate::pathfinding::route::{is_route_to, route_cost};
use crate::pathfinding::search::{
    enough_rounds, expanded, first_of, lemma_chain_is_unique, predecessor_chain, search,
    searched_route, seeded, SearchState,
};
use crate::pathfinding::search_node::{comes_before, Candidate};
use crate::position::Position;
use crate::sector::{PathElement, SectorGraph, SectorId};

verus! {

/// Whether `route` is a cheapest route from `from_position` in `from` into
/// `to`, or `None` while no route leads there.
pub open spec fn is_cheapest_or_none(
    graph: &SectorGraph,
    from: SectorId,
    from_position: Position,
    to: SectorId,
    route: Option<Seq<PathElement>>,
) -> bool {
    match route {
        Some(path) => {
            &&& is_route_to(graph, from, path, to)
            &&& forall|other: Seq<PathElement>| #[trigger]
                is_route_to(graph, from, other, to) ==> route_cost(graph, from_position, path)
                    <= route_cost(graph, from_position, other)
        },
        None => forall|other: Seq<PathElement>| !#[trigger] is_route_to(graph, from, other, to),
    }
}

/// How many rounds a search may still take, at most, while `waiting`
/// candidates wait and `closed` elements are closed.
pub open spec fn rounds_left(graph: &SectorGraph, waiting: nat, closed: nat) -> int {
    waiting + (graph.link_set().len() - closed) * graph.link_total()
}

/// The rounds that a search is given are enough at its start.
pub(crate) proof fn lemma_rounds_at_start(graph: &SectorGraph, from: SectorId)
    requires
        graph.wf(),
    ensures
        rounds_left(graph, graph.links(from).len(), 0) <= enough_rounds(graph),
{
    graph.lemma_links_are_bounded(from);
    let n = graph.link_set().len();
    let l = graph.link_total();
    assert(n * l <= l * l) by (nonlinear_arith)
        requires
            n <= l,
    ;
}

/// A round that closes an element leaves one round fewer to take, however
/// many links of the element let a candidate wait.
pub(crate) proof fn lemma_rounds_after_closing(
    graph: &SectorGraph,
    sector: SectorId,
    waiting: nat,
    closed: nat,
    grown: nat,
)
    requires
        graph.wf(),
        waiting >= 1,
        closed < graph.link_set().len(),
        grown <= waiting - 1 + graph.links(sector).len(),
    ensures
        rounds_left(graph, grown, closed + 1) <= rounds_left(graph, waiting, closed) - 1,
{
    graph.lemma_links_are_bounded(sector);
    let n = graph.link_set().len();
    let l = graph.link_total();
    assert((n - closed) * l == (n - (closed + 1)) * l + l) by (nonlinear_arith);
}

/// While candidates wait, as many rounds may still be taken.
pub(crate) proof fn lemma_rounds_are_left(graph: &SectorGraph, waiting: nat, closed: nat)
    requires
        closed <= graph.link_set().len(),
    ensures
        rounds_left(graph, waiting, closed) >= waiting,
{
    let n = graph.link_set().len();
    let l = graph.link_total();
    assert((n - closed) * l >= 0) by (nonlinear_arith)
        requires
            n - closed >= 0,
            l >= 0,
    ;
}

/// Where candidates wait, one of them is looked at first.
pub proof fn lemma_first_exists(open: Multiset<Candidate>)
    requires
        open.len() > 0,
    ensures
        is_first(open, first_of(open)),
    decreases open.len(),
{
    let some = open.choose();
    assert(open.contains(some));
    let rest = open.remove(some);
    let first = if rest.len() == 0 {
        some
    } else {
        lemma_first_exists(rest);
        let least = first_of(rest);
        if least == some || comes_before(some, least) {
            some
        } else {
            least
        }
    };
    assert(is_first(open, first)) by {
        assert forall|other: Candidate| #[trigger] open.contains(other) implies other == first
            || comes_before(first, other) by {
            if other != some {
                assert(rest.contains(other));
            }
        }
        if first != some {
            assert(rest.contains(first));
        }
    }
}

/// The progress after the first `n` links that leave the sector of `current`
/// have been tried.
pub open spec fn expanding(
    graph: &SectorGraph,
    state: SearchState,
    progress: Progress,
    current: PathElement,
    current_cost: nat,
    n: nat,
) -> Progress
    decreases n,
{
    if n == 0 {
        progress
    } else {
        relaxing(
            graph,
            expanded(graph, state, current, current_cost, (n - 1) as nat),
            expanding(graph, state, progress, current, current_cost, (n - 1) as nat),
            current,
            current_cost,
            graph.links(current.exit_sector)[n - 1],
        )
    }
}

/// Trying the first `n` links of an element that has just been closed keeps
/// the invariant and lets at most `n` more candidates wait.
proof fn lemma_expanded(
    graph: &SectorGraph,
    from: SectorId,
    from_position: Position,
    to: SectorId,
    state: SearchState,
    progress: Progress,
    current: PathElement,
    n: nat,
)
    requires
        search_inv(graph, from, from_position, to, state, progress, Some((current, 0nat))),
        progress.closed.contains(current),
        state.costs.contains_key(current),
        n <= graph.links(current.exit_sector).len(),
    ensures
        ({
            let cost = state.costs[current];
            let after = expanded(graph, state, current, cost, n);
            let done = expanding(graph, state, progress, current, cost, n);
            &&& search_inv(graph, from, from_position, to, after, done, Some((current, n)))
            &&& done.closed == progress.closed
            &&& after.costs.contains_key(current)
            &&& after.costs[current] == cost
            &&& after.open.len() <= state.open.len() + n
        }),
    decreases n,
{
    if n > 0 {
        let cost = state.costs[current];
        let fewer = (n - 1) as nat;
        lemma_expanded(graph, from, from_position, to, state, progress, current, fewer);
        lemma_relax(
            graph,
            from,
            from_position,
            to,
            expanded(graph, state, current, cost, fewer),
            expanding(graph, state, progress, current, cost, fewer),
            current,
            fewer,
        );
    }
}

/// Trying the links of an element that was closed before changes nothing.
proof fn lemma_expanded_settled(
    graph: &SectorGraph,
    state: SearchState,
    closed: Set<PathElement>,
    current: PathElement,
    n: nat,
)
    requires
        links_hold(graph, state.costs, closed, None),
        closed.contains(current),
        n <= graph.links(current.exit_sector).len(),
    ensures
        expanded(graph, state, current, state.costs[current], n) == state,
    decreases n,
{
    if n > 0 {
        lemma_expanded_settled(graph, state, closed, current, (n - 1) as nat);
        lemma_relax_settled(graph, state, closed, current, (n - 1) as nat);
    }
}

/// From a state of which the invariant holds, and with rounds enough, the
/// search returns a cheapest route to `to`, or `None` where there is no
/// route.
proof fn lemma_search(
    graph: &SectorGraph,
    from: SectorId,
    from_position: Position,
    to: SectorId,
    state: SearchState,
    progress: Progress,
    rounds: nat,
)
    requires
        search_inv(graph, from, from_position, to, state, progress, None),
        progress.closed.len() <= graph.link_set().len(),
        rounds >= rounds_left(graph, state.open.len(), progress.closed.len()),
    ensures
        is_cheapest_or_none(graph, from, from_position, to, search(graph, state, to, rounds)),
    decreases rounds,
{
    lemma_rounds_are_left(graph, state.open.len(), progress.closed.len());
    if state.open.len() == 0 {
        lemma_nothing_waits(graph, from, from_position, to, state, progress);
    } else {
        lemma_first_exists(state.open);
        let first = first_of(state.open);
        let current = first.element;
        if current.exit_sector == to {
            lemma_goal_reached(graph, from, from_position, to, state, progress, first);
            lemma_chain_is_unique(
                state.came_from,
                predecessor_chain(state.came_from, current),
                progress.witness[current],
                current,
            );
        } else {
            let start = taken(state, first);
            let links = graph.links(current.exit_sector).len();
            graph.lemma_links_are_bounded(current.exit_sector);
            if !progress.closed.contains(current) {
                lemma_take_fresh(graph, from, from_position, to, state, progress, first);
                let closed = closing(progress, current);
                assert(closed.closed.subset_of(graph.link_set())) by {
                    reveal(closed_hold);
                }
                vstd::set_lib::lemma_len_subset(closed.closed, graph.link_set());
                lemma_expanded(graph, from, from_position, to, start, closed, current, links);
                let after = expanded(graph, start, current, start.costs[current], links);
                let done = expanding(graph, start, closed, current, start.costs[current], links);
                lemma_pending(graph, after.costs, done.closed, current, links);
                lemma_rounds_after_closing(
                    graph,
                    current.exit_sector,
                    state.open.len(),
                    progress.closed.len(),
                    after.open.len(),
                );
                lemma_search(graph, from, from_position, to, after, done, (rounds - 1) as nat);
            } else {
                lemma_take_stale(graph, from, from_position, to, state, progress, first);
                lemma_expanded_settled(graph, start, progress.closed, current, links);
                lemma_search(graph, from, from_position, to, start, progress, (rounds - 1) as nat);
            }
        }
    }
}

/// The route that the search finds is a route into `to` that no other route
/// into `to` beats; where the search finds none, no route leads into `to`.
pub proof fn lemma_searched_route_is_cheapest(
    graph: &SectorGraph,
    from: SectorId,
    from_position: Position,
    to: SectorId,
)
    requires
        graph.wf(),
    ensures
        is_cheapest_or_none(
            graph,
            from,
            from_position,
            to,
            searched_route(graph, from, from_position, to),
        ),
{
    let state = seeded(graph, from, from_position, graph.links(from).len());
    lemma_search_starts(graph, from, from_position, to);
    lemma_rounds_at_start(graph, from);
    assert(starting(state).closed.len() == 0);
    lemma_search(graph, from, from_position, to, state, starting(state), enough_rounds(graph));
}

} // verus!
