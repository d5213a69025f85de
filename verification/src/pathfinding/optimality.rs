//! What holds of a route search from step to step, and why it makes the
//! route found a cheapest one.

use vstd::prelude::*;
use vstd::multiset::Multiset;
use crate::pathfinding::frontier::is_first;
use crate::pathfinding::route::{
    approach_cost, is_link, is_route, is_route_to, leg_cost, lemma_link_cost_is_bounded,
    max_link_cost, route_cost,
};
use crate::pathfinding::search::{is_chain, relax, seeded, SearchState};
use crate::pathfinding::search_node::Candidate;
use crate::position::Position;
use crate::sector::{PathElement, SectorGraph, SectorId};

verus! {

/// What a proof keeps beside the state of a search: the path elements that
/// have been taken out of the frontier and had their links tried, and, for
/// each element reached, a route of the recorded cost.
pub ghost struct Progress {
    pub closed: Set<PathElement>,
    pub witness: Map<PathElement, Seq<PathElement>>,
}

/// No cost recorded while `n` elements are closed exceeds this.
pub open spec fn cost_cap(n: nat) -> nat {
    n * max_link_cost()
}

/// One more closed element lifts the cap by the cost of one link.
pub(crate) proof fn lemma_cost_cap(n: nat)
    ensures
        cost_cap(n + 1) == cost_cap(n) + max_link_cost(),
        cost_cap(0) == 0,
{
    assert((n + 1) * max_link_cost() == n * max_link_cost() + max_link_cost())
        by (nonlinear_arith);
}

/// Whether no route from `from` that ends with `element` costs less than
/// `cost`.
pub open spec fn is_cheapest_to(
    graph: &SectorGraph,
    from: SectorId,
    from_position: Position,
    element: PathElement,
    cost: nat,
) -> bool {
    forall|route: Seq<PathElement>|
        #[trigger] is_route(graph, from, route) && route.last() == element ==> cost <= route_cost(
            graph,
            from_position,
            route,
        )
}

/// Each recorded cost is the cost of a route that ends with the element.
#[verifier::opaque]
pub open spec fn witnesses_hold(
    graph: &SectorGraph,
    from: SectorId,
    from_position: Position,
    costs: Map<PathElement, nat>,
    witness: Map<PathElement, Seq<PathElement>>,
) -> bool {
    forall|e: PathElement| #[trigger]
        costs.contains_key(e) ==> {
            &&& witness.contains_key(e)
            &&& is_route(graph, from, witness[e])
            &&& witness[e].last() == e
            &&& route_cost(graph, from_position, witness[e]) == costs[e]
        }
}

/// No recorded cost is higher than the number of closed elements allows.
#[verifier::opaque]
pub open spec fn costs_are_capped(costs: Map<PathElement, nat>, closed: Set<PathElement>) -> bool {
    &&& forall|e: PathElement| #[trigger]
        costs.contains_key(e) ==> costs[e] <= cost_cap(closed.len() + 1)
    &&& forall|e: PathElement|
        closed.contains(e) ==> #[trigger] costs[e] <= cost_cap(closed.len())
}

/// Each closed element is reached, lies outside `to` and has the cost of a
/// cheapest route to it.
#[verifier::opaque]
pub open spec fn closed_hold(
    graph: &SectorGraph,
    from: SectorId,
    from_position: Position,
    to: SectorId,
    costs: Map<PathElement, nat>,
    closed: Set<PathElement>,
) -> bool {
    &&& closed.finite()
    &&& closed.subset_of(graph.link_set())
    &&& forall|e: PathElement| #[trigger]
        closed.contains(e) ==> {
            &&& costs.contains_key(e)
            &&& e.exit_sector != to
            &&& is_cheapest_to(graph, from, from_position, e, costs[e])
        }
}

/// Whether the link `i` of the closed element `p` has been tried: all have,
/// but for the element in `pending`, of which only as many as `pending` says
/// have.
pub open spec fn is_tried(pending: Option<(PathElement, nat)>, p: PathElement, i: int) -> bool {
    match pending {
        Some((current, done)) => p != current || i < done,
        None => true,
    }
}

/// Each link that has been tried from a closed element has a cost that is no
/// higher than the way over that element.
#[verifier::opaque]
pub open spec fn links_hold(
    graph: &SectorGraph,
    costs: Map<PathElement, nat>,
    closed: Set<PathElement>,
    pending: Option<(PathElement, nat)>,
) -> bool {
    forall|p: PathElement, i: int|
        #![trigger closed.contains(p), graph.links(p.exit_sector)[i]]
        closed.contains(p) && 0 <= i < graph.links(p.exit_sector).len() && is_tried(pending, p, i)
            ==> {
            &&& costs.contains_key(graph.links(p.exit_sector)[i])
            &&& costs[graph.links(p.exit_sector)[i]] <= costs[p] + leg_cost(
                graph,
                p,
                graph.links(p.exit_sector)[i],
            )
        }
}

/// Each link that leaves the start sector has a cost that is no higher than
/// the way to its gate.
#[verifier::opaque]
pub open spec fn seeds_hold(
    graph: &SectorGraph,
    from: SectorId,
    from_position: Position,
    costs: Map<PathElement, nat>,
) -> bool {
    forall|i: int|
        0 <= i < graph.links(from).len() ==> {
            &&& costs.contains_key(#[trigger] graph.links(from)[i])
            &&& costs[graph.links(from)[i]] <= approach_cost(
                graph,
                from_position,
                graph.links(from)[i],
            )
        }
}

/// Each element that is reached and not closed waits with its recorded cost,
/// and nothing waits with less than the recorded cost of its element.
#[verifier::opaque]
pub open spec fn open_holds(
    open: Multiset<Candidate>,
    costs: Map<PathElement, nat>,
    closed: Set<PathElement>,
) -> bool {
    &&& forall|e: PathElement|
        #[trigger] costs.contains_key(e) && !closed.contains(e) ==> open.contains(
            Candidate { element: e, cost: costs[e] },
        )
    &&& forall|c: Candidate| #[trigger]
        open.contains(c) ==> costs.contains_key(c.element) && costs[c.element] <= c.cost
}

/// The recorded predecessors are closed and spell the witness routes.
#[verifier::opaque]
pub open spec fn chains_hold(
    costs: Map<PathElement, nat>,
    came_from: Map<PathElement, PathElement>,
    progress: Progress,
) -> bool {
    &&& forall|e: PathElement| #[trigger]
        came_from.contains_key(e) ==> {
            &&& costs.contains_key(e)
            &&& progress.closed.contains(came_from[e])
            &&& costs.contains_key(came_from[e])
            &&& progress.witness[e] == progress.witness[came_from[e]].push(e)
        }
    &&& forall|e: PathElement|
        #[trigger] costs.contains_key(e) && !came_from.contains_key(e) ==> progress.witness[e]
            == seq![e]
}

/// What holds of a search between two steps. Between two rounds `pending` is
/// `None`.
pub open spec fn search_inv(
    graph: &SectorGraph,
    from: SectorId,
    from_position: Position,
    to: SectorId,
    state: SearchState,
    progress: Progress,
    pending: Option<(PathElement, nat)>,
) -> bool {
    &&& graph.wf()
    &&& witnesses_hold(graph, from, from_position, state.costs, progress.witness)
    &&& costs_are_capped(state.costs, progress.closed)
    &&& closed_hold(graph, from, from_position, to, state.costs, progress.closed)
    &&& links_hold(graph, state.costs, progress.closed, pending)
    &&& seeds_hold(graph, from, from_position, state.costs)
    &&& open_holds(state.open, state.costs, progress.closed)
    &&& chains_hold(state.costs, state.came_from, progress)
}

/// A route costs at least as much as the route without its last element.
pub(crate) proof fn lemma_route_prefix(
    graph: &SectorGraph,
    from: SectorId,
    from_position: Position,
    route: Seq<PathElement>,
)
    requires
        is_route(graph, from, route),
        route.len() > 1,
    ensures
        is_route(graph, from, route.drop_last()),
        route_cost(graph, from_position, route) == route_cost(
            graph,
            from_position,
            route.drop_last(),
        ) + leg_cost(graph, route[route.len() - 2], route.last()),
        is_link(graph, route[route.len() - 2].exit_sector, route.last()),
{
    let shorter = route.drop_last();
    assert forall|i: int| 0 < i < shorter.len() implies is_link(
        graph,
        shorter[i - 1].exit_sector,
        #[trigger] shorter[i],
    ) by {
        assert(is_link(graph, route[i - 1].exit_sector, route[i]));
    }
}

/// A route with one more link at its end.
pub(crate) proof fn lemma_route_extend(
    graph: &SectorGraph,
    from: SectorId,
    from_position: Position,
    route: Seq<PathElement>,
    link: PathElement,
)
    requires
        is_route(graph, from, route),
        is_link(graph, route.last().exit_sector, link),
    ensures
        is_route(graph, from, route.push(link)),
        route.push(link).last() == link,
        route_cost(graph, from_position, route.push(link)) == route_cost(
            graph,
            from_position,
            route,
        ) + leg_cost(graph, route.last(), link),
{
    let longer = route.push(link);
    assert(longer.drop_last() =~= route);
    assert forall|i: int| 0 < i < longer.len() implies is_link(
        graph,
        longer[i - 1].exit_sector,
        #[trigger] longer[i],
    ) by {
        if i < route.len() {
            assert(is_link(graph, route[i - 1].exit_sector, route[i]));
        }
    }
}

/// Whether some element is reached and not closed, with a recorded cost of at
/// most `bound`.
pub open spec fn frontier_within(
    costs: Map<PathElement, nat>,
    closed: Set<PathElement>,
    bound: nat,
) -> bool {
    exists|e: PathElement|
        #![trigger costs.contains_key(e)]
        costs.contains_key(e) && !closed.contains(e) && costs[e] <= bound
}

/// Along any route from the start, either the last element is closed, or some
/// element is reached and not closed, with a recorded cost that the route
/// does not beat.
pub(crate) proof fn lemma_route_meets_frontier(
    graph: &SectorGraph,
    from: SectorId,
    from_position: Position,
    to: SectorId,
    costs: Map<PathElement, nat>,
    closed: Set<PathElement>,
    route: Seq<PathElement>,
)
    requires
        closed_hold(graph, from, from_position, to, costs, closed),
        links_hold(graph, costs, closed, None),
        seeds_hold(graph, from, from_position, costs),
        is_route(graph, from, route),
    ensures
        closed.contains(route.last()) || frontier_within(
            costs,
            closed,
            route_cost(graph, from_position, route),
        ),
    decreases route.len(),
{
    reveal(closed_hold);
    reveal(links_hold);
    reveal(seeds_hold);
    let last = route.last();
    let total = route_cost(graph, from_position, route);
    if route.len() == 1 {
        let i = choose|i: int| 0 <= i < graph.links(from).len() && graph.links(from)[i] == route[0];
        assert(costs.contains_key(graph.links(from)[i]));
        if !closed.contains(last) {
            assert(costs.contains_key(last) && !closed.contains(last) && costs[last] <= total);
        }
    } else {
        let shorter = route.drop_last();
        lemma_route_prefix(graph, from, from_position, route);
        lemma_route_meets_frontier(graph, from, from_position, to, costs, closed, shorter);
        let p = shorter.last();
        if closed.contains(p) {
            let i = choose|i: int|
                0 <= i < graph.links(p.exit_sector).len() && graph.links(p.exit_sector)[i] == last;
            assert(costs.contains_key(graph.links(p.exit_sector)[i]));
            assert(is_route(graph, from, shorter) && shorter.last() == p);
            assert(costs[p] <= route_cost(graph, from_position, shorter));
            if !closed.contains(last) {
                assert(costs.contains_key(last) && !closed.contains(last) && costs[last] <= total);
            }
        } else {
            let e = choose|e: PathElement|
                #![trigger costs.contains_key(e)]
                costs.contains_key(e) && !closed.contains(e) && costs[e] <= route_cost(
                    graph,
                    from_position,
                    shorter,
                );
            assert(costs.contains_key(e) && !closed.contains(e) && costs[e] <= total);
        }
    }
}

/// The state after `first` has been taken out of the frontier.
pub open spec fn taken(state: SearchState, first: Candidate) -> SearchState {
    SearchState { open: state.open.remove(first), costs: state.costs, came_from: state.came_from }
}

/// The progress after `element` has been closed.
pub open spec fn closing(progress: Progress, element: PathElement) -> Progress {
    Progress { closed: progress.closed.insert(element), witness: progress.witness }
}

/// The candidate that is looked at first, if its element is not closed, has
/// the recorded cost of its element, and no element that is reached and not
/// closed has a lower one.
pub(crate) proof fn lemma_first_is_cheapest_open(
    open: Multiset<Candidate>,
    costs: Map<PathElement, nat>,
    closed: Set<PathElement>,
    first: Candidate,
)
    requires
        open_holds(open, costs, closed),
        is_first(open, first),
        !closed.contains(first.element),
    ensures
        costs.contains_key(first.element),
        costs[first.element] == first.cost,
        forall|e: PathElement|
            #![trigger costs.contains_key(e)]
            costs.contains_key(e) && !closed.contains(e) ==> first.cost <= costs[e],
{
    reveal(open_holds);
    let own = Candidate { element: first.element, cost: costs[first.element] };
    assert(open.contains(first));
    assert(costs.contains_key(first.element));
    assert(open.contains(own));
    assert forall|e: PathElement|
        #![trigger costs.contains_key(e)]
        costs.contains_key(e) && !closed.contains(e) implies first.cost <= costs[e] by {
        let c = Candidate { element: e, cost: costs[e] };
        assert(open.contains(c));
    }
}

/// No route from the start whose last element is not closed costs less than
/// the candidate that is looked at first.
pub(crate) proof fn lemma_first_beats_open_routes(
    graph: &SectorGraph,
    from: SectorId,
    from_position: Position,
    to: SectorId,
    state: SearchState,
    progress: Progress,
    first: Candidate,
    route: Seq<PathElement>,
)
    requires
        search_inv(graph, from, from_position, to, state, progress, None),
        is_first(state.open, first),
        is_route(graph, from, route),
        !progress.closed.contains(route.last()),
    ensures
        first.cost <= route_cost(graph, from_position, route),
{
    lemma_route_meets_frontier(
        graph,
        from,
        from_position,
        to,
        state.costs,
        progress.closed,
        route,
    );
    let e = choose|e: PathElement|
        #![trigger state.costs.contains_key(e)]
        state.costs.contains_key(e) && !progress.closed.contains(e) && state.costs[e] <= route_cost(
            graph,
            from_position,
            route,
        );
    reveal(open_holds);
    let c = Candidate { element: e, cost: state.costs[e] };
    assert(state.open.contains(c));
}

/// An element that has a recorded cost is a link of the graph.
pub(crate) proof fn lemma_reached_is_link(
    graph: &SectorGraph,
    from: SectorId,
    from_position: Position,
    costs: Map<PathElement, nat>,
    witness: Map<PathElement, Seq<PathElement>>,
    element: PathElement,
)
    requires
        graph.wf(),
        witnesses_hold(graph, from, from_position, costs, witness),
        costs.contains_key(element),
    ensures
        graph.link_set().contains(element),
        element.exit_sector < graph.sector_total(),
        element.gate_pair.from < graph.gate_total(),
        element.gate_pair.to < graph.gate_total(),
{
    reveal(witnesses_hold);
    let w = witness[element];
    assert(is_route(graph, from, w));
    let sector = if w.len() == 1 {
        from
    } else {
        w[w.len() - 2].exit_sector
    };
    assert(is_link(graph, sector, element)) by {
        if w.len() > 1 {
            assert(is_link(graph, w[w.len() - 2].exit_sector, w[w.len() - 1]));
        }
    }
    let i = choose|i: int| 0 <= i < graph.links(sector).len() && graph.links(sector)[i] == element;
    graph.lemma_link_is_valid(sector, i);
}

/// Taking a candidate out leaves every other candidate waiting.
proof fn lemma_open_after_take(
    open: Multiset<Candidate>,
    costs: Map<PathElement, nat>,
    closed: Set<PathElement>,
    first: Candidate,
)
    requires
        open_holds(open, costs, closed),
        open.contains(first),
    ensures
        open_holds(open.remove(first), costs, closed.insert(first.element)),
        closed.contains(first.element) ==> open_holds(open.remove(first), costs, closed),
{
    reveal(open_holds);
    let after = open.remove(first);
    assert forall|e: PathElement|
        #[trigger] costs.contains_key(e) && !closed.insert(first.element).contains(
            e,
        ) implies after.contains(Candidate { element: e, cost: costs[e] }) by {
        let c = Candidate { element: e, cost: costs[e] };
        assert(open.contains(c));
        assert(c != first);
    }
    assert forall|c: Candidate| #[trigger] after.contains(c) implies open.contains(c) by {
        assert(after.count(c) <= open.count(c));
    }
    if closed.contains(first.element) {
        assert(closed.insert(first.element) =~= closed);
    }
}

/// Taking out a candidate whose element is not closed, and closing the
/// element, keeps the invariant, with the links of the element yet to try.
pub(crate) proof fn lemma_take_fresh(
    graph: &SectorGraph,
    from: SectorId,
    from_position: Position,
    to: SectorId,
    state: SearchState,
    progress: Progress,
    first: Candidate,
)
    requires
        search_inv(graph, from, from_position, to, state, progress, None),
        is_first(state.open, first),
        !progress.closed.contains(first.element),
        first.element.exit_sector != to,
    ensures
        search_inv(
            graph,
            from,
            from_position,
            to,
            taken(state, first),
            closing(progress, first.element),
            Some((first.element, 0nat)),
        ),
        state.costs.contains_key(first.element),
        state.costs[first.element] == first.cost,
        closing(progress, first.element).closed.len() == progress.closed.len() + 1,
{
    let element = first.element;
    let costs = state.costs;
    let closed = progress.closed;
    let after = closed.insert(element);
    lemma_first_is_cheapest_open(state.open, costs, closed, first);
    lemma_open_after_take(state.open, costs, closed, first);
    lemma_reached_is_link(graph, from, from_position, costs, progress.witness, element);
    assert(closed.finite() && after.len() == closed.len() + 1) by {
        reveal(closed_hold);
    }
    assert(costs_are_capped(costs, after)) by {
        reveal(costs_are_capped);
        lemma_cost_cap(closed.len());
        lemma_cost_cap(closed.len() + 1);
    }
    assert(closed_hold(graph, from, from_position, to, costs, after)) by {
        assert forall|route: Seq<PathElement>|
            #[trigger] is_route(graph, from, route) && route.last() == element implies costs[element]
            <= route_cost(graph, from_position, route) by {
            lemma_first_beats_open_routes(
                graph,
                from,
                from_position,
                to,
                state,
                progress,
                first,
                route,
            );
        }
        reveal(closed_hold);
    }
    assert(links_hold(graph, costs, after, Some((element, 0nat)))) by {
        reveal(links_hold);
    }
    assert(chains_hold(costs, state.came_from, closing(progress, element))) by {
        reveal(chains_hold);
    }
}

/// Taking out a candidate whose element is closed keeps the invariant.
pub(crate) proof fn lemma_take_stale(
    graph: &SectorGraph,
    from: SectorId,
    from_position: Position,
    to: SectorId,
    state: SearchState,
    progress: Progress,
    first: Candidate,
)
    requires
        search_inv(graph, from, from_position, to, state, progress, None),
        state.open.contains(first),
        progress.closed.contains(first.element),
    ensures
        search_inv(graph, from, from_position, to, taken(state, first), progress, None),
{
    lemma_open_after_take(state.open, state.costs, progress.closed, first);
}

/// Whether trying `link` from `current` records a new cost for it.
pub open spec fn improves(
    graph: &SectorGraph,
    costs: Map<PathElement, nat>,
    current: PathElement,
    current_cost: nat,
    link: PathElement,
) -> bool {
    !costs.contains_key(link) || costs[link] > current_cost + leg_cost(graph, current, link)
}

/// The progress after `link` has been tried from `current`.
pub open spec fn relaxing(
    graph: &SectorGraph,
    state: SearchState,
    progress: Progress,
    current: PathElement,
    current_cost: nat,
    link: PathElement,
) -> Progress {
    if improves(graph, state.costs, current, current_cost, link) {
        Progress {
            closed: progress.closed,
            witness: progress.witness.insert(link, progress.witness[current].push(link)),
        }
    } else {
        progress
    }
}

/// A link that gets a new cost from a closed element is not closed itself.
proof fn lemma_improved_is_open(
    graph: &SectorGraph,
    from: SectorId,
    from_position: Position,
    to: SectorId,
    costs: Map<PathElement, nat>,
    progress: Progress,
    current: PathElement,
    link: PathElement,
)
    requires
        witnesses_hold(graph, from, from_position, costs, progress.witness),
        closed_hold(graph, from, from_position, to, costs, progress.closed),
        progress.closed.contains(current),
        is_link(graph, current.exit_sector, link),
        improves(graph, costs, current, costs[current], link),
    ensures
        !progress.closed.contains(link),
        link != current,
        costs.contains_key(current),
        is_route(graph, from, progress.witness[current].push(link)),
        progress.witness[current].push(link).last() == link,
        route_cost(graph, from_position, progress.witness[current].push(link)) == costs[current]
            + leg_cost(graph, current, link),
{
    reveal(witnesses_hold);
    reveal(closed_hold);
    assert(costs.contains_key(current));
    let w = progress.witness[current];
    lemma_route_extend(graph, from, from_position, w, link);
    if progress.closed.contains(link) {
        assert(is_route(graph, from, w.push(link)) && w.push(link).last() == link);
    }
}

/// A new cost with a route of that cost keeps `witnesses_hold`.
proof fn lemma_witnesses_after_relax(
    graph: &SectorGraph,
    from: SectorId,
    from_position: Position,
    costs: Map<PathElement, nat>,
    witness: Map<PathElement, Seq<PathElement>>,
    link: PathElement,
    cost: nat,
    route: Seq<PathElement>,
)
    requires
        witnesses_hold(graph, from, from_position, costs, witness),
        is_route(graph, from, route),
        route.last() == link,
        route_cost(graph, from_position, route) == cost,
    ensures
        witnesses_hold(
            graph,
            from,
            from_position,
            costs.insert(link, cost),
            witness.insert(link, route),
        ),
{
    reveal(witnesses_hold);
}

/// A new cost that is one link above a closed element's keeps
/// `costs_are_capped`.
proof fn lemma_capped_after_relax(
    costs: Map<PathElement, nat>,
    closed: Set<PathElement>,
    current: PathElement,
    link: PathElement,
    cost: nat,
)
    requires
        costs_are_capped(costs, closed),
        closed.contains(current),
        !closed.contains(link),
        cost <= costs[current] + max_link_cost(),
    ensures
        costs_are_capped(costs.insert(link, cost), closed),
        cost <= cost_cap(closed.len() + 1),
{
    reveal(costs_are_capped);
    lemma_cost_cap(closed.len());
    assert(costs[current] <= cost_cap(closed.len()));
}

/// A new cost for an element that is not closed keeps `closed_hold`.
proof fn lemma_closed_after_relax(
    graph: &SectorGraph,
    from: SectorId,
    from_position: Position,
    to: SectorId,
    costs: Map<PathElement, nat>,
    closed: Set<PathElement>,
    link: PathElement,
    cost: nat,
)
    requires
        closed_hold(graph, from, from_position, to, costs, closed),
        !closed.contains(link),
    ensures
        closed_hold(graph, from, from_position, to, costs.insert(link, cost), closed),
{
    reveal(closed_hold);
}

/// A new cost for the link that is tried keeps `links_hold`, with one more
/// link tried.
proof fn lemma_links_after_relax(
    graph: &SectorGraph,
    costs: Map<PathElement, nat>,
    closed: Set<PathElement>,
    current: PathElement,
    k: nat,
    link: PathElement,
    cost: nat,
)
    requires
        links_hold(graph, costs, closed, Some((current, k))),
        !closed.contains(link),
        closed.contains(current),
        k < graph.links(current.exit_sector).len(),
        link == graph.links(current.exit_sector)[k as int],
        cost == costs[current] + leg_cost(graph, current, link),
        improves(graph, costs, current, costs[current], link),
    ensures
        links_hold(graph, costs.insert(link, cost), closed, Some((current, k + 1))),
{
    reveal(links_hold);
    let after = costs.insert(link, cost);
    assert forall|p: PathElement, i: int|
        #![trigger closed.contains(p), graph.links(p.exit_sector)[i]]
        closed.contains(p) && 0 <= i < graph.links(p.exit_sector).len() && is_tried(
            Some((current, k + 1)),
            p,
            i,
        ) implies after.contains_key(graph.links(p.exit_sector)[i]) && after[graph.links(
            p.exit_sector,
        )[i]] <= after[p] + leg_cost(graph, p, graph.links(p.exit_sector)[i]) by {
        if p == current && i == k {
        } else {
            assert(is_tried(Some((current, k)), p, i));
        }
    }
}

/// A link that is tried without a new cost keeps `links_hold`, with one more
/// link tried.
proof fn lemma_links_after_keep(
    graph: &SectorGraph,
    costs: Map<PathElement, nat>,
    closed: Set<PathElement>,
    current: PathElement,
    k: nat,
    link: PathElement,
)
    requires
        links_hold(graph, costs, closed, Some((current, k))),
        k < graph.links(current.exit_sector).len(),
        link == graph.links(current.exit_sector)[k as int],
        !improves(graph, costs, current, costs[current], link),
    ensures
        links_hold(graph, costs, closed, Some((current, k + 1))),
{
    reveal(links_hold);
    assert forall|p: PathElement, i: int|
        #![trigger closed.contains(p), graph.links(p.exit_sector)[i]]
        closed.contains(p) && 0 <= i < graph.links(p.exit_sector).len() && is_tried(
            Some((current, k + 1)),
            p,
            i,
        ) implies costs.contains_key(graph.links(p.exit_sector)[i]) && costs[graph.links(
            p.exit_sector,
        )[i]] <= costs[p] + leg_cost(graph, p, graph.links(p.exit_sector)[i]) by {
        if p == current && i == k {
        } else {
            assert(is_tried(Some((current, k)), p, i));
        }
    }
}

/// A cost that gets lower keeps `seeds_hold`.
proof fn lemma_seeds_after_relax(
    graph: &SectorGraph,
    from: SectorId,
    from_position: Position,
    costs: Map<PathElement, nat>,
    link: PathElement,
    cost: nat,
)
    requires
        seeds_hold(graph, from, from_position, costs),
        !costs.contains_key(link) || cost <= costs[link],
    ensures
        seeds_hold(graph, from, from_position, costs.insert(link, cost)),
{
    reveal(seeds_hold);
}

/// A new cost whose candidate waits keeps `open_holds`.
proof fn lemma_open_after_relax(
    open: Multiset<Candidate>,
    costs: Map<PathElement, nat>,
    closed: Set<PathElement>,
    link: PathElement,
    cost: nat,
)
    requires
        open_holds(open, costs, closed),
        !costs.contains_key(link) || cost <= costs[link],
    ensures
        open_holds(
            open.insert(Candidate { element: link, cost }),
            costs.insert(link, cost),
            closed,
        ),
{
    reveal(open_holds);
    let added = Candidate { element: link, cost };
    let after = open.insert(added);
    let recorded = costs.insert(link, cost);
    assert forall|e: PathElement|
        #[trigger] recorded.contains_key(e) && !closed.contains(e) implies after.contains(
        Candidate { element: e, cost: recorded[e] },
    ) by {
        if e != link {
            assert(open.contains(Candidate { element: e, cost: costs[e] }));
        }
    }
    assert forall|c: Candidate| #[trigger] after.contains(c) implies recorded.contains_key(
        c.element,
    ) && recorded[c.element] <= c.cost by {
        if c != added {
            assert(open.contains(c));
        }
    }
}

/// A new predecessor that is closed, with its witness route extended, keeps
/// `chains_hold`.
proof fn lemma_chains_after_relax(
    costs: Map<PathElement, nat>,
    came_from: Map<PathElement, PathElement>,
    progress: Progress,
    current: PathElement,
    link: PathElement,
    cost: nat,
)
    requires
        chains_hold(costs, came_from, progress),
        progress.closed.contains(current),
        costs.contains_key(current),
        !progress.closed.contains(link),
    ensures
        chains_hold(
            costs.insert(link, cost),
            came_from.insert(link, current),
            Progress {
                closed: progress.closed,
                witness: progress.witness.insert(link, progress.witness[current].push(link)),
            },
        ),
{
    reveal(chains_hold);
}

/// Trying one more link of the element whose links are being tried keeps the
/// invariant, leaves the recorded cost of that element as it is, and records
/// no cost beyond the cap.
pub(crate) proof fn lemma_relax(
    graph: &SectorGraph,
    from: SectorId,
    from_position: Position,
    to: SectorId,
    state: SearchState,
    progress: Progress,
    current: PathElement,
    k: nat,
)
    requires
        search_inv(graph, from, from_position, to, state, progress, Some((current, k))),
        progress.closed.contains(current),
        k < graph.links(current.exit_sector).len(),
    ensures
        ({
            let link = graph.links(current.exit_sector)[k as int];
            let cost = state.costs[current];
            let after = relax(graph, state, current, cost, link);
            &&& search_inv(
                graph,
                from,
                from_position,
                to,
                after,
                relaxing(graph, state, progress, current, cost, link),
                Some((current, k + 1)),
            )
            &&& state.costs.contains_key(current)
            &&& after.costs.contains_key(current)
            &&& after.costs[current] == cost
            &&& cost + leg_cost(graph, current, link) <= cost_cap(progress.closed.len() + 1)
            &&& link.gate_pair.from < graph.gate_total()
            &&& current.gate_pair.to < graph.gate_total()
        }),
{
    let link = graph.links(current.exit_sector)[k as int];
    let costs = state.costs;
    let closed = progress.closed;
    let cost = costs[current] + leg_cost(graph, current, link);
    assert(is_link(graph, current.exit_sector, link));
    graph.lemma_link_is_valid(current.exit_sector, k as int);
    lemma_link_cost_is_bounded(graph, graph.position_of(current.gate_pair.to), link);
    assert(costs.contains_key(current) && costs[current] <= cost_cap(closed.len())) by {
        reveal(closed_hold);
        reveal(costs_are_capped);
    }
    lemma_reached_is_link(graph, from, from_position, costs, progress.witness, current);
    lemma_cost_cap(closed.len());
    if improves(graph, costs, current, costs[current], link) {
        lemma_improved_is_open(graph, from, from_position, to, costs, progress, current, link);
        lemma_witnesses_after_relax(
            graph,
            from,
            from_position,
            costs,
            progress.witness,
            link,
            cost,
            progress.witness[current].push(link),
        );
        lemma_capped_after_relax(costs, closed, current, link, cost);
        lemma_closed_after_relax(graph, from, from_position, to, costs, closed, link, cost);
        lemma_links_after_relax(graph, costs, closed, current, k, link, cost);
        lemma_seeds_after_relax(graph, from, from_position, costs, link, cost);
        lemma_open_after_relax(state.open, costs, closed, link, cost);
        lemma_chains_after_relax(costs, state.came_from, progress, current, link, cost);
    } else {
        lemma_links_after_keep(graph, costs, closed, current, k, link);
    }
}

/// Once the last link of the pending element has been tried, nothing is
/// pending; and what holds with nothing pending holds with anything pending.
pub(crate) proof fn lemma_pending(
    graph: &SectorGraph,
    costs: Map<PathElement, nat>,
    closed: Set<PathElement>,
    current: PathElement,
    k: nat,
)
    ensures
        links_hold(graph, costs, closed, Some((current, k))) && k >= graph.links(
            current.exit_sector,
        ).len() ==> links_hold(graph, costs, closed, None),
        links_hold(graph, costs, closed, None) ==> links_hold(
            graph,
            costs,
            closed,
            Some((current, k)),
        ),
{
    reveal(links_hold);
    if links_hold(graph, costs, closed, Some((current, k))) && k >= graph.links(
        current.exit_sector,
    ).len() {
        assert forall|p: PathElement, i: int|
            #![trigger closed.contains(p), graph.links(p.exit_sector)[i]]
            closed.contains(p) && 0 <= i < graph.links(p.exit_sector).len() && is_tried(
                None,
                p,
                i,
            ) implies costs.contains_key(graph.links(p.exit_sector)[i]) && costs[graph.links(
                p.exit_sector,
            )[i]] <= costs[p] + leg_cost(graph, p, graph.links(p.exit_sector)[i]) by {
            assert(is_tried(Some((current, k)), p, i));
        }
    }
}

/// Between two rounds, trying a link of a closed element changes nothing.
pub(crate) proof fn lemma_relax_settled(
    graph: &SectorGraph,
    state: SearchState,
    closed: Set<PathElement>,
    current: PathElement,
    k: nat,
)
    requires
        links_hold(graph, state.costs, closed, None),
        closed.contains(current),
        k < graph.links(current.exit_sector).len(),
    ensures
        relax(
            graph,
            state,
            current,
            state.costs[current],
            graph.links(current.exit_sector)[k as int],
        ) == state,
{
    reveal(links_hold);
    let link = graph.links(current.exit_sector)[k as int];
    assert(state.costs.contains_key(link));
}

/// The witness route of an element that is reached is its chain of
/// predecessors.
pub(crate) proof fn lemma_witness_is_chain(
    costs: Map<PathElement, nat>,
    came_from: Map<PathElement, PathElement>,
    progress: Progress,
    element: PathElement,
)
    requires
        chains_hold(costs, came_from, progress),
        costs.contains_key(element),
    ensures
        is_chain(came_from, progress.witness[element], element),
    decreases progress.witness[element].len(),
{
    reveal(chains_hold);
    if came_from.contains_key(element) {
        let before = came_from[element];
        let shorter = progress.witness[before];
        lemma_witness_is_chain(costs, came_from, progress, before);
        let chain = shorter.push(element);
        assert forall|i: int| 0 < i < chain.len() implies came_from.contains_key(
            #[trigger] chain[i],
        ) && came_from[chain[i]] == chain[i - 1] by {
            if i < shorter.len() {
                assert(came_from.contains_key(shorter[i]));
            }
        }
    }
}

/// Where the candidate that is looked at first lies in `to`, the witness
/// route of its element leads to `to`, no route to `to` is cheaper, and the
/// chain of predecessors spells it.
pub(crate) proof fn lemma_goal_reached(
    graph: &SectorGraph,
    from: SectorId,
    from_position: Position,
    to: SectorId,
    state: SearchState,
    progress: Progress,
    first: Candidate,
)
    requires
        search_inv(graph, from, from_position, to, state, progress, None),
        is_first(state.open, first),
        first.element.exit_sector == to,
    ensures
        is_route_to(graph, from, progress.witness[first.element], to),
        is_chain(state.came_from, progress.witness[first.element], first.element),
        forall|other: Seq<PathElement>| #[trigger]
            is_route_to(graph, from, other, to) ==> route_cost(
                graph,
                from_position,
                progress.witness[first.element],
            ) <= route_cost(graph, from_position, other),
{
    let element = first.element;
    assert(!progress.closed.contains(element)) by {
        reveal(closed_hold);
    }
    lemma_first_is_cheapest_open(state.open, state.costs, progress.closed, first);
    lemma_witness_is_chain(state.costs, state.came_from, progress, element);
    assert(is_route_to(graph, from, progress.witness[element], to) && route_cost(
        graph,
        from_position,
        progress.witness[element],
    ) == first.cost) by {
        reveal(witnesses_hold);
    }
    assert forall|other: Seq<PathElement>| #[trigger]
        is_route_to(graph, from, other, to) implies first.cost <= route_cost(
        graph,
        from_position,
        other,
    ) by {
        assert(!progress.closed.contains(other.last())) by {
            reveal(closed_hold);
        }
        lemma_first_beats_open_routes(
            graph,
            from,
            from_position,
            to,
            state,
            progress,
            first,
            other,
        );
    }
}

/// Where nothing waits, no route leads to `to`.
pub(crate) proof fn lemma_nothing_waits(
    graph: &SectorGraph,
    from: SectorId,
    from_position: Position,
    to: SectorId,
    state: SearchState,
    progress: Progress,
)
    requires
        search_inv(graph, from, from_position, to, state, progress, None),
        state.open.len() == 0,
    ensures
        forall|route: Seq<PathElement>| !#[trigger] is_route_to(graph, from, route, to),
{
    assert forall|route: Seq<PathElement>| !#[trigger] is_route_to(graph, from, route, to) by {
        if is_route_to(graph, from, route, to) {
            assert(!progress.closed.contains(route.last())) by {
                reveal(closed_hold);
            }
            lemma_route_meets_frontier(
                graph,
                from,
                from_position,
                to,
                state.costs,
                progress.closed,
                route,
            );
            let e = choose|e: PathElement|
                #![trigger state.costs.contains_key(e)]
                state.costs.contains_key(e) && !progress.closed.contains(e) && state.costs[e]
                    <= route_cost(graph, from_position, route);
            reveal(open_holds);
            assert(state.open.contains(Candidate { element: e, cost: state.costs[e] }));
            assert(false);
        }
    }
}

/// The progress of a search that has closed nothing: the witness route of
/// each element is the element alone.
pub open spec fn starting(state: SearchState) -> Progress {
    Progress {
        closed: Set::empty(),
        witness: Map::new(
            |e: PathElement| state.costs.contains_key(e),
            |e: PathElement| seq![e],
        ),
    }
}

/// What holds of the state after the first `n` links of the start sector have
/// been entered.
pub open spec fn seeds_entered(
    graph: &SectorGraph,
    from: SectorId,
    from_position: Position,
    state: SearchState,
    n: nat,
) -> bool {
    &&& state.came_from == Map::<PathElement, PathElement>::empty()
    &&& state.open.len() == n
    &&& forall|e: PathElement| #[trigger]
        state.costs.contains_key(e) ==> is_link(graph, from, e) && state.costs[e] == approach_cost(
            graph,
            from_position,
            e,
        )
    &&& forall|i: int| 0 <= i < n ==> state.costs.contains_key(#[trigger] graph.links(from)[i])
    &&& open_holds(state.open, state.costs, Set::empty())
}

/// `seeds_entered` holds of `seeded`.
pub(crate) proof fn lemma_seeds_entered(
    graph: &SectorGraph,
    from: SectorId,
    from_position: Position,
    n: nat,
)
    requires
        n <= graph.links(from).len(),
    ensures
        seeds_entered(graph, from, from_position, seeded(graph, from, from_position, n), n),
    decreases n,
{
    reveal(open_holds);
    if n > 0 {
        let before = seeded(graph, from, from_position, (n - 1) as nat);
        let after = seeded(graph, from, from_position, n);
        let link = graph.links(from)[n - 1];
        let added = Candidate { element: link, cost: approach_cost(graph, from_position, link) };
        lemma_seeds_entered(graph, from, from_position, (n - 1) as nat);
        assert forall|e: PathElement|
            #[trigger] after.costs.contains_key(e) && !Set::<PathElement>::empty().contains(
                e,
            ) implies after.open.contains(Candidate { element: e, cost: after.costs[e] }) by {
            if e != link {
                assert(before.open.contains(Candidate { element: e, cost: before.costs[e] }));
            }
        }
        assert forall|c: Candidate| #[trigger]
            after.open.contains(c) implies after.costs.contains_key(c.element)
            && after.costs[c.element] <= c.cost by {
            if c != added {
                assert(before.open.contains(c));
            }
        }
        assert forall|i: int| 0 <= i < n implies after.costs.contains_key(
            #[trigger] graph.links(from)[i],
        ) by {
            if i < n - 1 {
                assert(before.costs.contains_key(graph.links(from)[i]));
            }
        }
    }
}

/// Once every link of the start sector has been entered, the invariant holds.
pub(crate) proof fn lemma_search_starts(
    graph: &SectorGraph,
    from: SectorId,
    from_position: Position,
    to: SectorId,
)
    requires
        graph.wf(),
    ensures
        ({
            let state = seeded(graph, from, from_position, graph.links(from).len());
            &&& search_inv(graph, from, from_position, to, state, starting(state), None)
            &&& state.open.len() == graph.links(from).len()
        }),
{
    let state = seeded(graph, from, from_position, graph.links(from).len());
    let progress = starting(state);
    lemma_seeds_entered(graph, from, from_position, graph.links(from).len());
    lemma_cost_cap(0);
    assert(witnesses_hold(graph, from, from_position, state.costs, progress.witness)) by {
        reveal(witnesses_hold);
        assert forall|e: PathElement| #[trigger] state.costs.contains_key(e) implies is_route(
            graph,
            from,
            progress.witness[e],
        ) && progress.witness[e].last() == e && route_cost(
            graph,
            from_position,
            progress.witness[e],
        ) == state.costs[e] by {
            assert(progress.witness[e] == seq![e]);
            assert(is_link(graph, from, e));
        }
    }
    assert(costs_are_capped(state.costs, progress.closed)) by {
        reveal(costs_are_capped);
        assert forall|e: PathElement| #[trigger] state.costs.contains_key(e) implies state.costs[e]
            <= cost_cap(progress.closed.len() + 1) by {
            lemma_link_cost_is_bounded(graph, from_position, e);
        }
    }
    assert(closed_hold(graph, from, from_position, to, state.costs, progress.closed)) by {
        reveal(closed_hold);
    }
    assert(links_hold(graph, state.costs, progress.closed, None)) by {
        reveal(links_hold);
    }
    assert(seeds_hold(graph, from, from_position, state.costs)) by {
        reveal(seeds_hold);
    }
    assert(chains_hold(state.costs, state.came_from, progress)) by {
        reveal(chains_hold);
    }
}

} // verus!
