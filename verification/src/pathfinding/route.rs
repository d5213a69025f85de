//! Routes through the graph and what they cost.

use vstd::prelude::*;
use crate::pathfinding::search_node::GATE_COST;
use crate::position::{lemma_squared_distance, squared_distance, Position};
use crate::sector::{PathElement, SectorGraph, SectorId};

verus! {

/// Whether `link` leaves `sector`.
pub open spec fn is_link(graph: &SectorGraph, sector: SectorId, link: PathElement) -> bool {
    graph.links(sector).contains(link)
}

/// The cost of the way from `from_position` to that gate through which `link`
/// leaves.
pub open spec fn approach_cost(
    graph: &SectorGraph,
    from_position: Position,
    link: PathElement,
) -> nat {
    squared_distance(from_position, graph.position_of(link.gate_pair.from))
}

/// The cost of taking `link` from `from_position`: the way to its gate, and
/// the crossing.
pub open spec fn link_cost(graph: &SectorGraph, from_position: Position, link: PathElement) -> nat {
    approach_cost(graph, from_position, link) + GATE_COST as nat
}

/// The cost of taking `link` after having arrived through `previous`: the ship
/// starts where `previous` let it out.
pub open spec fn leg_cost(graph: &SectorGraph, previous: PathElement, link: PathElement) -> nat {
    link_cost(graph, graph.position_of(previous.gate_pair.to), link)
}

/// No single link costs more than this.
pub open spec fn max_link_cost() -> nat {
    0x4_0000_0000_0000_0000
}

/// Neither the way to a gate nor a whole link costs more than
/// `max_link_cost()`.
pub proof fn lemma_link_cost_is_bounded(
    graph: &SectorGraph,
    from_position: Position,
    link: PathElement,
)
    ensures
        approach_cost(graph, from_position, link) <= max_link_cost(),
        link_cost(graph, from_position, link) <= max_link_cost(),
{
    lemma_squared_distance(from_position, graph.position_of(link.gate_pair.from));
}

/// Whether `route` can be travelled from sector `from`: it has a first
/// element, which leaves `from`, and each further element leaves the sector
/// into which the one before it leads.
pub open spec fn is_route(graph: &SectorGraph, from: SectorId, route: Seq<PathElement>) -> bool {
    &&& route.len() > 0
    &&& is_link(graph, from, route[0])
    &&& forall|i: int|
        0 < i < route.len() ==> is_link(graph, route[i - 1].exit_sector, #[trigger] route[i])
}

/// Whether `route` can be travelled from sector `from` and ends in sector `to`.
pub open spec fn is_route_to(
    graph: &SectorGraph,
    from: SectorId,
    route: Seq<PathElement>,
    to: SectorId,
) -> bool {
    is_route(graph, from, route) && route.last().exit_sector == to
}

/// What `route` costs a ship that starts at `from_position`: the way to the
/// first gate, without its crossing, and for each further element the way
/// from where the ship came out to its next gate, and the crossing.
pub open spec fn route_cost(
    graph: &SectorGraph,
    from_position: Position,
    route: Seq<PathElement>,
) -> nat
    decreases route.len(),
{
    if route.len() == 0 {
        0
    } else if route.len() == 1 {
        approach_cost(graph, from_position, route[0])
    } else {
        route_cost(graph, from_position, route.drop_last()) + leg_cost(
            graph,
            route[route.len() - 2],
            route.last(),
        )
    }
}

/// The first of `links` that leads to `to`, if any does.
pub open spec fn link_to(links: Seq<PathElement>, to: SectorId) -> Option<PathElement>
    decreases links.len(),
{
    if links.len() == 0 {
        None
    } else {
        match link_to(links.drop_last(), to) {
            Some(link) => Some(link),
            None => if links.last().exit_sector == to {
                Some(links.last())
            } else {
                None
            },
        }
    }
}

/// The cost of going from `from_position` in `from_sector` into `to`: nothing
/// where the two sectors are one; else the cost of the first link that leads
/// there; `None` where no link does.
pub open spec fn cost_between(
    graph: &SectorGraph,
    from_sector: SectorId,
    from_position: Position,
    to: SectorId,
) -> Option<nat> {
    if from_sector == to {
        Some(0)
    } else {
        match link_to(graph.links(from_sector), to) {
            Some(link) => Some(link_cost(graph, from_position, link)),
            None => None,
        }
    }
}

/// A link found among the first `n` links is the one found among all.
proof fn lemma_link_to_prefix(links: Seq<PathElement>, to: SectorId, n: int)
    requires
        0 <= n <= links.len(),
        link_to(links.take(n), to) is Some,
    ensures
        link_to(links, to) == link_to(links.take(n), to),
    decreases links.len() - n,
{
    if n < links.len() {
        assert(links.take(n + 1).drop_last() =~= links.take(n));
        lemma_link_to_prefix(links, to, n + 1);
    } else {
        assert(links.take(n) =~= links);
    }
}

/// The cost of taking `link` from `from_position`.
pub fn cost_through(sectors: &SectorGraph, from_position: Position, link: PathElement) -> (cost:
    u128)
    requires
        link.gate_pair.from < sectors.gate_total(),
    ensures
        cost == link_cost(sectors, from_position, link),
{
    proof {
        lemma_link_cost_is_bounded(sectors, from_position, link);
    }
    from_position.distance_squared(sectors.gate_position(link.gate_pair.from)) + GATE_COST
}

/// The cost of going from `from_pos_in_sector` in `from_sector` into `to`.
pub fn cost(
    sectors: &SectorGraph,
    from_sector: SectorId,
    from_pos_in_sector: Position,
    to: SectorId,
) -> (result: Option<u128>)
    requires
        sectors.wf(),
        from_sector < sectors.sector_total(),
    ensures
        match result {
            Some(c) => cost_between(sectors, from_sector, from_pos_in_sector, to) == Some(
                c as nat,
            ),
            None => cost_between(sectors, from_sector, from_pos_in_sector, to) is None,
        },
{
    if from_sector == to {
        return Some(0);
    }
    let links = sectors.links_of(from_sector);
    let mut i: usize = 0;
    while i < links.len()
        invariant
            0 <= i <= links.len(),
            sectors.wf(),
            links@ == sectors.links(from_sector),
            link_to(links@.take(i as int), to) is None,
        decreases links.len() - i,
    {
        proof {
            assert(links@.take(i + 1).drop_last() =~= links@.take(i as int));
        }
        if links[i].exit_sector == to {
            proof {
                lemma_link_to_prefix(links@, to, i + 1);
                sectors.lemma_link_is_valid(from_sector, i as int);
            }
            return Some(cost_through(sectors, from_pos_in_sector, links[i]));
        }
        i = i + 1;
    }
    proof {
        assert(links@.take(i as int) =~= links@);
    }
    None
}

} // verus!
