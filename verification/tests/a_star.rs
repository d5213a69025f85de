use sector_routing::pathfinding::a_star::a_star;
use sector_routing::pathfinding::find_path;
use sector_routing::pathfinding::route::cost;
use sector_routing::pathfinding::search_node::GATE_COST;
use sector_routing::position::Position;
use sector_routing::sector::{GatePairInSector, PathElement, SectorGraph, SectorId};

type Hex = (i32, i32);

const LEFT2: Hex = (-2, 0);
const LEFT: Hex = (-1, 0);
const CENTER_LEFT_TOP: Hex = (-1, 1);
const CENTER: Hex = (0, 0);
const CENTER_RIGHT_TOP: Hex = (1, 1);
const RIGHT: Hex = (1, 0);
const RIGHT2: Hex = (2, 0);

const ZERO: (f32, f32) = (0.0, 0.0);
const X: (f32, f32) = (1.0, 0.0);
const NEG_X: (f32, f32) = (-1.0, 0.0);

const SECTOR_SIZE: f32 = 500.0;

/// Where a point of a sector lies in the world, for a layout of pointy hexes.
fn world_position(hex: Hex, local: (f32, f32)) -> Position {
    let q = hex.0 as f32;
    let r = hex.1 as f32;
    let x = SECTOR_SIZE * (3.0f32.sqrt() * q + 3.0f32.sqrt() / 2.0 * r) + local.0;
    let y = SECTOR_SIZE * 1.5 * r + local.1;
    Position::new(x.round() as i32, y.round() as i32)
}

struct Universe {
    graph: SectorGraph,
    hexes: Vec<Hex>,
}

impl Universe {
    fn new() -> Universe {
        Universe { graph: SectorGraph::new(), hexes: Vec::new() }
    }

    fn add_sector(&mut self, hex: Hex) {
        let id = self.graph.add_sector();
        assert_eq!(id, self.hexes.len());
        self.hexes.push(hex);
    }

    fn sector(&self, hex: Hex) -> SectorId {
        self.hexes.iter().position(|h| *h == hex).unwrap()
    }

    fn add_gates(&mut self, from: (Hex, (f32, f32)), to: (Hex, (f32, f32))) {
        let from_sector = self.sector(from.0);
        let to_sector = self.sector(to.0);
        let from_gate = self.graph.add_gate_at(world_position(from.0, from.1));
        let to_gate = self.graph.add_gate_at(world_position(to.0, to.1));
        assert!(self.graph.add_gate(from_sector, from_gate, to_sector, to_gate));
        assert!(self.graph.add_gate(to_sector, to_gate, from_sector, from_gate));
    }
}

#[test]
fn find_path_to_neighbor() {
    let mut universe = Universe::new();
    universe.add_sector(CENTER);
    universe.add_sector(RIGHT);
    universe.add_gates((CENTER, ZERO), (RIGHT, ZERO));

    let result = find_path(
        &universe.graph,
        universe.sector(CENTER),
        Position::new(0, 0),
        universe.sector(RIGHT),
    )
    .unwrap();

    assert_eq!(result.len(), 1);
    assert_eq!(result[0].exit_sector, universe.sector(RIGHT));
}

#[test]
fn find_path_through_single_sector() {
    let mut universe = Universe::new();
    universe.add_sector(LEFT);
    universe.add_sector(CENTER);
    universe.add_sector(RIGHT);
    universe.add_gates((LEFT, NEG_X), (CENTER, NEG_X));
    universe.add_gates((CENTER, X), (RIGHT, X));

    let result = find_path(
        &universe.graph,
        universe.sector(LEFT),
        Position::new(0, 0),
        universe.sector(RIGHT),
    )
    .unwrap();

    assert_eq!(result.len(), 2);
    assert_eq!(result[0].exit_sector, universe.sector(CENTER));
    assert_eq!(result[1].exit_sector, universe.sector(RIGHT));
}

#[test]
fn find_path_through_multiple_sectors() {
    let mut universe = Universe::new();
    universe.add_sector(LEFT);
    universe.add_sector(LEFT2);
    universe.add_sector(CENTER);
    universe.add_sector(RIGHT);
    universe.add_sector(RIGHT2);
    universe.add_gates((LEFT2, X), (LEFT, NEG_X));
    universe.add_gates((LEFT, X), (CENTER, NEG_X));
    universe.add_gates((CENTER, X), (RIGHT, NEG_X));
    universe.add_gates((RIGHT, X), (RIGHT2, NEG_X));

    let result = find_path(
        &universe.graph,
        universe.sector(LEFT2),
        Position::new(0, 0),
        universe.sector(RIGHT2),
    )
    .unwrap();

    assert_eq!(result.len(), 4);
    assert_eq!(result[0].exit_sector, universe.sector(LEFT));
    assert_eq!(result[1].exit_sector, universe.sector(CENTER));
    assert_eq!(result[2].exit_sector, universe.sector(RIGHT));
    assert_eq!(result[3].exit_sector, universe.sector(RIGHT2));
}

#[test]
fn find_path_through_multiple_sectors_with_multiple_routes_returns_shortest_path() {
    let mut universe = Universe::new();
    universe.add_sector(LEFT);
    universe.add_sector(LEFT2);
    universe.add_sector(CENTER_LEFT_TOP);
    universe.add_sector(CENTER);
    universe.add_sector(CENTER_RIGHT_TOP);
    universe.add_sector(RIGHT);
    universe.add_sector(RIGHT2);
    universe.add_gates((LEFT2, X), (LEFT, NEG_X));
    universe.add_gates((LEFT, X), (CENTER, NEG_X));
    universe.add_gates((CENTER, X), (RIGHT, NEG_X));
    universe.add_gates((RIGHT, X), (RIGHT2, NEG_X));

    universe.add_gates((LEFT, X), (CENTER_LEFT_TOP, NEG_X));
    universe.add_gates((CENTER_LEFT_TOP, X), (CENTER_RIGHT_TOP, NEG_X));
    universe.add_gates((CENTER_RIGHT_TOP, X), (RIGHT, NEG_X));

    let result = find_path(
        &universe.graph,
        universe.sector(LEFT2),
        Position::new(0, 0),
        universe.sector(RIGHT2),
    )
    .unwrap();

    assert_eq!(result.len(), 4);
    assert_eq!(result[0].exit_sector, universe.sector(LEFT));
    assert_eq!(result[1].exit_sector, universe.sector(CENTER));
    assert_eq!(result[2].exit_sector, universe.sector(RIGHT));
    assert_eq!(result[3].exit_sector, universe.sector(RIGHT2));
}

/// Sectors 0, 1, 2 in a row, every gate at the origin of its own. Returns the
/// graph and its gate pairs 0 -> 1 and 1 -> 2.
fn row_of_three() -> (SectorGraph, GatePairInSector, GatePairInSector) {
    let mut graph = SectorGraph::new();
    for _ in 0..3 {
        graph.add_sector();
    }
    let a = graph.add_gate_at(Position::new(3, 4));
    let b = graph.add_gate_at(Position::new(100, 0));
    let c = graph.add_gate_at(Position::new(106, 8));
    let d = graph.add_gate_at(Position::new(200, 0));
    assert!(graph.add_gate(0, a, 1, b));
    assert!(graph.add_gate(1, b, 0, a));
    assert!(graph.add_gate(1, c, 2, d));
    assert!(graph.add_gate(2, d, 1, c));
    (graph, GatePairInSector { from: a, to: b }, GatePairInSector { from: c, to: d })
}

#[test]
fn route_names_the_gate_pairs_in_travel_order() {
    let (graph, first, second) = row_of_three();
    let route = a_star(&graph, 0, Position::new(0, 0), 2).unwrap();
    assert_eq!(
        route,
        vec![PathElement::new(1, first), PathElement::new(2, second)]
    );
}

#[test]
fn no_route_between_disconnected_sectors() {
    let mut universe = Universe::new();
    universe.add_sector(LEFT);
    universe.add_sector(CENTER);
    universe.add_sector(RIGHT);
    universe.add_gates((LEFT, X), (CENTER, NEG_X));

    let result = a_star(
        &universe.graph,
        universe.sector(LEFT),
        Position::new(0, 0),
        universe.sector(RIGHT),
    );
    assert!(result.is_none());
}

#[test]
fn no_route_from_a_sector_without_gates() {
    let mut graph = SectorGraph::new();
    graph.add_sector();
    graph.add_sector();
    assert!(a_star(&graph, 0, Position::new(0, 0), 1).is_none());
    assert!(a_star(&graph, 0, Position::new(0, 0), 0).is_none());
}

#[test]
fn no_route_to_a_sector_that_does_not_exist() {
    let (graph, _, _) = row_of_three();
    assert!(a_star(&graph, 0, Position::new(0, 0), 17).is_none());
}

#[test]
fn route_to_the_start_sector_leaves_and_comes_back() {
    let (graph, first, _) = row_of_three();
    let route = a_star(&graph, 0, Position::new(0, 0), 0).unwrap();
    assert_eq!(
        route,
        vec![
            PathElement::new(1, first),
            PathElement::new(0, GatePairInSector { from: first.to, to: first.from }),
        ]
    );
}

#[test]
fn cost_is_squared_distance_plus_gate_cost() {
    let (graph, _, _) = row_of_three();
    assert_eq!(GATE_COST, 200);
    // Towards sector 1 a gate lies at (3, 4).
    assert_eq!(cost(&graph, 0, Position::new(0, 0), 1), Some(25 + 200));
    assert_eq!(cost(&graph, 0, Position::new(3, 4), 1), Some(200));
    assert_eq!(cost(&graph, 0, Position::new(-7, 4), 1), Some(100 + 200));
    // In sector 1 a gate towards sector 2 lies at (106, 8).
    assert_eq!(cost(&graph, 1, Position::new(100, 0), 2), Some(36 + 64 + 200));
}

#[test]
fn cost_within_one_sector_is_zero() {
    let (graph, _, _) = row_of_three();
    assert_eq!(cost(&graph, 1, Position::new(55, 55), 1), Some(0));
}

#[test]
fn cost_to_a_sector_that_is_not_a_neighbor_is_none() {
    let (graph, _, _) = row_of_three();
    assert_eq!(cost(&graph, 0, Position::new(0, 0), 2), None);
    assert_eq!(cost(&graph, 2, Position::new(0, 0), 0), None);
}

#[test]
fn cost_of_extreme_positions_does_not_overflow() {
    let mut graph = SectorGraph::new();
    graph.add_sector();
    graph.add_sector();
    let a = graph.add_gate_at(Position::new(i32::MAX, i32::MAX));
    let b = graph.add_gate_at(Position::new(0, 0));
    assert!(graph.add_gate(0, a, 1, b));
    let side = (i32::MAX as i128 - i32::MIN as i128) as u128;
    assert_eq!(
        cost(&graph, 0, Position::new(i32::MIN, i32::MIN), 1),
        Some(2 * side * side + 200)
    );
    let route = a_star(&graph, 0, Position::new(i32::MIN, i32::MIN), 1).unwrap();
    assert_eq!(route.len(), 1);
}

/// Two ways from sector 0 to sector 3: over sector 1 with gates far apart,
/// over sector 2 with gates close together.
fn two_ways(far: i32) -> SectorGraph {
    let mut graph = SectorGraph::new();
    for _ in 0..4 {
        graph.add_sector();
    }
    let origin = Position::new(0, 0);
    // 0 <-> 1, then across sector 1 over `far` units, 1 <-> 3
    let g01 = graph.add_gate_at(origin);
    let g10 = graph.add_gate_at(origin);
    let g13 = graph.add_gate_at(Position::new(far, 0));
    let g31 = graph.add_gate_at(origin);
    // 0 <-> 2, then across sector 2 over 10 units, 2 <-> 3
    let g02 = graph.add_gate_at(origin);
    let g20 = graph.add_gate_at(origin);
    let g23 = graph.add_gate_at(Position::new(10, 0));
    let g32 = graph.add_gate_at(origin);
    assert!(graph.add_gate(0, g01, 1, g10));
    assert!(graph.add_gate(1, g10, 0, g01));
    assert!(graph.add_gate(1, g13, 3, g31));
    assert!(graph.add_gate(3, g31, 1, g13));
    assert!(graph.add_gate(0, g02, 2, g20));
    assert!(graph.add_gate(2, g20, 0, g02));
    assert!(graph.add_gate(2, g23, 3, g32));
    assert!(graph.add_gate(3, g32, 2, g23));
    graph
}

#[test]
fn cheaper_of_two_routes_with_equal_hops_is_taken() {
    let over_two = a_star(&two_ways(11), 0, Position::new(0, 0), 3).unwrap();
    assert_eq!(over_two.len(), 2);
    assert_eq!(over_two[0].exit_sector, 2);
    assert_eq!(over_two[1].exit_sector, 3);

    let over_one = a_star(&two_ways(9), 0, Position::new(0, 0), 3).unwrap();
    assert_eq!(over_one.len(), 2);
    assert_eq!(over_one[0].exit_sector, 1);
    assert_eq!(over_one[1].exit_sector, 3);
}

#[test]
fn equal_costs_are_settled_by_the_smaller_sector() {
    let route = a_star(&two_ways(10), 0, Position::new(0, 0), 3).unwrap();
    assert_eq!(route.len(), 2);
    assert_eq!(route[0].exit_sector, 1);
    assert_eq!(route[1].exit_sector, 3);
}

#[test]
fn more_hops_are_taken_where_they_cost_less() {
    // Directly from 0 to 1 a gate is 100 units away: 10_000.
    // Over sector 2 every gate is at hand: 0 + (0 + 200) = 200.
    let mut graph = SectorGraph::new();
    for _ in 0..3 {
        graph.add_sector();
    }
    let origin = Position::new(0, 0);
    let far = graph.add_gate_at(Position::new(100, 0));
    let far_side = graph.add_gate_at(origin);
    let g02 = graph.add_gate_at(origin);
    let g20 = graph.add_gate_at(origin);
    let g21 = graph.add_gate_at(origin);
    let g12 = graph.add_gate_at(origin);
    assert!(graph.add_gate(0, far, 1, far_side));
    assert!(graph.add_gate(1, far_side, 0, far));
    assert!(graph.add_gate(0, g02, 2, g20));
    assert!(graph.add_gate(2, g20, 0, g02));
    assert!(graph.add_gate(2, g21, 1, g12));
    assert!(graph.add_gate(1, g12, 2, g21));

    let route = a_star(&graph, 0, origin, 1).unwrap();
    assert_eq!(
        route,
        vec![
            PathElement::new(2, GatePairInSector { from: g02, to: g20 }),
            PathElement::new(1, GatePairInSector { from: g21, to: g12 }),
        ]
    );

    // From next to the far gate, the direct way is the cheapest.
    let route = a_star(&graph, 0, Position::new(95, 0), 1).unwrap();
    assert_eq!(route, vec![PathElement::new(1, GatePairInSector { from: far, to: far_side })]);
}

#[test]
fn first_gate_is_not_charged_for_its_crossing() {
    // Two ways into sector 1. Through the near pair the ship comes out 15
    // units from where the far pair would have let it out, and one more hop
    // from there costs 15 * 15 + 200 = 425 against 0 + 200. Were the first
    // crossing charged like the others, nothing would change here; the
    // approach alone decides: 20 * 20 = 400 + 200 < 0 + 425.
    let mut graph = SectorGraph::new();
    for _ in 0..3 {
        graph.add_sector();
    }
    let near = graph.add_gate_at(Position::new(0, 0));
    let near_side = graph.add_gate_at(Position::new(15, 0));
    let far = graph.add_gate_at(Position::new(20, 0));
    let far_side = graph.add_gate_at(Position::new(0, 0));
    let on = graph.add_gate_at(Position::new(0, 0));
    let on_side = graph.add_gate_at(Position::new(0, 0));
    assert!(graph.add_gate(0, near, 1, near_side));
    assert!(graph.add_gate(0, far, 1, far_side));
    assert!(graph.add_gate(1, on, 2, on_side));

    let route = a_star(&graph, 0, Position::new(0, 0), 2).unwrap();
    assert_eq!(
        route,
        vec![
            PathElement::new(1, GatePairInSector { from: near, to: near_side }),
            PathElement::new(2, GatePairInSector { from: on, to: on_side }),
        ]
    );

    let route = a_star(&graph, 0, Position::new(12, 0), 2).unwrap();
    assert_eq!(
        route,
        vec![
            PathElement::new(1, GatePairInSector { from: far, to: far_side }),
            PathElement::new(2, GatePairInSector { from: on, to: on_side }),
        ]
    );
}

#[test]
fn two_gate_pairs_into_one_sector_are_told_apart() {
    let mut graph = SectorGraph::new();
    graph.add_sector();
    graph.add_sector();
    let a = graph.add_gate_at(Position::new(50, 0));
    let a_side = graph.add_gate_at(Position::new(0, 0));
    let b = graph.add_gate_at(Position::new(0, 30));
    let b_side = graph.add_gate_at(Position::new(0, 0));
    assert!(graph.add_gate(0, a, 1, a_side));
    assert!(graph.add_gate(0, b, 1, b_side));

    let route = a_star(&graph, 0, Position::new(0, 0), 1).unwrap();
    assert_eq!(route, vec![PathElement::new(1, GatePairInSector { from: b, to: b_side })]);
    let route = a_star(&graph, 0, Position::new(50, 10), 1).unwrap();
    assert_eq!(route, vec![PathElement::new(1, GatePairInSector { from: a, to: a_side })]);
}

#[test]
fn links_are_one_way_unless_added_both_ways() {
    let mut graph = SectorGraph::new();
    graph.add_sector();
    graph.add_sector();
    let a = graph.add_gate_at(Position::new(0, 0));
    let b = graph.add_gate_at(Position::new(0, 0));
    assert!(graph.add_gate(0, a, 1, b));
    assert!(a_star(&graph, 0, Position::new(0, 0), 1).is_some());
    assert!(a_star(&graph, 1, Position::new(0, 0), 0).is_none());
}

#[test]
fn route_search_handles_cycles() {
    // A ring of six sectors: the way round the short side is taken.
    let mut graph = SectorGraph::new();
    for _ in 0..6 {
        graph.add_sector();
    }
    for s in 0..6usize {
        let t = (s + 1) % 6;
        let out = graph.add_gate_at(Position::new(0, 0));
        let back = graph.add_gate_at(Position::new(0, 0));
        assert!(graph.add_gate(s, out, t, back));
        assert!(graph.add_gate(t, back, s, out));
    }
    let route = a_star(&graph, 0, Position::new(0, 0), 2).unwrap();
    let sectors: Vec<SectorId> = route.iter().map(|e| e.exit_sector).collect();
    assert_eq!(sectors, vec![1, 2]);
    let route = a_star(&graph, 0, Position::new(0, 0), 4).unwrap();
    let sectors: Vec<SectorId> = route.iter().map(|e| e.exit_sector).collect();
    assert_eq!(sectors, vec![5, 4]);
}

#[test]
fn route_search_gives_the_same_route_every_time() {
    let graph = two_ways(10);
    let first = a_star(&graph, 0, Position::new(3, 3), 3);
    for _ in 0..10 {
        assert_eq!(a_star(&graph, 0, Position::new(3, 3), 3), first);
    }
    let rebuilt = two_ways(10);
    assert_eq!(a_star(&rebuilt, 0, Position::new(3, 3), 3), first);
}
