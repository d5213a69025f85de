use sector_routing::position::Position;
use sector_routing::sector::{GatePairInSector, PathElement, SectorGraph, MAX_LINKS};

#[test]
fn new_graph_is_empty() {
    let graph = SectorGraph::new();
    assert_eq!(graph.sector_count(), 0);
    assert_eq!(graph.gate_count(), 0);
}

#[test]
fn sectors_and_gates_are_numbered_in_order() {
    let mut graph = SectorGraph::new();
    assert_eq!(graph.add_sector(), 0);
    assert_eq!(graph.add_sector(), 1);
    assert_eq!(graph.add_gate_at(Position::new(5, -6)), 0);
    assert_eq!(graph.add_gate_at(Position::new(-7, 8)), 1);
    assert_eq!(graph.add_sector(), 2);
    assert_eq!(graph.sector_count(), 3);
    assert_eq!(graph.gate_count(), 2);
    assert_eq!(graph.gate_position(0), Position::new(5, -6));
    assert_eq!(graph.gate_position(1), Position { x: -7, y: 8 });
    assert!(graph.links_of(2).is_empty());
}

#[test]
fn add_gate_records_a_link_in_its_sector_only() {
    let mut graph = SectorGraph::new();
    graph.add_sector();
    graph.add_sector();
    let here = graph.add_gate_at(Position::new(0, 0));
    let there = graph.add_gate_at(Position::new(1, 1));
    assert!(graph.add_gate(0, here, 1, there));
    assert_eq!(
        graph.links_of(0),
        &vec![PathElement {
            exit_sector: 1,
            gate_pair: GatePairInSector { from: here, to: there }
        }]
    );
    assert!(graph.links_of(1).is_empty());
}

#[test]
fn add_gate_keeps_several_links_into_one_sector_in_order() {
    let mut graph = SectorGraph::new();
    graph.add_sector();
    graph.add_sector();
    let a = graph.add_gate_at(Position::new(0, 0));
    let b = graph.add_gate_at(Position::new(1, 1));
    let c = graph.add_gate_at(Position::new(2, 2));
    assert!(graph.add_gate(0, a, 1, b));
    assert!(graph.add_gate(0, c, 1, b));
    assert!(graph.add_gate(0, a, 1, b));
    let links = graph.links_of(0);
    assert_eq!(links.len(), 3);
    assert_eq!(links[0], PathElement::new(1, GatePairInSector { from: a, to: b }));
    assert_eq!(links[1], PathElement::new(1, GatePairInSector { from: c, to: b }));
    assert_eq!(links[2], links[0]);
}

#[test]
fn add_gate_refuses_what_is_not_in_the_graph() {
    let mut graph = SectorGraph::new();
    graph.add_sector();
    graph.add_sector();
    let a = graph.add_gate_at(Position::new(0, 0));
    let b = graph.add_gate_at(Position::new(1, 1));
    assert!(!graph.add_gate(2, a, 1, b));
    assert!(!graph.add_gate(0, a, 2, b));
    assert!(!graph.add_gate(0, 2, 1, b));
    assert!(!graph.add_gate(0, a, 1, 2));
    assert!(graph.links_of(0).is_empty());
    assert!(graph.links_of(1).is_empty());
}

#[test]
fn add_gate_refuses_a_link_from_a_sector_into_itself() {
    let mut graph = SectorGraph::new();
    graph.add_sector();
    let a = graph.add_gate_at(Position::new(0, 0));
    let b = graph.add_gate_at(Position::new(1, 1));
    assert!(!graph.add_gate(0, a, 0, b));
    assert!(graph.links_of(0).is_empty());
}

#[test]
fn graph_holds_a_great_many_links() {
    assert_eq!(MAX_LINKS, u32::MAX);
    let mut graph = SectorGraph::new();
    graph.add_sector();
    graph.add_sector();
    let a = graph.add_gate_at(Position::new(0, 0));
    let b = graph.add_gate_at(Position::new(1, 1));
    for _ in 0..10_000 {
        assert!(graph.add_gate(0, a, 1, b));
    }
    assert_eq!(graph.links_of(0).len(), 10_000);
}

#[test]
fn squared_distance_between_positions() {
    assert_eq!(Position::new(0, 0).distance_squared(Position::new(0, 0)), 0);
    assert_eq!(Position::new(0, 0).distance_squared(Position::new(3, 4)), 25);
    assert_eq!(Position::new(3, 4).distance_squared(Position::new(0, 0)), 25);
    assert_eq!(Position::new(-2, -3).distance_squared(Position::new(4, 5)), 36 + 64);
    assert_eq!(Position::new(1, 1).distance_squared(Position::new(1, -9)), 100);
}

#[test]
fn squared_distance_between_the_farthest_positions() {
    let low = Position::new(i32::MIN, i32::MIN);
    let high = Position::new(i32::MAX, i32::MAX);
    let side: u128 = u32::MAX as u128;
    assert_eq!(low.distance_squared(high), 2 * side * side);
    assert_eq!(high.distance_squared(low), 2 * side * side);
    assert_eq!(low.distance_squared(Position::new(i32::MIN, i32::MAX)), side * side);
}
