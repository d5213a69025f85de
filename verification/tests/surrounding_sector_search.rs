use sector_routing::pathfinding::search_result::SearchResult;
use sector_routing::pathfinding::surrounding_sector_search::surrounding_sector_search;
use sector_routing::position::Position;
use sector_routing::sector::{SectorGraph, SectorId};

type Hex = (i32, i32);

const LEFT: Hex = (-1, 0);
const CENTER: Hex = (0, 0);
const RIGHT: Hex = (1, 0);

const X: (i32, i32) = (1, 0);
const NEG_X: (i32, i32) = (-1, 0);

/// What is known of the asteroids of a sector.
struct SectorAsteroidData {
    average_velocity: (i32, i32),
    live_asteroids: Vec<u32>,
}

fn some_asteroids() -> Option<SectorAsteroidData> {
    Some(SectorAsteroidData { average_velocity: (1, 1), live_asteroids: Vec::new() })
}

fn has_asteroids(_asteroids: &SectorAsteroidData) -> bool {
    true
}

struct Universe {
    graph: SectorGraph,
    hexes: Vec<Hex>,
    asteroids: Vec<Option<SectorAsteroidData>>,
}

impl Universe {
    fn new() -> Universe {
        Universe { graph: SectorGraph::new(), hexes: Vec::new(), asteroids: Vec::new() }
    }

    fn add_sector(&mut self, hex: Hex, asteroids: Option<SectorAsteroidData>) {
        self.graph.add_sector();
        self.hexes.push(hex);
        self.asteroids.push(asteroids);
    }

    fn sector(&self, hex: Hex) -> SectorId {
        self.hexes.iter().position(|h| *h == hex).unwrap()
    }

    fn add_gates(&mut self, from: (Hex, (i32, i32)), to: (Hex, (i32, i32))) {
        let from_sector = self.sector(from.0);
        let to_sector = self.sector(to.0);
        let from_gate =
            self.graph.add_gate_at(Position::new(from.0 .0 * 866 + from.1 .0, from.1 .1));
        let to_gate = self.graph.add_gate_at(Position::new(to.0 .0 * 866 + to.1 .0, to.1 .1));
        assert!(self.graph.add_gate(from_sector, from_gate, to_sector, to_gate));
        assert!(self.graph.add_gate(to_sector, to_gate, from_sector, from_gate));
    }
}

fn test_breadth_search(
    universe: &Universe,
    from_sector: Hex,
    max_range: u8,
    expected_result: Vec<(u8, Hex)>,
) {
    let result = surrounding_sector_search(
        &universe.graph,
        universe.sector(from_sector),
        max_range,
        &universe.asteroids,
        has_asteroids,
    );

    let transformed_result: Vec<(u8, Hex)> =
        result.iter().map(|x| (x.distance, universe.hexes[x.sector])).collect();

    assert_eq!(expected_result, transformed_result);
}

#[test]
fn find_neighbor_with_asteroids() {
    let mut universe = Universe::new();
    universe.add_sector(LEFT, None);
    universe.add_sector(CENTER, None);
    universe.add_sector(RIGHT, some_asteroids());
    universe.add_gates((LEFT, X), (CENTER, NEG_X));
    universe.add_gates((CENTER, X), (RIGHT, NEG_X));

    test_breadth_search(&universe, CENTER, 5, vec![(1, RIGHT)]);
}

#[test]
fn find_multiple_neighbor_with_asteroids() {
    let mut universe = Universe::new();
    universe.add_sector(LEFT, None);
    universe.add_sector(CENTER, some_asteroids());
    universe.add_sector(RIGHT, some_asteroids());
    universe.add_gates((LEFT, X), (CENTER, NEG_X));
    universe.add_gates((CENTER, X), (RIGHT, NEG_X));

    test_breadth_search(&universe, LEFT, 2, vec![(1, CENTER), (2, RIGHT)]);
}

#[test]
fn find_neighbor_with_asteroids_does_not_find_anything_outside_of_max_range() {
    let mut universe = Universe::new();
    universe.add_sector(LEFT, None);
    universe.add_sector(CENTER, None);
    universe.add_sector(RIGHT, some_asteroids());
    universe.add_gates((LEFT, X), (CENTER, NEG_X));
    universe.add_gates((CENTER, X), (RIGHT, NEG_X));

    test_breadth_search(&universe, LEFT, 1, vec![]);
}

/// A graph of `n` sectors with a link each way between the given pairs.
fn graph_of(n: usize, pairs: &[(SectorId, SectorId)]) -> SectorGraph {
    let mut graph = SectorGraph::new();
    for _ in 0..n {
        graph.add_sector();
    }
    for (a, b) in pairs {
        let out = graph.add_gate_at(Position::new(0, 0));
        let back = graph.add_gate_at(Position::new(0, 0));
        assert!(graph.add_gate(*a, out, *b, back));
        assert!(graph.add_gate(*b, back, *a, out));
    }
    graph
}

fn found(distance: u8, sector: SectorId) -> SearchResult {
    SearchResult { distance, sector }
}

#[test]
fn start_sector_is_found_at_distance_zero() {
    let graph = graph_of(2, &[(0, 1)]);
    let data = vec![Some(7u32), Some(8u32)];
    let result = surrounding_sector_search(&graph, 0, 0, &data, |_: &u32| true);
    assert_eq!(result, vec![found(0, 0)]);
    let result = surrounding_sector_search(&graph, 1, 3, &data, |_: &u32| true);
    assert_eq!(result, vec![found(0, 1), found(1, 0)]);
}

#[test]
fn sector_reached_two_ways_is_found_once_at_its_distance() {
    // A diamond: 0 - 1 - 3 and 0 - 2 - 3, and a triangle side 1 - 2.
    let graph = graph_of(4, &[(0, 1), (0, 2), (1, 3), (2, 3), (1, 2)]);
    let data = vec![Some(()), Some(()), Some(()), Some(())];
    let result = surrounding_sector_search(&graph, 0, 200, &data, |_: &()| true);
    assert_eq!(result, vec![found(0, 0), found(1, 1), found(1, 2), found(2, 3)]);
}

#[test]
fn sectors_of_one_distance_come_in_the_order_of_the_links() {
    let graph = graph_of(4, &[(0, 3), (0, 1), (0, 2)]);
    let data = vec![Some(()), Some(()), Some(()), Some(())];
    let result = surrounding_sector_search(&graph, 0, 1, &data, |_: &()| true);
    assert_eq!(result, vec![found(0, 0), found(1, 3), found(1, 1), found(1, 2)]);
}

#[test]
fn predicate_decides_which_sectors_are_found() {
    let graph = graph_of(5, &[(0, 1), (1, 2), (2, 3), (3, 4)]);
    let data = vec![Some(10u32), Some(0), Some(25), None, Some(40)];
    let rich = |ore: &u32| *ore >= 20;
    assert_eq!(
        surrounding_sector_search(&graph, 0, 4, &data, rich),
        vec![found(2, 2), found(4, 4)]
    );
    assert_eq!(surrounding_sector_search(&graph, 0, 3, &data, rich), vec![found(2, 2)]);
    assert_eq!(
        surrounding_sector_search(&graph, 0, 4, &data, |ore: &u32| *ore < 20),
        vec![found(0, 0), found(1, 1)]
    );
    assert_eq!(surrounding_sector_search(&graph, 0, 4, &data, |_: &u32| false), vec![]);
}

#[test]
fn sectors_without_data_are_passed_over_but_passed_through() {
    let graph = graph_of(3, &[(0, 1), (1, 2)]);
    // Nothing is known of sector 1, and the data ends before sector 2.
    let data: Vec<Option<u32>> = vec![Some(1), None];
    let result = surrounding_sector_search(&graph, 0, 5, &data, |_: &u32| true);
    assert_eq!(result, vec![found(0, 0)]);
    let data: Vec<Option<u32>> = vec![None, None, Some(1)];
    let result = surrounding_sector_search(&graph, 0, 5, &data, |_: &u32| true);
    assert_eq!(result, vec![found(2, 2)]);
}

#[test]
fn predicate_is_asked_once_for_each_sector_in_range() {
    let graph = graph_of(5, &[(0, 1), (0, 2), (1, 2), (2, 3), (3, 4), (4, 0)]);
    let data: Vec<Option<usize>> = (0..5).map(Some).collect();
    let asked = std::cell::RefCell::new(Vec::new());
    let result = surrounding_sector_search(&graph, 0, 1, &data, |sector: &usize| {
        asked.borrow_mut().push(*sector);
        false
    });
    assert_eq!(result, vec![]);
    assert_eq!(asked.into_inner(), vec![0, 1, 2, 4]);
}

#[test]
fn region_search_reaches_the_largest_range() {
    let pairs: Vec<(SectorId, SectorId)> = (0..299).map(|s| (s, s + 1)).collect();
    let graph = graph_of(300, &pairs);
    let data: Vec<Option<()>> = (0..300).map(|_| Some(())).collect();
    let result = surrounding_sector_search(&graph, 0, 255, &data, |_: &()| true);
    assert_eq!(result.len(), 256);
    for (i, r) in result.iter().enumerate() {
        assert_eq!(*r, found(i as u8, i));
    }
}

#[test]
fn region_search_follows_links_one_way_only() {
    let mut graph = SectorGraph::new();
    graph.add_sector();
    graph.add_sector();
    let out = graph.add_gate_at(Position::new(0, 0));
    let back = graph.add_gate_at(Position::new(0, 0));
    assert!(graph.add_gate(0, out, 1, back));
    let data = vec![Some(()), Some(())];
    assert_eq!(
        surrounding_sector_search(&graph, 0, 9, &data, |_: &()| true),
        vec![found(0, 0), found(1, 1)]
    );
    assert_eq!(
        surrounding_sector_search(&graph, 1, 9, &data, |_: &()| true),
        vec![found(0, 1)]
    );
}

#[test]
fn region_search_gives_the_same_list_every_time() {
    let graph = graph_of(6, &[(0, 5), (0, 1), (5, 4), (1, 2), (2, 3), (4, 3)]);
    let data: Vec<Option<()>> = (0..6).map(|_| Some(())).collect();
    let first = surrounding_sector_search(&graph, 0, 3, &data, |_: &()| true);
    assert_eq!(
        first,
        vec![found(0, 0), found(1, 5), found(1, 1), found(2, 4), found(2, 2), found(3, 3)]
    );
    for _ in 0..10 {
        assert_eq!(surrounding_sector_search(&graph, 0, 3, &data, |_: &()| true), first);
    }
}

#[test]
fn results_are_ordered_by_distance_then_sector() {
    assert!(found(1, 9) < found(2, 0));
    assert!(found(2, 3) < found(2, 4));
    assert!(!(found(2, 4) < found(2, 4)));
    assert!(found(3, 0) > found(2, 200));
    assert_eq!(found(2, 4).partial_cmp(&found(2, 4)), Some(std::cmp::Ordering::Equal));
    assert_eq!(found(1, 4).cmp(&found(2, 1)), std::cmp::Ordering::Less);
    let mut results = vec![found(2, 1), found(1, 7), found(0, 3), found(1, 2)];
    results.sort();
    assert_eq!(results, vec![found(0, 3), found(1, 2), found(1, 7), found(2, 1)]);
}

#[test]
fn asteroid_data_of_the_tests_is_plain() {
    let data = some_asteroids().unwrap();
    assert_eq!(data.average_velocity, (1, 1));
    assert!(data.live_asteroids.is_empty());
}
