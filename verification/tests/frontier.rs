use sector_routing::pathfinding::frontier::Frontier;
use sector_routing::pathfinding::search_node::SearchNode;
use sector_routing::sector::{GatePairInSector, PathElement};

fn node(cost: u128, sector: usize, from: usize, to: usize) -> SearchNode {
    SearchNode { sector, gate_pair: GatePairInSector { from, to }, cost }
}

#[test]
fn empty_frontier_gives_nothing() {
    let mut frontier = Frontier::new();
    assert!(frontier.is_empty());
    assert_eq!(frontier.pop(), None);
    assert!(frontier.is_empty());
}

#[test]
fn frontier_gives_the_cheapest_node_first() {
    let mut frontier = Frontier::new();
    frontier.push(node(30, 1, 1, 1));
    frontier.push(node(10, 2, 2, 2));
    frontier.push(node(20, 3, 3, 3));
    assert!(!frontier.is_empty());
    assert_eq!(frontier.pop(), Some(node(10, 2, 2, 2)));
    assert_eq!(frontier.pop(), Some(node(20, 3, 3, 3)));
    frontier.push(node(5, 4, 4, 4));
    assert_eq!(frontier.pop(), Some(node(5, 4, 4, 4)));
    assert_eq!(frontier.pop(), Some(node(30, 1, 1, 1)));
    assert_eq!(frontier.pop(), None);
}

#[test]
fn frontier_settles_equal_costs_by_sector_then_gates() {
    let mut frontier = Frontier::new();
    frontier.push(node(7, 2, 0, 0));
    frontier.push(node(7, 1, 5, 0));
    frontier.push(node(7, 1, 4, 9));
    frontier.push(node(7, 1, 4, 8));
    assert_eq!(frontier.pop(), Some(node(7, 1, 4, 8)));
    assert_eq!(frontier.pop(), Some(node(7, 1, 4, 9)));
    assert_eq!(frontier.pop(), Some(node(7, 1, 5, 0)));
    assert_eq!(frontier.pop(), Some(node(7, 2, 0, 0)));
}

#[test]
fn frontier_keeps_a_node_as_often_as_it_was_pushed() {
    let mut frontier = Frontier::new();
    frontier.push(node(7, 1, 1, 1));
    frontier.push(node(7, 1, 1, 1));
    assert_eq!(frontier.pop(), Some(node(7, 1, 1, 1)));
    assert!(!frontier.is_empty());
    assert_eq!(frontier.pop(), Some(node(7, 1, 1, 1)));
    assert!(frontier.is_empty());
}

#[test]
fn frontier_orders_many_nodes() {
    let mut frontier = Frontier::new();
    let mut expected = Vec::new();
    let mut seed: u64 = 12345;
    for _ in 0..500 {
        seed = seed.wrapping_mul(6364136223846793005).wrapping_add(1442695040888963407);
        let cost = ((seed >> 33) % 50) as u128;
        let sector = ((seed >> 20) % 7) as usize;
        let from = ((seed >> 10) % 5) as usize;
        let to = (seed % 3) as usize;
        frontier.push(node(cost, sector, from, to));
        expected.push((cost, sector, from, to));
    }
    expected.sort();
    for (cost, sector, from, to) in expected {
        assert_eq!(frontier.pop(), Some(node(cost, sector, from, to)));
    }
    assert_eq!(frontier.pop(), None);
}

#[test]
fn node_precedes_by_cost_then_sector_then_gates() {
    assert!(node(1, 9, 9, 9).precedes(&node(2, 0, 0, 0)));
    assert!(!node(2, 0, 0, 0).precedes(&node(1, 9, 9, 9)));
    assert!(node(1, 3, 9, 9).precedes(&node(1, 4, 0, 0)));
    assert!(node(1, 3, 5, 9).precedes(&node(1, 3, 6, 0)));
    assert!(node(1, 3, 5, 7).precedes(&node(1, 3, 5, 8)));
    assert!(!node(1, 3, 5, 7).precedes(&node(1, 3, 5, 7)));
}

#[test]
fn node_names_its_path_element() {
    assert_eq!(
        node(11, 3, 5, 7).element(),
        PathElement::new(3, GatePairInSector { from: 5, to: 7 })
    );
}
