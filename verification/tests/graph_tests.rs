use repath::edge::Edge;
use repath::graph::Graph;
use repath::node::Node;
use repath::utils::{distance, distance_ceil, isqrt, nodes_within_radius};

fn line_graph(spacing: i64, count: usize) -> Graph {
    let mut g = Graph::new();
    for i in 0..count {
        g.add_node(Node::new(i, spacing * i as i64, 0, 0));
    }
    for i in 0..count.saturating_sub(1) {
        g.add_edge(i, i + 1, spacing as u64);
        g.add_edge(i + 1, i, spacing as u64);
    }
    g
}

#[test]
fn isqrt_exact_values() {
    assert_eq!(isqrt(0), 0);
    assert_eq!(isqrt(1), 1);
    assert_eq!(isqrt(2), 1);
    assert_eq!(isqrt(4), 2);
    assert_eq!(isqrt(24), 4);
    assert_eq!(isqrt(25), 5);
    assert_eq!(isqrt(26), 5);
    assert_eq!(isqrt(u64::MAX), 4294967295);
}

#[test]
fn distance_exact_values() {
    assert_eq!(distance(&(0, 0, 0), &(3, 4, 0)), 5);
    assert_eq!(distance(&(0, 0, 0), &(0, 0, 0)), 0);
    assert_eq!(distance(&(-3, 0, 0), &(0, 4, 0)), 5);
    // 1^2 + 1^2 + 1^2 = 3, floor(sqrt 3) = 1
    assert_eq!(distance(&(1, 1, 1), &(0, 0, 0)), 1);
}

#[test]
fn distance_ceil_exact_values() {
    assert_eq!(distance_ceil(&(0, 0, 0), &(3, 4, 0)), 5);
    assert_eq!(distance_ceil(&(0, 0, 0), &(0, 0, 0)), 0);
    // sqrt(3) rounds up to 2 where the floor gives 1
    assert_eq!(distance_ceil(&(1, 1, 1), &(0, 0, 0)), 2);
    assert_eq!(distance_ceil(&(2, 0, 0), &(0, 0, 0)), 2);
}

#[test]
fn heuristic_symmetric_and_zero_on_self() {
    let g = line_graph(7, 4);
    for a in 0..4 {
        for b in 0..4 {
            assert_eq!(g.heuristic(a, b), g.heuristic(b, a));
        }
        assert_eq!(g.heuristic(a, a), 0);
    }
    assert_eq!(g.heuristic(0, 3), 21);
}

#[test]
fn nearest_node_picks_minimizer_and_first_tie() {
    let mut g = Graph::new();
    g.add_node(Node::new(0, 0, 0, 0));
    g.add_node(Node::new(1, 10, 0, 0));
    g.add_node(Node::new(2, 4, 0, 0));
    assert_eq!(g.nearest_node(9, 0, 0), Some(1));
    assert_eq!(g.nearest_node(4, 1, 0), Some(2));
    // equidistant between node 0 (at 0) and node 2 (at 4): first wins
    assert_eq!(g.nearest_node(2, 0, 0), Some(0));
}

#[test]
fn nearest_node_empty_graph() {
    let g = Graph::new();
    assert_eq!(g.nearest_node(1, 2, 3), None);
}

#[test]
fn random_node_empty_graph_is_none() {
    let g = Graph::new();
    assert_eq!(g.random_node(), None);
}

#[test]
fn random_node_singleton_is_that_node() {
    let mut g = Graph::new();
    g.add_node(Node::new(0, 5, 5, 5));
    assert_eq!(g.random_node(), Some(0));
}

#[test]
fn random_node_in_range() {
    let g = line_graph(3, 5);
    for _ in 0..50 {
        let id = g.random_node().expect("non-empty graph");
        assert!(id < 5);
    }
}

#[test]
fn nodes_within_radius_exact_set() {
    let g = line_graph(10, 5);
    // positions 0, 10, 20, 30, 40; centre node 1 (at 10), radius 15
    let ids = nodes_within_radius(&g, &Node::new(1, 10, 0, 0), 15);
    assert_eq!(ids, vec![0, 1, 2]);
    let none = nodes_within_radius(&g, &Node::new(0, 0, 0, 0), 0);
    assert_eq!(none, vec![0]);
}

#[test]
fn add_edge_appends_in_order_with_duplicates() {
    let mut g = Graph::new();
    g.add_node(Node::new(0, 0, 0, 0));
    g.add_node(Node::new(1, 1, 0, 0));
    g.add_edge(0, 1, 7);
    g.add_edge(0, 1, 7);
    g.add_edge(0, 1, 3);
    assert_eq!(g.edges[0].len(), 3);
    assert_eq!(g.edges[0][0], Edge { to: 1, cost: 7 });
    assert_eq!(g.edges[0][2], Edge { to: 1, cost: 3 });
    assert!(g.edges[1].is_empty());
}

#[test]
fn is_valid_detects_dangling_edge_target() {
    let mut g = Graph::new();
    g.add_node(Node::new(0, 0, 0, 0));
    g.add_node(Node::new(1, 1, 0, 0));
    g.add_edge(0, 1, 1);
    assert!(g.is_valid());
    g.add_edge(1, 5, 1);
    assert!(!g.is_valid());
}
