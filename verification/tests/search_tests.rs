use repath::cache::cache_new;
use repath::graph::Graph;
use repath::node::Node;

fn square_graph() -> Graph {
    // Four corners of a unit square with a cyclic, bidirectional,
    // unit-cost edge set.
    let mut g = Graph::new();
    g.add_node(Node::new(0, 0, 0, 0));
    g.add_node(Node::new(1, 1, 0, 0));
    g.add_node(Node::new(2, 1, 1, 0));
    g.add_node(Node::new(3, 0, 1, 0));
    for (a, b) in [(0, 1), (1, 2), (2, 3), (3, 0)] {
        g.add_edge(a, b, 1);
        g.add_edge(b, a, 1);
    }
    g
}

#[test]
fn square_cycle_start_to_opposite_corner() {
    let g = square_graph();
    let mut cache = cache_new();
    let path = g.a_star(0, 2, &mut cache).expect("corners are connected");
    let nodes: Vec<usize> = path.iter().map(|e| e.0).collect();
    let cost = path.last().unwrap().1;
    assert_eq!(cost, 2);
    assert!(nodes == vec![0, 1, 2] || nodes == vec![0, 3, 2]);
}

#[test]
fn path_cost_is_exact_edge_sum_and_minimal() {
    // Nodes on a line so the Euclidean heuristic underestimates every cost.
    let mut g = Graph::new();
    g.add_node(Node::new(0, 0, 0, 0));
    g.add_node(Node::new(1, 5, 0, 0));
    g.add_node(Node::new(2, 10, 0, 0));
    g.add_node(Node::new(3, 2, 0, 0));
    g.add_edge(0, 1, 5);
    g.add_edge(1, 2, 5);
    g.add_edge(0, 2, 20);
    g.add_edge(0, 3, 2);
    g.add_edge(3, 2, 8);
    let mut cache = cache_new();
    let path = g.a_star(0, 2, &mut cache).expect("connected");

    // Cumulative offsets accumulate exactly the traversed edge costs.
    let mut expected_cum: u64 = 0;
    for w in path.windows(2) {
        let (from, t0) = w[0];
        let (to, t1) = w[1];
        let step = g.edges[from]
            .iter()
            .filter(|e| e.to == to)
            .map(|e| e.cost)
            .find(|c| t0 + c == t1)
            .expect("every hop must match a real edge exactly");
        expected_cum += step;
        assert_eq!(t1, expected_cum);
    }

    // Exhaustive enumeration of all simple routes from 0 to 2.
    let every_route_cost = [20u64, 5 + 5, 2 + 8];
    let returned = path.last().unwrap().1;
    for c in every_route_cost {
        assert!(returned <= c);
    }
    assert_eq!(returned, 10);
}

#[test]
fn no_path_between_disconnected_clusters_is_cached() {
    // Two clusters with no edge between them.
    let mut g = Graph::new();
    g.add_node(Node::new(0, 0, 0, 0));
    g.add_node(Node::new(1, 1, 0, 0));
    g.add_node(Node::new(2, 100, 0, 0));
    g.add_node(Node::new(3, 101, 0, 0));
    g.add_edge(0, 1, 1);
    g.add_edge(1, 0, 1);
    g.add_edge(2, 3, 1);
    g.add_edge(3, 2, 1);
    let mut cache = cache_new();
    assert_eq!(g.a_star(0, 2, &mut cache), None);
    // The verdict is stored: a second query returns the same answer.
    assert_eq!(g.a_star(0, 2, &mut cache), None);
    // The reverse direction is its own key and its own search.
    assert_eq!(g.a_star(2, 0, &mut cache), None);
}

#[test]
fn start_equals_goal_gives_trivial_path() {
    let g = square_graph();
    let mut cache = cache_new();
    let path = g.a_star(1, 1, &mut cache).expect("trivially reachable");
    assert_eq!(path, vec![(1, 0)]);
}

#[test]
fn duplicate_and_parallel_edges_are_tolerated() {
    let mut g = Graph::new();
    g.add_node(Node::new(0, 0, 0, 0));
    g.add_node(Node::new(1, 3, 0, 0));
    g.add_edge(0, 1, 9);
    g.add_edge(0, 1, 3);
    g.add_edge(0, 1, 9);
    let mut cache = cache_new();
    let path = g.a_star(0, 1, &mut cache).expect("connected");
    assert_eq!(path, vec![(0, 0), (1, 3)]);
}

#[test]
fn cached_answer_is_returned_as_stored() {
    let g = square_graph();
    let mut cache = cache_new();
    let first = g.a_star(0, 2, &mut cache).expect("connected");
    let second = g.a_star(0, 2, &mut cache).expect("cache hit");
    assert_eq!(first, second);
}

#[test]
fn bidirectional_returns_a_real_route_and_mirrors_the_cache() {
    let g = square_graph();
    let mut cache = cache_new();
    let path = g
        .a_star_bidirectional(0, 2, &mut cache)
        .expect("corners are connected");
    assert_eq!(path.first().unwrap(), &(0, 0));
    assert_eq!(path.last().unwrap().0, 2);
    // every hop follows a real edge and accumulates exactly its cost
    for w in path.windows(2) {
        let (from, t0) = w[0];
        let (to, t1) = w[1];
        assert!(g.edges[from].iter().any(|e| e.to == to && t0 + e.cost == t1));
    }
    // the mirrored (goal, start) entry was written alongside
    let mirrored = g
        .a_star(2, 0, &mut cache)
        .expect("mirrored entry must be served from the cache");
    assert_eq!(mirrored.first().unwrap(), &(2, 0));
    assert_eq!(mirrored.last().unwrap().0, 0);
}

#[test]
fn bidirectional_no_path_is_cached_in_both_directions() {
    let mut g = Graph::new();
    g.add_node(Node::new(0, 0, 0, 0));
    g.add_node(Node::new(1, 100, 0, 0));
    let mut cache = cache_new();
    assert_eq!(g.a_star_bidirectional(0, 1, &mut cache), None);
    assert_eq!(g.a_star(0, 1, &mut cache), None);
    assert_eq!(g.a_star(1, 0, &mut cache), None);
}

#[test]
fn bidirectional_trivial_when_start_equals_goal() {
    let g = square_graph();
    let mut cache = cache_new();
    assert_eq!(g.a_star_bidirectional(3, 3, &mut cache), Some(vec![(3, 0)]));
}
