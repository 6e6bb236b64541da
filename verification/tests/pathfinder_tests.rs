use repath::RePathfinder;
use repath::graph::Graph;
use repath::node::Node;
use repath::metrics::Metrics;
use repath::settings::RePathSettings;
use repath::utils::distance_ceil;
use std::collections::VecDeque;

fn settings(radius: u64, pairs: usize, warm: bool) -> RePathSettings {
    RePathSettings {
        navmesh_filename: "NavMesh.obj".to_string(),
        precompute_radius: radius,
        total_precompute_pairs: pairs,
        use_precomputed_cache: warm,
    }
}

fn square_graph() -> Graph {
    let mut g = Graph::new();
    g.add_node(Node::new(0, 0, 0, 0));
    g.add_node(Node::new(1, 10, 0, 0));
    g.add_node(Node::new(2, 10, 10, 0));
    g.add_node(Node::new(3, 0, 10, 0));
    for (a, b) in [(0, 1), (1, 2), (2, 3), (3, 0)] {
        g.add_edge(a, b, 10);
        g.add_edge(b, a, 10);
    }
    g
}

fn line_graph(spacing: i64, count: usize) -> Graph {
    let mut g = Graph::new();
    for i in 0..count {
        g.add_node(Node::new(i, spacing * i as i64, 0, 0));
    }
    for i in 0..count - 1 {
        g.add_edge(i, i + 1, spacing as u64);
        g.add_edge(i + 1, i, spacing as u64);
    }
    g
}

/// A small synthetic navmesh in the shape the mesh loader produces: two
/// triangular faces over four vertices, each face contributing three
/// directed edges weighted by the rounded-up Euclidean distance between
/// endpoints.
fn mesh_graph() -> Graph {
    let vertices: Vec<(i64, i64, i64)> = vec![
        (0, 0, 0),
        (30, 0, 0),
        (30, 40, 0),
        (0, 40, 0),
    ];
    let faces: Vec<(usize, usize, usize)> = vec![(1, 2, 3), (1, 3, 4)];
    let mut g = Graph::new();
    for (i, v) in vertices.iter().enumerate() {
        g.add_node(Node::new(i, v.0, v.1, v.2));
    }
    for f in &faces {
        let (a, b, c) = (f.0 - 1, f.1 - 1, f.2 - 1);
        g.add_edge(a, b, distance_ceil(&vertices[a], &vertices[b]));
        g.add_edge(b, c, distance_ceil(&vertices[b], &vertices[c]));
        g.add_edge(c, a, distance_ceil(&vertices[c], &vertices[a]));
    }
    g
}

fn find_non_isolated_start_node(graph: &Graph) -> Option<usize> {
    for (node_id, edges) in graph.edges.iter().enumerate() {
        if !edges.is_empty() {
            return Some(node_id);
        }
    }
    None
}

fn find_connected_node(graph: &Graph, start_node_id: usize) -> Option<usize> {
    graph.edges[start_node_id].first().map(|edge| edge.to)
}

fn are_nodes_connected(graph: &Graph, start: usize, goal: usize) -> bool {
    let mut visited = vec![false; graph.nodes.len()];
    let mut queue = VecDeque::new();
    queue.push_back(start);
    while let Some(current) = queue.pop_front() {
        if current == goal {
            return true;
        }
        if visited[current] {
            continue;
        }
        visited[current] = true;
        for edge in &graph.edges[current] {
            if !visited[edge.to] {
                queue.push_back(edge.to);
            }
        }
    }
    false
}

fn find_connected_nodes(graph: &Graph) -> Option<(usize, usize)> {
    for start_node_id in 0..graph.nodes.len() {
        for goal_node_id in (start_node_id + 1)..graph.nodes.len() {
            if are_nodes_connected(graph, start_node_id, goal_node_id) {
                return Some((start_node_id, goal_node_id));
            }
        }
    }
    None
}

#[test]
fn test_pathfinding() {
    let mesh = mesh_graph();
    let mut pathfinder = RePathfinder::new(mesh, settings(10000, 5000, true));

    let start_node_id = find_non_isolated_start_node(&pathfinder.graph)
        .expect("Could not find a non-isolated start node");
    let start_node = pathfinder.graph.nodes[start_node_id];
    let start_coords = (start_node.x, start_node.y, start_node.z);

    let end_node_id = find_connected_node(&pathfinder.graph, start_node_id)
        .expect("Could not find a node connected to the start node");
    let end_node = pathfinder.graph.nodes[end_node_id];
    let end_coords = (end_node.x, end_node.y, end_node.z);

    let connected = are_nodes_connected(&pathfinder.graph, start_node_id, end_node_id);
    assert!(connected, "Start and end nodes are not connected");

    let path1 = pathfinder.find_path(start_coords, end_coords);
    assert!(path1.is_some(), "No path found between start_coords and end_coords");

    let path2 = pathfinder.find_path_multithreaded(start_coords, end_coords, 4);
    assert!(
        path2.is_some(),
        "No path found between start_coords and end_coords with multithreaded pathfinding"
    );
}

#[test]
fn test_pathfinding_connected_nodes() {
    let graph = mesh_graph();
    let mut cache = repath::cache::cache_new();

    let (start_node_id, goal_node_id) =
        find_connected_nodes(&graph).expect("No connected nodes found");

    let path = graph.a_star(start_node_id, goal_node_id, &mut cache);
    assert!(path.is_some(), "No path found between start and goal nodes");
}

#[test]
fn repeated_find_path_is_idempotent_and_served_from_cache() {
    let mut pf = RePathfinder::new(square_graph(), settings(100, 0, false));
    assert_eq!(pf.search_count, 0);
    let first = pf.find_path((0, 0, 0), (10, 10, 0));
    assert_eq!(pf.search_count, 1);
    let second = pf.find_path((0, 0, 0), (10, 10, 0));
    // identical result, and the second call never ran the search engine
    assert_eq!(first, second);
    assert_eq!(pf.search_count, 1);
}

#[test]
fn segmented_with_one_segment_equals_find_path() {
    let mut pf = RePathfinder::new(square_graph(), settings(100, 0, false));
    let direct = pf.find_path((0, 0, 0), (10, 10, 0));
    let one_segment = pf.find_path_multithreaded((0, 0, 0), (10, 10, 0), 1);
    assert!(direct.is_some());
    assert_eq!(direct, one_segment);

    let mut pf2 = RePathfinder::new(square_graph(), settings(100, 0, false));
    let one_segment_first = pf2.find_path_multithreaded((0, 0, 0), (10, 10, 0), 1);
    assert_eq!(direct, one_segment_first);
}

#[test]
fn segmented_query_stitches_without_duplicate_junctions() {
    let mut pf = RePathfinder::new(line_graph(10, 5), settings(100, 0, false));
    let stitched = pf
        .find_path_multithreaded((0, 0, 0), (40, 0, 0), 2)
        .expect("line is connected");
    // no duplicated adjacent node at any stitch junction
    for w in stitched.windows(2) {
        assert_ne!(w[0].0, w[1].0);
    }
    // cumulative offsets accumulate across the junction
    let nodes: Vec<usize> = stitched.iter().map(|e| e.0).collect();
    assert_eq!(nodes, vec![0, 1, 2, 3, 4]);
    let times: Vec<u64> = stitched.iter().map(|e| e.1).collect();
    assert_eq!(times, vec![0, 10, 20, 30, 40]);

    // each leg was cached by the segmented query; total length is the sum of
    // the per-segment lengths minus the shared junction node
    let leg1 = pf.find_path((0, 0, 0), (20, 0, 0)).expect("leg cached");
    let leg2 = pf.find_path((20, 0, 0), (40, 0, 0)).expect("leg cached");
    assert_eq!(stitched.len(), leg1.len() + leg2.len() - 1);
    assert!(stitched.len() <= leg1.len() + leg2.len());
}

#[test]
fn segmented_query_fails_whole_when_any_segment_fails() {
    // two disconnected clusters: every segmentation must fail as a whole
    let mut g = Graph::new();
    g.add_node(Node::new(0, 0, 0, 0));
    g.add_node(Node::new(1, 10, 0, 0));
    g.add_node(Node::new(2, 100, 0, 0));
    g.add_node(Node::new(3, 110, 0, 0));
    g.add_edge(0, 1, 10);
    g.add_edge(1, 0, 10);
    g.add_edge(2, 3, 10);
    g.add_edge(3, 2, 10);
    let mut pf = RePathfinder::new(g, settings(100, 0, false));
    assert_eq!(pf.find_path_multithreaded((0, 0, 0), (110, 0, 0), 3), None);
}

#[test]
fn disconnected_query_is_cached_without_retraversal() {
    let mut g = Graph::new();
    g.add_node(Node::new(0, 0, 0, 0));
    g.add_node(Node::new(1, 10, 0, 0));
    g.add_node(Node::new(2, 100, 0, 0));
    g.add_edge(0, 1, 10);
    g.add_edge(1, 0, 10);
    let mut pf = RePathfinder::new(g, settings(100, 0, false));
    assert_eq!(pf.find_path((0, 0, 0), (100, 0, 0)), None);
    assert_eq!(pf.search_count, 1);
    // the cached "no path" answers the repeat without re-traversal
    assert_eq!(pf.find_path((0, 0, 0), (100, 0, 0)), None);
    assert_eq!(pf.search_count, 1);
}

#[test]
fn find_path_on_empty_graph_is_none() {
    let mut pf = RePathfinder::new(Graph::new(), settings(100, 10, true));
    assert_eq!(pf.find_path((0, 0, 0), (1, 1, 1)), None);
    assert_eq!(pf.search_count, 0);
}

#[test]
fn precompute_warms_the_cache() {
    let mut pf = RePathfinder::new(square_graph(), settings(1000, 64, true));
    // every node pair within the radius is likely sampled; either way the
    // warm-up itself must have recorded its successes consistently
    assert!(pf.precomputed_paths <= 64);
    // a warmed query can only hit the cache or search once
    let r = pf.find_path((0, 0, 0), (10, 10, 0));
    assert!(r.is_some());
    assert!(pf.search_count <= 1);
}

#[test]
fn metrics_start_at_zero() {
    let m = Metrics::new(settings(5000, 100, true));
    assert_eq!(m.precomputation_time, 0);
    assert_eq!(m.pathfinding_time, 0);
    assert_eq!(m.total_paths_precomputed, 0);
    assert_eq!(m.settings.navmesh_filename, "NavMesh.obj");
    assert!(m.settings.use_precomputed_cache);
}

#[test]
fn segmented_failure_still_computes_and_caches_every_leg() {
    // clusters 0-1 and 2-3; three segments resolve to legs (0,1), (1,2), (2,3)
    let mut g = Graph::new();
    g.add_node(Node::new(0, 0, 0, 0));
    g.add_node(Node::new(1, 10, 0, 0));
    g.add_node(Node::new(2, 100, 0, 0));
    g.add_node(Node::new(3, 110, 0, 0));
    g.add_edge(0, 1, 10);
    g.add_edge(1, 0, 10);
    g.add_edge(2, 3, 10);
    g.add_edge(3, 2, 10);
    let mut pf = RePathfinder::new(g, settings(100, 0, false));
    assert_eq!(pf.find_path_multithreaded((0, 0, 0), (110, 0, 0), 3), None);
    // every leg was cached despite the middle one failing: the follow-up
    // queries are served without running the search engine
    assert_eq!(pf.search_count, 0);
    assert!(pf.find_path((0, 0, 0), (10, 0, 0)).is_some());
    assert_eq!(pf.find_path((10, 0, 0), (100, 0, 0)), None);
    assert!(pf.find_path((100, 0, 0), (110, 0, 0)).is_some());
    assert_eq!(pf.search_count, 0);
}

#[test]
fn constructor_without_warmup_starts_cold() {
    let mut pf = RePathfinder::new(square_graph(), settings(1000, 64, false));
    assert_eq!(pf.precomputed_paths, 0);
    // the very first query must run the engine: nothing was precomputed
    assert!(pf.find_path((0, 0, 0), (10, 10, 0)).is_some());
    assert_eq!(pf.search_count, 1);
}
