use graphs::directed::Graph;
use graphs::error::{GraphBuildError, PathError};

fn create_test_graph() -> Graph {
    // latencies arrive as 5.2ms and 3.1ms and are truncated to whole
    // milliseconds by the loader
    let nodes = vec!["api".to_string(), "auth".to_string(), "db".to_string()];
    let edges = vec![
        ("api".to_string(), "auth".to_string(), 5i64),
        ("auth".to_string(), "db".to_string(), 3i64),
    ];
    Graph::build(&nodes, &edges).unwrap()
}

fn sample_graph() -> Graph {
    // four services with a fast two-hop route and a slower cache route
    let nodes = vec![
        "api".to_string(),
        "auth".to_string(),
        "db".to_string(),
        "cache".to_string(),
    ];
    let edges = vec![
        ("api".to_string(), "auth".to_string(), 5i64),
        ("auth".to_string(), "db".to_string(), 3i64),
        ("api".to_string(), "cache".to_string(), 7i64),
        ("cache".to_string(), "db".to_string(), 3i64),
    ];
    Graph::build(&nodes, &edges).unwrap()
}

#[test]
fn test_shortest_path_simple() {
    let graph = create_test_graph();
    let path = graph.shortest_path("api", "db").unwrap();

    assert_eq!(path.cost, 8);
    assert_eq!(path.path.len(), 3);
    assert_eq!(graph.format_path(&path), "api → auth → db");
}

#[test]
fn test_node_not_found() {
    let graph = create_test_graph();
    let result = graph.shortest_path("api", "nonexistent");

    assert!(result.is_err());
    match result {
        Err(PathError::NodeNotFound(node)) => {
            assert_eq!(node, "nonexistent");
        }
        _ => panic!("Expected NodeNotFound error"),
    }
}

#[test]
fn test_path_not_found() {
    let nodes = vec!["a".to_string(), "b".to_string()];
    let edges = vec![];
    let graph = Graph::build(&nodes, &edges).unwrap();

    let result = graph.shortest_path("a", "b");
    assert!(result.is_err());
    match result {
        Err(PathError::PathNotFound { from, to }) => {
            assert_eq!(from, "a");
            assert_eq!(to, "b");
        }
        _ => panic!("Expected PathNotFound error"),
    }
}

#[test]
fn test_bottleneck_identification() {
    let graph = create_test_graph();
    let path = graph.shortest_path("api", "db").unwrap();

    assert!(path.bottleneck.is_some());
    let bottleneck = path.bottleneck.unwrap();

    let from_name = graph.name_of(bottleneck.from);
    let to_name = graph.name_of(bottleneck.to);

    assert_eq!(from_name, "api");
    assert_eq!(to_name, "auth");
    assert_eq!(bottleneck.latency_ms, 5);
}

#[test]
fn test_bottleneck_with_larger_graph() {
    let nodes = vec![
        "a".to_string(),
        "b".to_string(),
        "c".to_string(),
        "d".to_string(),
    ];
    let edges = vec![
        ("a".to_string(), "b".to_string(), 2i64),
        ("b".to_string(), "c".to_string(), 10i64),
        ("c".to_string(), "d".to_string(), 3i64),
    ];
    let graph = Graph::build(&nodes, &edges).unwrap();
    let path = graph.shortest_path("a", "d").unwrap();

    assert!(path.bottleneck.is_some());
    let bottleneck = path.bottleneck.unwrap();

    let from_name = graph.name_of(bottleneck.from);
    let to_name = graph.name_of(bottleneck.to);

    assert_eq!(from_name, "b");
    assert_eq!(to_name, "c");
    assert_eq!(bottleneck.latency_ms, 10);
}

#[test]
fn test_self_loop_detection() {
    let nodes = vec!["a".to_string(), "b".to_string()];
    let edges = vec![("a".to_string(), "a".to_string(), 5i64)];
    let result = Graph::build(&nodes, &edges);
    assert!(result.is_err());
    match result {
        Err(GraphBuildError::SelfLoop { node }) => {
            assert_eq!(node, "a");
        }
        _ => panic!("Expected SelfLoop error"),
    }
}

#[test]
fn test_with_modifications_override() {
    let graph = create_test_graph();

    let original_path = graph.shortest_path("api", "db").unwrap();
    assert_eq!(original_path.cost, 8);
    assert_eq!(graph.format_path(&original_path), "api → auth → db");

    let modified = graph
        .with_modifications(&[("auth".to_string(), "db".to_string(), 100)], &[])
        .unwrap();

    let new_path = modified.shortest_path("api", "db").unwrap();
    assert_eq!(new_path.cost, 105); // api→auth (5) + auth→db (100)
}

#[test]
fn test_with_modifications_drop() {
    let graph = sample_graph();

    // Original shortest path should be api → auth → db
    let original_path = graph.shortest_path("api", "db").unwrap();
    assert_eq!(graph.format_path(&original_path), "api → auth → db");

    // Drop auth→db edge
    let modified = graph
        .with_modifications(&[], &[("auth".to_string(), "db".to_string())])
        .unwrap();

    // Path should change to go through cache
    let new_path = modified.shortest_path("api", "db").unwrap();
    assert_eq!(graph.format_path(&new_path), "api → cache → db");
}

#[test]
fn test_with_modifications_combined() {
    let graph = sample_graph();

    let modified = graph
        .with_modifications(
            &[("api".to_string(), "cache".to_string(), 1)], // Make cache path faster
            &[("auth".to_string(), "db".to_string())],      // Drop auth→db
        )
        .unwrap();

    let new_path = modified.shortest_path("api", "db").unwrap();
    assert_eq!(graph.format_path(&new_path), "api → cache → db");
    assert!(new_path.cost < 5); // Should be much faster now
}

#[test]
fn test_with_modifications_invalid_node() {
    let graph = create_test_graph();

    // Try to override edge with non-existent node
    let result =
        graph.with_modifications(&[("api".to_string(), "nonexistent".to_string(), 100)], &[]);

    assert!(result.is_err());
    match result {
        Err(PathError::NodeNotFound(node)) => {
            assert_eq!(node, "nonexistent");
        }
        _ => panic!("Expected NodeNotFound error"),
    }
}

#[test]
fn test_duplicate_node_rejected() {
    let nodes = vec!["a".to_string(), "b".to_string(), "a".to_string()];
    let edges = vec![];
    match Graph::build(&nodes, &edges) {
        Err(GraphBuildError::DuplicateNode(name)) => assert_eq!(name, "a"),
        _ => panic!("Expected DuplicateNode error"),
    }
}

#[test]
fn test_unknown_from_rejected() {
    let nodes = vec!["a".to_string(), "b".to_string()];
    let edges = vec![("x".to_string(), "b".to_string(), 1i64)];
    match Graph::build(&nodes, &edges) {
        Err(GraphBuildError::UnknownFrom(name)) => assert_eq!(name, "x"),
        _ => panic!("Expected UnknownFrom error"),
    }
}

#[test]
fn test_unknown_to_rejected() {
    let nodes = vec!["a".to_string(), "b".to_string()];
    let edges = vec![("a".to_string(), "y".to_string(), 1i64)];
    match Graph::build(&nodes, &edges) {
        Err(GraphBuildError::UnknownTo(name)) => assert_eq!(name, "y"),
        _ => panic!("Expected UnknownTo error"),
    }
}

#[test]
fn test_negative_latency_rejected() {
    let nodes = vec!["a".to_string(), "b".to_string()];
    let edges = vec![("a".to_string(), "b".to_string(), -1i64)];
    match Graph::build(&nodes, &edges) {
        Err(GraphBuildError::NegativeLatency {
            from,
            to,
            latency_ms,
        }) => {
            assert_eq!(from, "a");
            assert_eq!(to, "b");
            assert_eq!(latency_ms, -1);
        }
        _ => panic!("Expected NegativeLatency error"),
    }
}

#[test]
fn test_self_query_single_node_path() {
    // shortest_path(a, a) is a single-node path of cost 0, no bottleneck
    let graph = create_test_graph();
    let path = graph.shortest_path("auth", "auth").unwrap();
    assert_eq!(path.path.len(), 1);
    assert_eq!(path.cost, 0);
    assert!(path.bottleneck.is_none());
}

#[test]
fn test_cost_is_sum_and_minimal_brute_force() {
    // diamond: a→b (1), b→d (5), a→c (2), c→d (1), a→d (10)
    let nodes = vec![
        "a".to_string(),
        "b".to_string(),
        "c".to_string(),
        "d".to_string(),
    ];
    let edges = vec![
        ("a".to_string(), "b".to_string(), 1i64),
        ("b".to_string(), "d".to_string(), 5i64),
        ("a".to_string(), "c".to_string(), 2i64),
        ("c".to_string(), "d".to_string(), 1i64),
        ("a".to_string(), "d".to_string(), 10i64),
    ];
    let graph = Graph::build(&nodes, &edges).unwrap();
    let path = graph.shortest_path("a", "d").unwrap();
    // the three simple a→d routes cost 6, 3 and 10; the best is a→c→d
    assert_eq!(path.cost, 3);
    assert_eq!(graph.format_path(&path), "a → c → d");
    // cost equals the sum of edge weights along the returned sequence
    assert_eq!(path.cost, 2 + 1);
}

#[test]
fn test_modification_leaves_original_untouched() {
    // querying the original after a modification reproduces the
    // pre-modification shortest path
    let graph = create_test_graph();
    let before = graph.shortest_path("api", "db").unwrap();
    let _modified = graph
        .with_modifications(
            &[("api".to_string(), "auth".to_string(), 900)],
            &[("auth".to_string(), "db".to_string())],
        )
        .unwrap();
    let after = graph.shortest_path("api", "db").unwrap();
    assert_eq!(before.cost, after.cost);
    assert_eq!(graph.format_path(&before), graph.format_path(&after));
}

#[test]
fn test_drop_shortest_path_edges_alternate_or_none() {
    // dropping every edge of the unique shortest path finds an
    // alternate path of no smaller cost
    let graph = sample_graph();
    let original = graph.shortest_path("api", "db").unwrap();
    assert_eq!(original.cost, 8);
    let modified = graph
        .with_modifications(
            &[],
            &[
                ("api".to_string(), "auth".to_string()),
                ("auth".to_string(), "db".to_string()),
            ],
        )
        .unwrap();
    let rerouted = modified.shortest_path("api", "db").unwrap();
    assert!(rerouted.cost >= original.cost);
    assert_eq!(rerouted.cost, 10);
}

#[test]
fn test_drop_shortest_path_edges_disconnects() {
    // with no alternate route the re-query reports path-not-found
    let graph = create_test_graph();
    let modified = graph
        .with_modifications(&[], &[("auth".to_string(), "db".to_string())])
        .unwrap();
    match modified.shortest_path("api", "db") {
        Err(PathError::PathNotFound { from, to }) => {
            assert_eq!(from, "api");
            assert_eq!(to, "db");
        }
        _ => panic!("Expected PathNotFound error"),
    }
}

#[test]
fn test_bottleneck_tie_reports_first() {
    // under ties the first maximal edge on the walk is reported
    let nodes = vec!["a".to_string(), "b".to_string(), "c".to_string()];
    let edges = vec![
        ("a".to_string(), "b".to_string(), 4i64),
        ("b".to_string(), "c".to_string(), 4i64),
    ];
    let graph = Graph::build(&nodes, &edges).unwrap();
    let path = graph.shortest_path("a", "c").unwrap();
    let b = path.bottleneck.unwrap();
    assert_eq!(graph.name_of(b.from), "a");
    assert_eq!(graph.name_of(b.to), "b");
    assert_eq!(b.latency_ms, 4);
}

#[test]
fn test_path_output_resolves_names() {
    let graph = create_test_graph();
    let path = graph.shortest_path("api", "db").unwrap();
    let out = graph.path_output(&path);
    assert_eq!(out.from, "api");
    assert_eq!(out.to, "db");
    assert_eq!(out.path, vec!["api", "auth", "db"]);
    assert_eq!(out.total_latency_ms, 8);
    let b = out.bottleneck.unwrap();
    assert_eq!(b.from, "api");
    assert_eq!(b.to, "auth");
    assert_eq!(b.latency_ms, 5);
}

#[test]
fn test_zero_weight_edges() {
    let nodes = vec!["a".to_string(), "b".to_string(), "c".to_string()];
    let edges = vec![
        ("a".to_string(), "b".to_string(), 0i64),
        ("b".to_string(), "c".to_string(), 0i64),
    ];
    let graph = Graph::build(&nodes, &edges).unwrap();
    let path = graph.shortest_path("a", "c").unwrap();
    assert_eq!(path.cost, 0);
    assert_eq!(path.path.len(), 3);
    // a zero-weight path still has a bottleneck: its first edge
    let b = path.bottleneck.unwrap();
    assert_eq!(graph.name_of(b.from), "a");
    assert_eq!(b.latency_ms, 0);
}

#[test]
fn test_parallel_edges_drop_removes_all() {
    // a drop removes every parallel copy of the named edge
    let nodes = vec!["a".to_string(), "b".to_string()];
    let edges = vec![
        ("a".to_string(), "b".to_string(), 5i64),
        ("a".to_string(), "b".to_string(), 7i64),
    ];
    let graph = Graph::build(&nodes, &edges).unwrap();
    assert_eq!(graph.shortest_path("a", "b").unwrap().cost, 5);
    let modified = graph
        .with_modifications(&[], &[("a".to_string(), "b".to_string())])
        .unwrap();
    assert!(matches!(
        modified.shortest_path("a", "b"),
        Err(PathError::PathNotFound { .. })
    ));
}

#[test]
fn test_parallel_edges_override_touches_first_only() {
    // an override reweights only the first stored copy; later parallel
    // copies keep their weights
    let nodes = vec!["a".to_string(), "b".to_string()];
    let edges = vec![
        ("a".to_string(), "b".to_string(), 5i64),
        ("a".to_string(), "b".to_string(), 7i64),
    ];
    let graph = Graph::build(&nodes, &edges).unwrap();
    let modified = graph
        .with_modifications(&[("a".to_string(), "b".to_string(), 100)], &[])
        .unwrap();
    assert_eq!(modified.shortest_path("a", "b").unwrap().cost, 7);
}

#[test]
fn test_latency_clamps_to_u32() {
    // whole-millisecond latencies above the 32-bit range clamp
    let nodes = vec!["a".to_string(), "b".to_string()];
    let edges = vec![("a".to_string(), "b".to_string(), 5_000_000_000i64)];
    let graph = Graph::build(&nodes, &edges).unwrap();
    assert_eq!(graph.shortest_path("a", "b").unwrap().cost, u32::MAX as u64);
}
