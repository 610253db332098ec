use graphs::undirected::{Edge, Graph, NodeId};

/// Order-preserving key for a non-negative float weight.
fn wkey(w: f32) -> u32 {
    w.to_bits() ^ 0x8000_0000
}

fn edge(u: u32, v: u32, w: f32) -> Edge {
    Edge {
        u: NodeId(u),
        v: NodeId(v),
        weight: wkey(w),
    }
}

#[test]
fn test_simple_chain() {
    let mut g = Graph::new(3);
    g.add_edge(edge(0, 1, 1.0));
    g.add_edge(edge(1, 2, 1.0));

    let (aps, bridges) = g.critical_components();
    assert_eq!(bridges.len(), 2);
    // node 1 is articulation point
    assert_eq!(aps.len(), 1);
}

#[test]
fn test_cycle_no_critical() {
    let mut g = Graph::new(4);
    g.add_edge(edge(0, 1, 1.0));
    g.add_edge(edge(1, 2, 1.0));
    g.add_edge(edge(2, 3, 1.0));
    g.add_edge(edge(3, 0, 1.0));

    let (aps, bridges) = g.critical_components();
    assert_eq!(bridges.len(), 0);
    assert_eq!(aps.len(), 0);
}

#[test]
fn test_cycle_with_tail() {
    let mut g = Graph::new(5);
    g.add_edge(edge(0, 1, 1.0));
    g.add_edge(edge(1, 2, 1.0));
    g.add_edge(edge(2, 0, 1.0));
    g.add_edge(edge(2, 3, 1.0));
    g.add_edge(edge(3, 4, 1.0));

    let (aps, bridges) = g.critical_components();
    // (2,3) and (3,4)
    assert_eq!(bridges.len(), 2);
    // nodes 2 and 3
    assert_eq!(aps.len(), 2);
}

#[test]
fn graph_test_disconnected() {
    let mut g = Graph::new(6);
    g.add_edge(edge(0, 1, 1.0));
    g.add_edge(edge(1, 2, 1.0));
    g.add_edge(edge(3, 4, 1.0));
    g.add_edge(edge(4, 5, 1.0));

    let (aps, bridges) = g.critical_components();
    // all edges
    assert_eq!(bridges.len(), 4);
    // nodes 1 and 4
    assert_eq!(aps.len(), 2);
}

#[test]
fn test_single_edge() {
    let mut g = Graph::new(2);
    g.add_edge(edge(0, 1, 1.0));

    let (aps, bridges) = g.critical_components();
    assert_eq!(bridges.len(), 1);
    // no articulation points (can't disconnect with only 2 nodes)
    assert_eq!(aps.len(), 0);
}

#[test]
fn test_root_with_two_children() {
    let mut g = Graph::new(5);
    g.add_edge(edge(0, 1, 1.0));
    g.add_edge(edge(1, 2, 1.0));
    g.add_edge(edge(0, 3, 1.0));
    g.add_edge(edge(3, 4, 1.0));

    let (aps, bridges) = g.critical_components();
    // all edges are bridges
    assert_eq!(bridges.len(), 4);
    // nodes 0, 1, and 3
    assert_eq!(aps.len(), 3);
}

#[test]
fn test_no_edges() {
    let g = Graph::new(3);
    let (aps, bridges) = g.critical_components();
    assert_eq!(bridges.len(), 0);
    assert_eq!(aps.len(), 0);
}

#[test]
fn test_triangle_with_tail_exact() {
    // 0–1–2–0 triangle plus edge 2–3: bridges = [(2,3)], points = {2}
    let mut g = Graph::new(4);
    g.add_edge(edge(0, 1, 1.0));
    g.add_edge(edge(1, 2, 1.0));
    g.add_edge(edge(2, 0, 1.0));
    g.add_edge(edge(2, 3, 1.0));

    let (aps, bridges) = g.critical_components();
    assert_eq!(bridges.len(), 1);
    assert_eq!(bridges[0].0 .0, 2);
    assert_eq!(bridges[0].1 .0, 3);
    assert_eq!(aps.len(), 1);
    assert_eq!(aps[0].0, 2);
}

/// Number of connected components, counted with the disjoint-set
/// structure.
fn component_count(n: usize, edges: &[(u32, u32)]) -> usize {
    let mut ds = graphs::dsu::DisjointSet::new(n);
    let mut merges = 0;
    for &(u, v) in edges {
        if ds.union(u as usize, v as usize) {
            merges += 1;
        }
    }
    n - merges
}

#[test]
fn test_bridge_removal_splits_component() {
    // removing the bridge strictly increases the component count;
    // removing a cycle edge does not
    let all: Vec<(u32, u32)> = vec![(0, 1), (1, 2), (2, 0), (2, 3)];
    let base = component_count(4, &all);
    assert_eq!(base, 1);

    // drop the bridge (2,3)
    let without_bridge: Vec<(u32, u32)> = vec![(0, 1), (1, 2), (2, 0)];
    assert_eq!(component_count(4, &without_bridge), 2);

    // drop the non-bridge (0,1)
    let without_cycle_edge: Vec<(u32, u32)> = vec![(1, 2), (2, 0), (2, 3)];
    assert_eq!(component_count(4, &without_cycle_edge), 1);
}

#[test]
fn test_path_graph_counts() {
    // a simple path of k = 6 nodes has k-2 articulation points and k-1
    // bridges
    let k = 6;
    let mut g = Graph::new(k);
    for i in 0..(k - 1) {
        g.add_edge(edge(i as u32, (i + 1) as u32, 1.0));
    }
    let (aps, bridges) = g.critical_components();
    assert_eq!(aps.len(), k - 2);
    assert_eq!(bridges.len(), k - 1);
}

#[test]
fn test_cycle_graph_counts() {
    // a simple cycle of any length has no critical components
    let k = 7;
    let mut g = Graph::new(k);
    for i in 0..k {
        g.add_edge(edge(i as u32, ((i + 1) % k) as u32, 1.0));
    }
    let (aps, bridges) = g.critical_components();
    assert_eq!(aps.len(), 0);
    assert_eq!(bridges.len(), 0);
}

#[test]
fn test_weights_ignored_by_critical_components() {
    // the traversal ignores weights: equal graphs up to weights agree
    let mut g1 = Graph::new(4);
    g1.add_edge(edge(0, 1, 1.0));
    g1.add_edge(edge(1, 2, 2.0));
    g1.add_edge(edge(2, 0, 3.0));
    g1.add_edge(edge(2, 3, 4.0));

    let mut g2 = Graph::new(4);
    g2.add_edge(edge(0, 1, 9.0));
    g2.add_edge(edge(1, 2, 8.0));
    g2.add_edge(edge(2, 0, 7.0));
    g2.add_edge(edge(2, 3, 6.0));

    let (a1, b1) = g1.critical_components();
    let (a2, b2) = g2.critical_components();
    assert_eq!(
        a1.iter().map(|p| p.0).collect::<Vec<_>>(),
        a2.iter().map(|p| p.0).collect::<Vec<_>>()
    );
    assert_eq!(
        b1.iter().map(|(u, v)| (u.0, v.0)).collect::<Vec<_>>(),
        b2.iter().map(|(u, v)| (u.0, v.0)).collect::<Vec<_>>()
    );
}

#[test]
fn test_doubled_edge_is_not_a_bridge() {
    // a doubled edge is no bridge: removing one copy leaves the other,
    // so the pair stays connected and nothing splits
    let mut g = Graph::new(2);
    g.add_edge(edge(0, 1, 1.0));
    g.add_edge(edge(0, 1, 1.0));
    let (aps, bridges) = g.critical_components();
    assert_eq!(bridges.len(), 0);
    assert_eq!(aps.len(), 0);
}
