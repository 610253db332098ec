use graphs::mst::kruskal;
use graphs::undirected::{Edge, Graph, NodeId};

/// Order-preserving key for a non-negative float weight.
fn wkey(w: f32) -> u32 {
    w.to_bits() ^ 0x8000_0000
}

/// The float weight a key stands for.
fn wval(k: u32) -> f32 {
    f32::from_bits(k ^ 0x8000_0000)
}

fn edge(u: u32, v: u32, w: f32) -> Edge {
    Edge {
        u: NodeId(u),
        v: NodeId(v),
        weight: wkey(w),
    }
}

fn total_weight(edges: &[Edge]) -> f32 {
    edges.iter().map(|e| wval(e.weight)).sum()
}

#[test]
fn test_triangle() {
    let mut g = Graph::new(3);
    g.add_edge(edge(0, 1, 1.0));
    g.add_edge(edge(1, 2, 2.0));
    g.add_edge(edge(2, 0, 3.0));

    let mst = kruskal(&g);
    assert_eq!(total_weight(&mst.edges), 3.0);
    assert_eq!(mst.edges.len(), 2);
}

#[test]
fn mst_test_disconnected() {
    let mut g = Graph::new(4);
    g.add_edge(edge(0, 1, 1.0));
    g.add_edge(edge(2, 3, 2.0));

    let mst = kruskal(&g);
    assert_eq!(total_weight(&mst.edges), 3.0);
    assert_eq!(mst.edges.len(), 2);
}

#[test]
fn test_square_with_diagonal() {
    let mut g = Graph::new(4);
    g.add_edge(edge(0, 1, 1.0));
    g.add_edge(edge(1, 2, 2.0));
    g.add_edge(edge(2, 3, 3.0));
    g.add_edge(edge(3, 0, 4.0));
    g.add_edge(edge(0, 2, 5.0));

    let mst = kruskal(&g);
    assert_eq!(total_weight(&mst.edges), 6.0);
    assert_eq!(mst.edges.len(), 3);
}

#[test]
fn test_edge_count_is_nodes_minus_components() {
    // triangle on {0,1,2}, a pair {3,4}, and the isolated node 5:
    // 6 nodes, 3 components, so the forest has exactly 3 edges
    let mut g = Graph::new(6);
    g.add_edge(edge(0, 1, 1.0));
    g.add_edge(edge(1, 2, 2.0));
    g.add_edge(edge(2, 0, 3.0));
    g.add_edge(edge(3, 4, 4.0));

    let mst = kruskal(&g);
    assert_eq!(mst.edges.len(), 6 - 3);
}

#[test]
fn test_total_weight_invariant_under_reordering() {
    let mut g1 = Graph::new(4);
    g1.add_edge(edge(0, 1, 1.5));
    g1.add_edge(edge(1, 2, 2.5));
    g1.add_edge(edge(2, 3, 0.5));
    g1.add_edge(edge(3, 0, 4.0));
    g1.add_edge(edge(0, 2, 2.0));

    let mut g2 = Graph::new(4);
    g2.add_edge(edge(0, 2, 2.0));
    g2.add_edge(edge(3, 0, 4.0));
    g2.add_edge(edge(2, 3, 0.5));
    g2.add_edge(edge(0, 1, 1.5));
    g2.add_edge(edge(1, 2, 2.5));

    let m1 = kruskal(&g1);
    let m2 = kruskal(&g2);
    assert_eq!(m1.edges.len(), m2.edges.len());
    assert_eq!(total_weight(&m1.edges), total_weight(&m2.edges));
}

#[test]
fn test_equal_weights_keep_input_order() {
    // ties are broken by input order: on an all-equal triangle the
    // first two edges are the ones selected
    let mut g = Graph::new(3);
    g.add_edge(edge(0, 1, 1.0));
    g.add_edge(edge(1, 2, 1.0));
    g.add_edge(edge(2, 0, 1.0));

    let mst = kruskal(&g);
    assert_eq!(mst.edges.len(), 2);
    assert_eq!((mst.edges[0].u.0, mst.edges[0].v.0), (0, 1));
    assert_eq!((mst.edges[1].u.0, mst.edges[1].v.0), (1, 2));
}

#[test]
fn test_selection_follows_ascending_weight() {
    let mut g = Graph::new(4);
    g.add_edge(edge(0, 1, 9.0));
    g.add_edge(edge(1, 2, 1.0));
    g.add_edge(edge(2, 3, 5.0));
    g.add_edge(edge(3, 0, 3.0));

    let mst = kruskal(&g);
    assert_eq!(mst.edges.len(), 3);
    // acceptance order is ascending by weight
    assert_eq!(wval(mst.edges[0].weight), 1.0);
    assert_eq!(wval(mst.edges[1].weight), 3.0);
    assert_eq!(wval(mst.edges[2].weight), 5.0);
}

#[test]
fn test_disconnected_forest_keeps_all_edges() {
    // {0-1, 1-2} and {3-4, 4-5}: each component is already a tree, so
    // every edge is kept and the total is the sum of all weights
    let mut g = Graph::new(6);
    g.add_edge(edge(0, 1, 1.0));
    g.add_edge(edge(1, 2, 2.0));
    g.add_edge(edge(3, 4, 4.0));
    g.add_edge(edge(4, 5, 8.0));

    let mst = kruskal(&g);
    assert_eq!(mst.edges.len(), 4);
    assert_eq!(total_weight(&mst.edges), 1.0 + 2.0 + 4.0 + 8.0);
}
