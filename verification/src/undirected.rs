//! Undirected weighted graph with dense integer node ids.

use crate::dsu::DisjointSet;
use vstd::prelude::*;

verus! {

/// Identifier of a node: an index below the graph's node count.
#[derive(Debug, Clone, Copy, PartialEq, Eq, Hash, Structural)]
pub struct NodeId(pub u32);

/// An undirected edge between `u` and `v`.
///
/// The weight is an order key: an unsigned integer whose ordering agrees
/// with the ordering of the real-valued weights it stands for, so that
/// sorting by key sorts by weight.
#[derive(Debug, Clone, Copy, PartialEq, Eq, Structural)]
pub struct Edge {
    pub u: NodeId,
    pub v: NodeId,
    pub weight: u32,
}

/// An undirected weighted graph: a node count and an ordered edge list.
///
/// Invariant: both endpoints of every edge lie below the node count.
#[derive(Debug)]
pub struct Graph {
    nodes: usize,
    edges: Vec<Edge>,
}

impl Graph {
    /// The number of nodes.
    pub closed spec fn node_count(self) -> int {
        self.nodes as int
    }

    /// The edges, in insertion order.
    pub closed spec fn edge_seq(self) -> Seq<Edge> {
        self.edges@
    }

    /// Well-formedness: node ids fit in 32 bits and every edge endpoint
    /// references a declared node.
    pub open spec fn wf(self) -> bool {
        &&& 0 <= self.node_count() <= u32::MAX
        &&& forall|i: int|
            0 <= i < self.edge_seq().len() ==> (#[trigger] self.edge_seq()[i]).u.0
                < self.node_count() && self.edge_seq()[i].v.0 < self.node_count()
    }

    /// Creates a graph with `nodes` nodes and no edges.
    ///
    /// Node ids are 32-bit, so the node count must fit in 32 bits.
    pub fn new(nodes: usize) -> (g: Graph)
        requires
            nodes <= u32::MAX,
        ensures
            g.wf(),
            g.node_count() == nodes,
            g.edge_seq() == Seq::<Edge>::empty(),
    {
        Graph { nodes, edges: Vec::new() }
    }

    /// Appends an edge. Both endpoints must reference declared nodes;
    /// violating that is a caller error, not a recoverable condition.
    pub fn add_edge(&mut self, edge: Edge)
        requires
            old(self).wf(),
            edge.u.0 < old(self).node_count(),
            edge.v.0 < old(self).node_count(),
        ensures
            final(self).wf(),
            final(self).node_count() == old(self).node_count(),
            final(self).edge_seq() == old(self).edge_seq().push(edge),
    {
        self.edges.push(edge);
        proof {
            assert forall|i: int| 0 <= i < self.edge_seq().len() implies (
            #[trigger] self.edge_seq()[i]).u.0 < self.node_count() && self.edge_seq()[i].v.0
                < self.node_count() by {
                if i < self.edge_seq().len() - 1 {
                    assert(self.edge_seq()[i] == old(self).edge_seq()[i]);
                }
            }
        }
    }

    /// Returns a copy of the edge list in insertion order.
    pub fn edges(&self) -> (r: Vec<Edge>)
        ensures
            r@ == self.edge_seq(),
    {
        let mut r: Vec<Edge> = Vec::new();
        let mut i: usize = 0;
        while i < self.edges.len()
            invariant
                i <= self.edges@.len(),
                r@ == self.edges@.subrange(0, i as int),
            decreases self.edges@.len() - i,
        {
            r.push(self.edges[i]);
            i += 1;
            proof {
                assert(r@ =~= self.edges@.subrange(0, i as int));
            }
        }
        proof {
            assert(r@ =~= self.edges@);
        }
        r
    }

    /// The number of nodes.
    pub fn size(&self) -> (n: usize)
        ensures
            n == self.node_count(),
    {
        self.nodes
    }
}

/// Whether `e` joins nodes `a` and `b`, in either orientation.
pub open spec fn edge_matches(e: Edge, a: int, b: int) -> bool {
    (e.u.0 == a && e.v.0 == b) || (e.u.0 == b && e.v.0 == a)
}

/// Whether an adjacency structure is a faithful neighbor table of the
/// graph: one row per node, in-range entries, and every entry backed by
/// an edge of the graph.
pub open spec fn adj_from_edges(g: Graph, a: Seq<Vec<NodeId>>) -> bool {
    &&& a.len() == g.node_count()
    &&& forall|i: int, k: int|
        0 <= i < a.len() && 0 <= k < a[i]@.len() ==> (#[trigger] a[i]@[k]).0 < g.node_count()
    &&& forall|i: int, k: int|
        #![trigger a[i]@[k]]
        0 <= i < a.len() && 0 <= k < a[i]@.len() ==> (exists|j: int|
            0 <= j < g.edge_seq().len() && edge_matches(
                #[trigger] g.edge_seq()[j],
                i,
                (a[i]@[k]).0 as int,
            ))
}

/// Sanity of an articulation-point list: no duplicates, in-range ids,
/// and every listed node has at least one incident edge.
pub open spec fn points_ok(g: Graph, a: Seq<Vec<NodeId>>, pts: Seq<NodeId>) -> bool {
    &&& pts.no_duplicates()
    &&& forall|k: int|
        0 <= k < pts.len() ==> (#[trigger] pts[k]).0 < g.node_count() && a[pts[k].0 as int]@.len()
            > 0
}

/// Sanity of a bridge list: in-range ids and every reported pair backed
/// by an edge of the graph.
pub open spec fn bridges_ok(g: Graph, brs: Seq<(NodeId, NodeId)>) -> bool {
    forall|k: int|
        0 <= k < brs.len() ==> ((#[trigger] brs[k]).0.0 < g.node_count() && brs[k].1.0
            < g.node_count() && (exists|j: int|
            0 <= j < g.edge_seq().len() && edge_matches(
                #[trigger] g.edge_seq()[j],
                brs[k].0.0 as int,
                brs[k].1.0 as int,
            )))
}

/// The number of undiscovered entries of a discovery-time table.
pub open spec fn undisc_count(s: Seq<Option<u32>>) -> nat
    decreases s.len(),
{
    if s.len() == 0 {
        0
    } else {
        (if s[0] is None {
            1nat
        } else {
            0nat
        }) + undisc_count(s.subrange(1, s.len() as int))
    }
}

/// Discovering one entry lowers the undiscovered count by exactly one.
proof fn lemma_undisc_update(s: Seq<Option<u32>>, i: int, v: u32)
    requires
        0 <= i < s.len(),
        s[i] is None,
    ensures
        undisc_count(s.update(i, Some(v))) == undisc_count(s) - 1,
    decreases s.len(),
{
    let s2 = s.update(i, Some(v));
    if i == 0 {
        assert(s2.subrange(1, s2.len() as int) =~= s.subrange(1, s.len() as int));
    } else {
        lemma_undisc_update(s.subrange(1, s.len() as int), i - 1, v);
        assert(s2[0] == s[0]);
        assert(s2.subrange(1, s2.len() as int) =~= s.subrange(1, s.len() as int).update(
            i - 1,
            Some(v),
        ));
    }
}

/// Appends `p` to the list unless it is already present.
fn insert_point(points: &mut Vec<NodeId>, p: NodeId)
    requires
        old(points)@.no_duplicates(),
    ensures
        final(points)@.no_duplicates(),
        final(points)@.len() >= old(points)@.len(),
        forall|k: int|
            0 <= k < old(points)@.len() ==> #[trigger] final(points)@[k] == old(points)@[k],
        forall|k: int|
            0 <= k < final(points)@.len() ==> old(points)@.contains(#[trigger] final(points)@[k])
                || final(points)@[k] == p,
{
    let len = points.len();
    let mut i: usize = 0;
    while i < len
        invariant
            i <= len,
            len == points@.len(),
            points@ == old(points)@,
            points@.no_duplicates(),
            forall|k: int| 0 <= k < i ==> #[trigger] points@[k] != p,
        decreases len - i,
    {
        if points[i] == p {
            return ;
        }
        i += 1;
    }
    points.push(p);
}

impl Graph {
    /// Derives the neighbor table: each undirected edge contributes an
    /// entry to both endpoints' rows.
    fn adjacency_list(&self) -> (r: Vec<Vec<NodeId>>)
        requires
            self.wf(),
        ensures
            adj_from_edges(*self, r@),
    {
        let n = self.nodes;
        let mut adj: Vec<Vec<NodeId>> = Vec::new();
        let mut i: usize = 0;
        while i < n
            invariant
                i <= n,
                adj@.len() == i,
                forall|k: int| 0 <= k < i ==> (#[trigger] adj@[k])@.len() == 0,
            decreases n - i,
        {
            adj.push(Vec::new());
            i += 1;
        }
        proof {
            assert(adj_from_edges(*self, adj@));
        }
        let mut e: usize = 0;
        while e < self.edges.len()
            invariant
                e <= self.edges@.len(),
                self.wf(),
                n == self.node_count(),
                adj_from_edges(*self, adj@),
            decreases self.edges@.len() - e,
        {
            let ed = self.edges[e];
            let ghost pre = adj@;
            let ui = ed.u.0 as usize;
            let vi = ed.v.0 as usize;
            proof {
                assert(self.edge_seq()[e as int] == ed);
            }
            adj[vi].push(ed.u);
            adj[ui].push(ed.v);
            proof {
                let ghost cur = adj@;
                assert forall|i2: int, k: int|
                    #![trigger cur[i2]@[k]]
                    0 <= i2 < cur.len() && 0 <= k < cur[i2]@.len() implies ((cur[i2]@[k]).0
                    < n && (exists|j: int|
                    0 <= j < self.edge_seq().len() && edge_matches(
                        #[trigger] self.edge_seq()[j],
                        i2,
                        (cur[i2]@[k]).0 as int,
                    ))) by {
                    if i2 == ui as int || i2 == vi as int {
                        if k < pre[i2]@.len() {
                            assert(cur[i2]@[k] == pre[i2]@[k]);
                        } else {
                            assert(cur[i2]@[k] == ed.u || cur[i2]@[k] == ed.v);
                            assert(edge_matches(
                                self.edge_seq()[e as int],
                                i2,
                                (cur[i2]@[k]).0 as int,
                            ));
                        }
                    } else {
                        assert(cur[i2]@[k] == pre[i2]@[k]);
                    }
                }
                assert(adj_from_edges(*self, adj@));
            }
            e += 1;
        }
        adj
    }
}

/// Appending an entry raises the undiscovered count exactly when the
/// entry is undiscovered.
proof fn lemma_undisc_push(s: Seq<Option<u32>>, x: Option<u32>)
    ensures
        undisc_count(s.push(x)) == undisc_count(s) + (if x is None {
            1int
        } else {
            0int
        }),
    decreases s.len(),
{
    let sp = s.push(x);
    assert(undisc_count(sp) == (if sp[0] is None {
        1nat
    } else {
        0nat
    }) + undisc_count(sp.subrange(1, sp.len() as int)));
    if s.len() == 0 {
        assert(sp.subrange(1, 1) =~= Seq::<Option<u32>>::empty());
    } else {
        lemma_undisc_push(s.subrange(1, s.len() as int), x);
        assert(sp.subrange(1, sp.len() as int) =~= s.subrange(1, s.len() as int).push(x));
        assert(sp[0] == s[0]);
    }
}

/// The shared well-formedness of the traversal state: a faithful
/// neighbor table, consistently sized work arrays, a clock equal to the
/// number of discovered nodes, and sane result lists.
pub(crate) open spec fn cc_state_ok(
    g: Graph,
    a: Seq<Vec<NodeId>>,
    disc: Seq<Option<u32>>,
    low: Seq<u32>,
    par: Seq<Option<usize>>,
    pts: Seq<NodeId>,
    brs: Seq<(NodeId, NodeId)>,
    time: u32,
) -> bool {
    &&& adj_from_edges(g, a)
    &&& disc.len() == g.node_count()
    &&& low.len() == g.node_count()
    &&& par.len() == g.node_count()
    &&& time as int == g.node_count() - undisc_count(disc)
    &&& points_ok(g, a, pts)
    &&& bridges_ok(g, brs)
}

impl Graph {
    /// One traversal of the component of `u`: assigns discovery and
    /// low-link values and collects bridges and articulation points by
    /// the low-link rules.
    #[verifier::rlimit(60)]
    fn dfs_visit(
        &self,
        adj: &Vec<Vec<NodeId>>,
        u: usize,
        par: &mut Vec<Option<usize>>,
        disc: &mut Vec<Option<u32>>,
        low: &mut Vec<u32>,
        points: &mut Vec<NodeId>,
        bridges: &mut Vec<(NodeId, NodeId)>,
        time: &mut u32,
    )
        requires
            self.wf(),
            cc_state_ok(
                *self,
                adj@,
                old(disc)@,
                old(low)@,
                old(par)@,
                old(points)@,
                old(bridges)@,
                *old(time),
            ),
            u < self.node_count(),
            old(disc)@[u as int] is None,
        ensures
            cc_state_ok(
                *self,
                adj@,
                final(disc)@,
                final(low)@,
                final(par)@,
                final(points)@,
                final(bridges)@,
                *final(time),
            ),
            forall|x: int|
                0 <= x < old(disc)@.len() && (#[trigger] old(disc)@[x]) is Some ==> final(disc)@[x]
                    == old(disc)@[x],
            final(disc)@[u as int] is Some,
            undisc_count(final(disc)@) <= undisc_count(old(disc)@) - 1,
            forall|k: int|
                0 <= k < old(points)@.len() ==> #[trigger] final(points)@[k] == old(points)@[k],
            final(points)@.len() >= old(points)@.len(),
            forall|k: int|
                0 <= k < old(bridges)@.len() ==> #[trigger] final(bridges)@[k] == old(bridges)@[k],
            final(bridges)@.len() >= old(bridges)@.len(),
        decreases undisc_count(old(disc)@),
    {
        let ghost n = self.node_count();
        let t0 = *time;
        proof {
            lemma_undisc_update(disc@, u as int, t0);
        }
        disc.set(u, Some(t0));
        low.set(u, t0);
        *time = t0 + 1;
        let ghost d_in = disc@;
        let mut children: u32 = 0;
        let deg = adj[u].len();
        let mut k: usize = 0;
        while k < deg
            invariant
                self.wf(),
                n == self.node_count(),
                u < n,
                deg == adj@[u as int]@.len(),
                k <= deg,
                cc_state_ok(*self, adj@, disc@, low@, par@, points@, bridges@, *time),
                disc@[u as int] is Some,
                d_in.len() == disc@.len(),
                old(disc)@.len() == disc@.len(),
                undisc_count(disc@) <= undisc_count(d_in),
                undisc_count(d_in) == undisc_count(old(disc)@) - 1,
                forall|x: int|
                    0 <= x < old(disc)@.len() && (#[trigger] old(disc)@[x]) is Some ==> disc@[x]
                        == old(disc)@[x],
                (children as int) <= k,
                (children as int) < n - undisc_count(disc@),
                forall|k2: int|
                    0 <= k2 < old(points)@.len() ==> #[trigger] points@[k2] == old(points)@[k2],
                points@.len() >= old(points)@.len(),
                forall|k2: int|
                    0 <= k2 < old(bridges)@.len() ==> #[trigger] bridges@[k2] == old(bridges)@[k2],
                bridges@.len() >= old(bridges)@.len(),
            decreases deg - k,
        {
            let vn = adj[u][k];
            let v = vn.0 as usize;
            proof {
                assert(adj@[u as int]@[k as int] == vn);
                assert(v < n);
            }
            let dv = disc[v];
            match dv {
                None => {
                    let ghost d_pre = disc@;
                    children += 1;
                    par.set(v, Some(u));
                    self.dfs_visit(adj, v, par, disc, low, points, bridges, time);
                    proof {
                        assert forall|x: int|
                            0 <= x < old(disc)@.len() && (#[trigger] old(disc)@[x]) is Some implies disc@[x]
                            == old(disc)@[x] by {
                            assert(d_pre[x] is Some);
                        }
                        assert(d_pre[u as int] is Some);
                        assert(disc@[u as int] is Some);
                    }
                    let lv = low[v];
                    if lv < low[u] {
                        low.set(u, lv);
                    }
                    let dut = match disc[u] {
                        Some(t) => t,
                        // u was discovered on entry; this arm never runs
                        None => 0,
                    };
                    if lv > dut {
                        let ghost pre_b = bridges@;
                        bridges.push((NodeId(u as u32), vn));
                        proof {
                            assert forall|k2: int|
                                0 <= k2 < bridges@.len() implies ((#[trigger] bridges@[k2]).0.0 < n
                                && bridges@[k2].1.0 < n && (exists|j: int|
                                0 <= j < self.edge_seq().len() && edge_matches(
                                    #[trigger] self.edge_seq()[j],
                                    bridges@[k2].0.0 as int,
                                    bridges@[k2].1.0 as int,
                                ))) by {
                                if k2 < pre_b.len() {
                                    assert(bridges@[k2] == pre_b[k2]);
                                } else {
                                    assert(bridges@[k2] == (NodeId(u as u32), vn));
                                    let j = choose|j: int|
                                        0 <= j < self.edge_seq().len() && edge_matches(
                                            #[trigger] self.edge_seq()[j],
                                            u as int,
                                            vn.0 as int,
                                        );
                                    assert(edge_matches(
                                        self.edge_seq()[j],
                                        bridges@[k2].0.0 as int,
                                        bridges@[k2].1.0 as int,
                                    ));
                                }
                            }
                        }
                    }
                    let rooted = match par[u] {
                        Some(_) => true,
                        None => false,
                    };
                    if lv >= dut && rooted {
                        let ghost pre_p = points@;
                        insert_point(points, NodeId(u as u32));
                        proof {
                            assert forall|k2: int|
                                0 <= k2 < points@.len() implies ((#[trigger] points@[k2]).0 < n
                                && adj@[points@[k2].0 as int]@.len() > 0) by {
                                if pre_p.contains(points@[k2]) {
                                    let x = choose|x: int|
                                        0 <= x < pre_p.len() && pre_p[x] == points@[k2];
                                } else {
                                    assert(points@[k2] == NodeId(u as u32));
                                }
                            }
                        }
                    }
                },
                Some(t) => {
                    let is_par = match par[u] {
                        Some(p) => p == v,
                        None => false,
                    };
                    if !is_par {
                        if t < low[u] {
                            low.set(u, t);
                        }
                    }
                },
            }
            k += 1;
        }
        let rooted_end = match par[u] {
            Some(_) => false,
            None => true,
        };
        if rooted_end && children >= 2 {
            let ghost pre_p = points@;
            insert_point(points, NodeId(u as u32));
            proof {
                assert forall|k2: int|
                    0 <= k2 < points@.len() implies ((#[trigger] points@[k2]).0 < n
                    && adj@[points@[k2].0 as int]@.len() > 0) by {
                    if pre_p.contains(points@[k2]) {
                        let x = choose|x: int| 0 <= x < pre_p.len() && pre_p[x] == points@[k2];
                    } else {
                        assert(points@[k2] == NodeId(u as u32));
                        assert(deg > 0);
                    }
                }
            }
        }
    }

    /// Finds the critical components of the graph: its articulation
    /// points (without duplicates, low-link discovery order first) and
    /// its bridges, each reported as `(parent, child)` in the direction
    /// the traversal discovered it. Disconnected input is handled by
    /// restarting the traversal from every undiscovered node.
    ///
    /// The low-link traversal proposes the candidates; each is then
    /// certified against the connectivity characterization, and the
    /// lists are completed from it, so the contract pins membership
    /// exactly: a pair stands in the bridge list exactly when some
    /// stored edge joins it whose removal disconnects its endpoints, and
    /// a node stands in the point list exactly when removing it with its
    /// incident edges disconnects two of the remaining nodes. On the
    /// traversal's own behavior the certification passes change nothing;
    /// they carry the proof. One divergence: a doubled edge is never
    /// certified as a bridge (removing one copy leaves the other), where
    /// the plain low-link rule would misreport it.
    pub fn critical_components(&self) -> (r: (Vec<NodeId>, Vec<(NodeId, NodeId)>))
        requires
            self.wf(),
        ensures
            r.0@.no_duplicates(),
            forall|k: int|
                0 <= k < r.0@.len() ==> ((#[trigger] r.0@[k]).0 < self.node_count() && splits_pair(
                    self.edge_seq(),
                    self.node_count(),
                    r.0@[k].0 as int,
                )),
            forall|v: int|
                0 <= v < self.node_count() && #[trigger] splits_pair(
                    self.edge_seq(),
                    self.node_count(),
                    v,
                ) ==> (exists|k: int|
                    0 <= k < r.0@.len() && (#[trigger] r.0@[k]).0 as int == v),
            forall|k: int|
                0 <= k < r.1@.len() ==> certified_bridge(
                    self.edge_seq(),
                    self.node_count(),
                    (#[trigger] r.1@[k]).0,
                    r.1@[k].1,
                ),
            forall|j: int|
                0 <= j < self.edge_seq().len() && !crate::mst::connected(
                    self.edge_seq().remove(j),
                    self.node_count(),
                    (#[trigger] self.edge_seq()[j]).u.0 as int,
                    self.edge_seq()[j].v.0 as int,
                ) ==> pair_in(r.1@, self.edge_seq()[j].u, self.edge_seq()[j].v),
            self.edge_seq().len() == 0 ==> r.0@.len() == 0 && r.1@.len() == 0,
    {
        let ghost n = self.node_count();
        let adj = self.adjacency_list();
        let nodes = self.nodes;
        let mut disc: Vec<Option<u32>> = Vec::new();
        let mut low: Vec<u32> = Vec::new();
        let mut par: Vec<Option<usize>> = Vec::new();
        let mut i: usize = 0;
        while i < nodes
            invariant
                i <= nodes,
                disc@.len() == i,
                low@.len() == i,
                par@.len() == i,
                undisc_count(disc@) == i,
            decreases nodes - i,
        {
            proof {
                lemma_undisc_push(disc@, None);
            }
            disc.push(None);
            low.push(0);
            par.push(None);
            i += 1;
        }
        let mut points: Vec<NodeId> = Vec::new();
        let mut bridges: Vec<(NodeId, NodeId)> = Vec::new();
        let mut time: u32 = 0;
        let mut x: usize = 0;
        while x < nodes
            invariant
                x <= nodes,
                nodes == n,
                n == self.node_count(),
                self.wf(),
                cc_state_ok(*self, adj@, disc@, low@, par@, points@, bridges@, time),
            decreases nodes - x,
        {
            let seen = match disc[x] {
                Some(_) => true,
                None => false,
            };
            if !seen {
                self.dfs_visit(&adj, x, &mut par, &mut disc, &mut low, &mut points, &mut bridges, &mut time);
            }
            x += 1;
        }
        // certify the candidates and complete the lists against the
        // connectivity characterization
        let edges_v = self.edges();
        proof {
            assert forall|k: int|
                0 <= k < edges_v@.len() implies (#[trigger] edges_v@[k]).u.0 < nodes
                && edges_v@[k].v.0 < nodes by {
                assert(self.edge_seq()[k].u.0 < self.node_count());
            }
        }
        let mut cpoints: Vec<NodeId> = Vec::new();
        let mut ci: usize = 0;
        while ci < points.len()
            invariant
                ci <= points@.len(),
                nodes == n,
                n == self.node_count(),
                self.wf(),
                nodes <= u32::MAX,
                edges_v@ == self.edge_seq(),
                forall|k: int|
                    0 <= k < edges_v@.len() ==> (#[trigger] edges_v@[k]).u.0 < nodes
                        && edges_v@[k].v.0 < nodes,
                points_ok(*self, adj@, points@),
                cpoints@.no_duplicates(),
                forall|k: int|
                    0 <= k < cpoints@.len() ==> ((#[trigger] cpoints@[k]).0 < nodes && splits_pair(
                        edges_v@,
                        n,
                        cpoints@[k].0 as int,
                    )),
            decreases points@.len() - ci,
        {
            let p = points[ci];
            if !point_listed(&cpoints, p) {
                if node_splits(nodes, &edges_v, p.0) {
                    let ghost prep = cpoints@;
                    cpoints.push(p);
                    proof {
                        assert forall|a: int, b: int|
                            0 <= a < cpoints@.len() && 0 <= b < cpoints@.len() && a != b implies
                            cpoints@[a] != cpoints@[b] by {
                            if a < cpoints@.len() - 1 && b < cpoints@.len() - 1 {
                                assert(cpoints@[a] == prep[a] && cpoints@[b] == prep[b]);
                            } else if a == cpoints@.len() - 1 {
                                assert(cpoints@[b] == prep[b]);
                            } else {
                                assert(cpoints@[a] == prep[a]);
                            }
                        }
                    }
                }
            }
            ci += 1;
        }
        let mut cv: usize = 0;
        while cv < nodes
            invariant
                cv <= nodes,
                nodes == n,
                n == self.node_count(),
                self.wf(),
                nodes <= u32::MAX,
                edges_v@ == self.edge_seq(),
                forall|k: int|
                    0 <= k < edges_v@.len() ==> (#[trigger] edges_v@[k]).u.0 < nodes
                        && edges_v@[k].v.0 < nodes,
                cpoints@.no_duplicates(),
                forall|k: int|
                    0 <= k < cpoints@.len() ==> ((#[trigger] cpoints@[k]).0 < nodes && splits_pair(
                        edges_v@,
                        n,
                        cpoints@[k].0 as int,
                    )),
                forall|v2: int|
                    0 <= v2 < cv && #[trigger] splits_pair(edges_v@, n, v2) ==> (exists|k: int|
                        0 <= k < cpoints@.len() && (#[trigger] cpoints@[k]).0 as int == v2),
            decreases nodes - cv,
        {
            let pnode = NodeId(cv as u32);
            let ghost prep = cpoints@;
            if !point_listed(&cpoints, pnode) {
                if node_splits(nodes, &edges_v, cv as u32) {
                    cpoints.push(pnode);
                    proof {
                        assert forall|a: int, b: int|
                            0 <= a < cpoints@.len() && 0 <= b < cpoints@.len() && a != b implies
                            cpoints@[a] != cpoints@[b] by {
                            if a < cpoints@.len() - 1 && b < cpoints@.len() - 1 {
                                assert(cpoints@[a] == prep[a] && cpoints@[b] == prep[b]);
                            } else if a == cpoints@.len() - 1 {
                                assert(cpoints@[b] == prep[b]);
                            } else {
                                assert(cpoints@[a] == prep[a]);
                            }
                        }
                    }
                }
            }
            proof {
                assert forall|v2: int|
                    0 <= v2 < cv + 1 && #[trigger] splits_pair(edges_v@, n, v2) implies (exists|
                    k: int,
                |
                    0 <= k < cpoints@.len() && (#[trigger] cpoints@[k]).0 as int == v2) by {
                    if v2 < cv {
                        let k = choose|k: int|
                            0 <= k < prep.len() && (#[trigger] prep[k]).0 as int == v2;
                        assert(cpoints@[k].0 as int == v2);
                    } else {
                        if prep.contains(pnode) {
                            let k = choose|k: int| 0 <= k < prep.len() && prep[k] == pnode;
                            assert(cpoints@[k].0 as int == v2);
                        } else {
                            assert(cpoints@[cpoints@.len() - 1].0 as int == v2);
                        }
                    }
                }
            }
            cv += 1;
        }
        let mut cbridges: Vec<(NodeId, NodeId)> = Vec::new();
        let mut bi: usize = 0;
        while bi < bridges.len()
            invariant
                bi <= bridges@.len(),
                nodes == n,
                n == self.node_count(),
                self.wf(),
                nodes <= u32::MAX,
                edges_v@ == self.edge_seq(),
                forall|k: int|
                    0 <= k < edges_v@.len() ==> (#[trigger] edges_v@[k]).u.0 < nodes
                        && edges_v@[k].v.0 < nodes,
                bridges_ok(*self, bridges@),
                forall|k: int|
                    0 <= k < cbridges@.len() ==> certified_bridge(
                        edges_v@,
                        n,
                        (#[trigger] cbridges@[k]).0,
                        cbridges@[k].1,
                    ),
            decreases bridges@.len() - bi,
        {
            let cand = bridges[bi];
            let ba = cand.0;
            let bb = cand.1;
            let mut j: usize = 0;
            let mut found: bool = false;
            let mut fj: usize = 0;
            while j < edges_v.len()
                invariant
                    j <= edges_v@.len(),
                    found ==> fj < edges_v@.len() && edge_matches(
                        edges_v@[fj as int],
                        ba.0 as int,
                        bb.0 as int,
                    ),
                decreases edges_v@.len() - j,
            {
                let e = edges_v[j];
                if !found && ((e.u == ba && e.v == bb) || (e.u == bb && e.v == ba)) {
                    found = true;
                    fj = j;
                }
                j += 1;
            }
            if found {
                let mut without = self.edges();
                without.remove(fj);
                proof {
                    assert(without@ == edges_v@.remove(fj as int));
                    assert forall|k: int|
                        0 <= k < without@.len() implies (#[trigger] without@[k]).u.0 < nodes
                        && without@[k].v.0 < nodes by {
                        if k < fj {
                            assert(without@[k] == edges_v@[k]);
                        } else {
                            assert(without@[k] == edges_v@[k + 1]);
                        }
                    }
                    assert(bridges@[bi as int].0.0 < nodes && bridges@[bi as int].1.0 < nodes);
                }
                if !pair_connected(nodes, &without, ba.0 as usize, bb.0 as usize) {
                    if !pair_listed(&cbridges, ba, bb) {
                        cbridges.push(cand);
                        proof {
                            assert(edge_matches(
                                edges_v@[fj as int],
                                cand.0.0 as int,
                                cand.1.0 as int,
                            ));
                            assert(!crate::mst::connected(
                                edges_v@.remove(fj as int),
                                n,
                                cand.0.0 as int,
                                cand.1.0 as int,
                            ));
                            assert(certified_bridge(edges_v@, n, cand.0, cand.1));
                        }
                    }
                }
            }
            bi += 1;
        }
        let mut bj: usize = 0;
        while bj < edges_v.len()
            invariant
                bj <= edges_v@.len(),
                nodes == n,
                n == self.node_count(),
                self.wf(),
                nodes <= u32::MAX,
                edges_v@ == self.edge_seq(),
                forall|k: int|
                    0 <= k < edges_v@.len() ==> (#[trigger] edges_v@[k]).u.0 < nodes
                        && edges_v@[k].v.0 < nodes,
                forall|k: int|
                    0 <= k < cbridges@.len() ==> certified_bridge(
                        edges_v@,
                        n,
                        (#[trigger] cbridges@[k]).0,
                        cbridges@[k].1,
                    ),
                forall|j3: int|
                    0 <= j3 < bj && !crate::mst::connected(
                        edges_v@.remove(j3),
                        n,
                        (#[trigger] edges_v@[j3]).u.0 as int,
                        edges_v@[j3].v.0 as int,
                    ) ==> pair_in(cbridges@, edges_v@[j3].u, edges_v@[j3].v),
            decreases edges_v@.len() - bj,
        {
            let e = edges_v[bj];
            let ghost preb = cbridges@;
            let listed = pair_listed(&cbridges, e.u, e.v);
            if !listed {
                let mut without = self.edges();
                without.remove(bj);
                proof {
                    assert(without@ == edges_v@.remove(bj as int));
                    assert forall|k: int|
                        0 <= k < without@.len() implies (#[trigger] without@[k]).u.0 < nodes
                        && without@[k].v.0 < nodes by {
                        if k < bj {
                            assert(without@[k] == edges_v@[k]);
                        } else {
                            assert(without@[k] == edges_v@[k + 1]);
                        }
                    }
                }
                if !pair_connected(nodes, &without, e.u.0 as usize, e.v.0 as usize) {
                    cbridges.push((e.u, e.v));
                    proof {
                        assert(edge_matches(edges_v@[bj as int], e.u.0 as int, e.v.0 as int));
                        assert(certified_bridge(edges_v@, n, e.u, e.v));
                    }
                }
            }
            proof {
                assert forall|j3: int|
                    0 <= j3 < bj + 1 && !crate::mst::connected(
                        edges_v@.remove(j3),
                        n,
                        (#[trigger] edges_v@[j3]).u.0 as int,
                        edges_v@[j3].v.0 as int,
                    ) implies pair_in(cbridges@, edges_v@[j3].u, edges_v@[j3].v) by {
                    if j3 < bj {
                        let k = choose|k: int|
                            0 <= k < preb.len() && (((#[trigger] preb[k]).0 == edges_v@[j3].u
                                && preb[k].1 == edges_v@[j3].v) || (preb[k].0 == edges_v@[j3].v
                                && preb[k].1 == edges_v@[j3].u));
                        assert(cbridges@[k] == preb[k]);
                    } else {
                        if preb.contains((e.u, e.v)) || pair_in(preb, e.u, e.v) {
                            let k = choose|k: int|
                                0 <= k < preb.len() && (((#[trigger] preb[k]).0 == e.u && preb[k].1
                                    == e.v) || (preb[k].0 == e.v && preb[k].1 == e.u));
                            assert(cbridges@[k] == preb[k]);
                        } else {
                            assert(cbridges@[cbridges@.len() - 1] == (e.u, e.v));
                        }
                    }
                }
            }
            bj += 1;
        }
        proof {
            if self.edge_seq().len() == 0 {
                if cbridges@.len() > 0 {
                    assert(certified_bridge(edges_v@, n, cbridges@[0].0, cbridges@[0].1));
                    let j = choose|j: int|
                        0 <= j < edges_v@.len() && edge_matches(
                            #[trigger] edges_v@[j],
                            cbridges@[0].0.0 as int,
                            cbridges@[0].1.0 as int,
                        ) && !crate::mst::connected(
                            edges_v@.remove(j),
                            n,
                            cbridges@[0].0.0 as int,
                            cbridges@[0].1.0 as int,
                        );
                    assert(false);
                }
                if cpoints@.len() > 0 {
                    assert(splits_pair(edges_v@, n, cpoints@[0].0 as int));
                    let (x2, y2) = choose|x2: int, y2: int|
                        0 <= x2 < n && 0 <= y2 < n && x2 != cpoints@[0].0 as int && y2
                            != cpoints@[0].0 as int && x2 != y2 && #[trigger] crate::mst::connected(
                            edges_v@,
                            n,
                            x2,
                            y2,
                        ) && !crate::mst::connected(
                            edges_avoiding(edges_v@, cpoints@[0].0 as int),
                            n,
                            x2,
                            y2,
                        );
                    let s = choose|s: Seq<int>|
                        #[trigger] crate::mst::walk_ok(
                            edges_v@,
                            crate::mst::init_root(n),
                            s,
                            x2,
                            y2,
                        );
                    assert(edges_v@ =~= Seq::<Edge>::empty());
                    crate::mst::lemma_walk_roots(crate::mst::init_root(n), s, x2, y2);
                    assert(crate::mst::init_root(n)[x2] == x2);
                    assert(crate::mst::init_root(n)[y2] == y2);
                    assert(false);
                }
            }
        }
        (cpoints, cbridges)
    }
}


/// The edges of `es` that do not touch node `v`.
pub open spec fn edges_avoiding(es: Seq<Edge>, v: int) -> Seq<Edge>
    decreases es.len(),
{
    if es.len() == 0 {
        es
    } else {
        let rest = edges_avoiding(es.subrange(1, es.len() as int), v);
        if es[0].u.0 == v || es[0].v.0 == v {
            rest
        } else {
            seq![es[0]] + rest
        }
    }
}

/// Whether removing node `v` together with its incident edges
/// disconnects two of the remaining nodes: the articulation-point
/// property.
pub open spec fn splits_pair(es: Seq<Edge>, n: int, v: int) -> bool {
    exists|x: int, y: int|
        0 <= x < n && 0 <= y < n && x != v && y != v && x != y && #[trigger] crate::mst::connected(
            es,
            n,
            x,
            y,
        ) && !crate::mst::connected(edges_avoiding(es, v), n, x, y)
}

/// Whether some stored edge joins `a` and `b` and its removal
/// disconnects them: the bridge property of the pair.
pub open spec fn certified_bridge(es: Seq<Edge>, n: int, a: NodeId, b: NodeId) -> bool {
    exists|j: int|
        0 <= j < es.len() && edge_matches(#[trigger] es[j], a.0 as int, b.0 as int)
            && !crate::mst::connected(es.remove(j), n, a.0 as int, b.0 as int)
}

/// Whether the pair `{a, b}` stands in the list, in either orientation.
pub open spec fn pair_in(brs: Seq<(NodeId, NodeId)>, a: NodeId, b: NodeId) -> bool {
    exists|k: int|
        0 <= k < brs.len() && (((#[trigger] brs[k]).0 == a && brs[k].1 == b) || (brs[k].0 == b
            && brs[k].1 == a))
}

/// Decides whether two nodes are connected by the given edges, by
/// uniting each edge in a disjoint-set forest and comparing the
/// resulting representatives.
fn pair_connected(n: usize, edges: &Vec<Edge>, a: usize, b: usize) -> (r: bool)
    requires
        n <= u32::MAX,
        a < n,
        b < n,
        forall|k: int|
            0 <= k < edges@.len() ==> (#[trigger] edges@[k]).u.0 < n && edges@[k].v.0 < n,
    ensures
        r == crate::mst::connected(edges@, n as int, a as int, b as int),
{
    let mut ds = DisjointSet::new(n);
    let mut i: usize = 0;
    proof {
        assert(crate::mst::roots_of(ds, n as int) =~= crate::mst::init_root(n as int));
        assert(ds.sizes() =~= crate::mst::init_size(n as int));
        assert(edges@.subrange(0, edges@.len() as int) =~= edges@);
    }
    while i < edges.len()
        invariant
            i <= edges@.len(),
            ds.wf(),
            ds.len() == n,
            n <= u32::MAX,
            a < n,
            b < n,
            forall|k: int|
                0 <= k < edges@.len() ==> (#[trigger] edges@[k]).u.0 < n && edges@[k].v.0 < n,
            crate::mst::kruskal_part(
                edges@,
                crate::mst::init_root(n as int),
                crate::mst::init_size(n as int),
            ) == crate::mst::kruskal_part(
                edges@.subrange(i as int, edges@.len() as int),
                crate::mst::roots_of(ds, n as int),
                ds.sizes(),
            ),
        decreases edges@.len() - i,
    {
        let e = edges[i];
        let ghost pre = ds;
        let ghost rem = edges@.subrange(i as int, edges@.len() as int);
        let merged = ds.union(e.u.0 as usize, e.v.0 as usize);
        proof {
            assert(rem[0] == e);
            assert(rem.subrange(1, rem.len() as int) =~= edges@.subrange(
                i + 1,
                edges@.len() as int,
            ));
            let ru = pre.root_of(e.u.0 as int);
            let rv = pre.root_of(e.v.0 as int);
            assert(crate::mst::roots_of(pre, n as int)[e.u.0 as int] == ru);
            assert(crate::mst::roots_of(pre, n as int)[e.v.0 as int] == rv);
            if merged {
                let win = if pre.sizes()[ru] >= pre.sizes()[rv] {
                    ru
                } else {
                    rv
                };
                let lose = if pre.sizes()[ru] >= pre.sizes()[rv] {
                    rv
                } else {
                    ru
                };
                assert(crate::mst::roots_of(ds, n as int) =~= crate::mst::merge_root(
                    crate::mst::roots_of(pre, n as int),
                    win,
                    lose,
                ));
                assert(ds.sizes() =~= pre.sizes().update(
                    win,
                    (if pre.sizes()[ru] + pre.sizes()[rv] > usize::MAX {
                        usize::MAX as int
                    } else {
                        pre.sizes()[ru] + pre.sizes()[rv]
                    }) as usize,
                ));
                assert(crate::mst::kruskal_part(
                    rem,
                    crate::mst::roots_of(pre, n as int),
                    pre.sizes(),
                ) == crate::mst::kruskal_part(
                    rem.subrange(1, rem.len() as int),
                    crate::mst::roots_of(ds, n as int),
                    ds.sizes(),
                ));
            } else {
                assert(crate::mst::roots_of(ds, n as int) =~= crate::mst::roots_of(pre, n as int));
                assert(ds.sizes() =~= pre.sizes());
                assert(crate::mst::kruskal_part(
                    rem,
                    crate::mst::roots_of(pre, n as int),
                    pre.sizes(),
                ) == crate::mst::kruskal_part(
                    rem.subrange(1, rem.len() as int),
                    crate::mst::roots_of(ds, n as int),
                    ds.sizes(),
                ));
            }
        }
        i += 1;
    }
    proof {
        assert(edges@.subrange(edges@.len() as int, edges@.len() as int) =~= Seq::<Edge>::empty());
        assert(crate::mst::kruskal_part(
            edges@,
            crate::mst::init_root(n as int),
            crate::mst::init_size(n as int),
        ) =~= crate::mst::roots_of(ds, n as int));
        assert(crate::mst::roots_idem(crate::mst::init_root(n as int))) by {
            let r0 = crate::mst::init_root(n as int);
            assert forall|x: int| 0 <= x < r0.len() implies 0 <= #[trigger] r0[x] < r0.len()
                && r0[r0[x]] == r0[x] by {
                assert(r0[x] == x);
            }
        }
        crate::mst::lemma_part_conn(
            edges@,
            crate::mst::init_root(n as int),
            crate::mst::init_size(n as int),
            a as int,
            b as int,
        );
    }
    let ra = ds.find(a);
    let rb = ds.find(b);
    proof {
        assert(crate::mst::roots_of(ds, n as int)[a as int] == ds.root_of(a as int));
        assert(crate::mst::roots_of(ds, n as int)[b as int] == ds.root_of(b as int));
    }
    ra == rb
}

/// Builds the edge list with every edge incident to `v` removed.
fn edges_without_node(edges: &Vec<Edge>, v: u32) -> (r: Vec<Edge>)
    ensures
        r@ == edges_avoiding(edges@, v as int),
        forall|k: int|
            0 <= k < r@.len() ==> exists|k2: int|
                0 <= k2 < edges@.len() && #[trigger] r@[k] == edges@[k2],
{
    let mut r: Vec<Edge> = Vec::new();
    let mut i: usize = 0;
    proof {
        assert(edges@.subrange(0, edges@.len() as int) =~= edges@);
    }
    while i < edges.len()
        invariant
            i <= edges@.len(),
            edges_avoiding(edges@, v as int) == r@ + edges_avoiding(
                edges@.subrange(i as int, edges@.len() as int),
                v as int,
            ),
            forall|k: int|
                0 <= k < r@.len() ==> exists|k2: int|
                    0 <= k2 < edges@.len() && #[trigger] r@[k] == edges@[k2],
        decreases edges@.len() - i,
    {
        let e = edges[i];
        proof {
            let rem = edges@.subrange(i as int, edges@.len() as int);
            assert(rem[0] == edges@[i as int]);
            assert(rem.subrange(1, rem.len() as int) =~= edges@.subrange(
                i + 1,
                edges@.len() as int,
            ));
        }
        if e.u.0 != v && e.v.0 != v {
            r.push(e);
            proof {
                assert(edges_avoiding(edges@, v as int) =~= r@ + edges_avoiding(
                    edges@.subrange(i + 1, edges@.len() as int),
                    v as int,
                ));
                assert(r@[r@.len() - 1] == edges@[i as int]);
            }
        }
        i += 1;
    }
    proof {
        assert(edges@.subrange(edges@.len() as int, edges@.len() as int) =~= Seq::<Edge>::empty());
        assert(r@ =~= edges_avoiding(edges@, v as int));
    }
    r
}

/// Decides whether removing node `v` with its incident edges
/// disconnects some pair of the remaining nodes.
fn node_splits(n: usize, edges: &Vec<Edge>, v: u32) -> (r: bool)
    requires
        n <= u32::MAX,
        forall|k: int|
            0 <= k < edges@.len() ==> (#[trigger] edges@[k]).u.0 < n && edges@[k].v.0 < n,
    ensures
        r == splits_pair(edges@, n as int, v as int),
{
    let avoided = edges_without_node(edges, v);
    proof {
        assert forall|k: int|
            0 <= k < avoided@.len() implies (#[trigger] avoided@[k]).u.0 < n && avoided@[k].v.0
            < n by {
            let k2 = choose|k2: int| 0 <= k2 < edges@.len() && avoided@[k] == edges@[k2];
            assert(edges@[k2].u.0 < n && edges@[k2].v.0 < n);
        }
    }
    let mut x: usize = 0;
    while x < n
        invariant
            x <= n,
            n <= u32::MAX,
            avoided@ == edges_avoiding(edges@, v as int),
            forall|k: int|
                0 <= k < edges@.len() ==> (#[trigger] edges@[k]).u.0 < n && edges@[k].v.0 < n,
            forall|k: int|
                0 <= k < avoided@.len() ==> (#[trigger] avoided@[k]).u.0 < n && avoided@[k].v.0
                    < n,
            forall|x2: int, y2: int|
                0 <= x2 < x && 0 <= y2 < n && x2 != v && y2 != v && x2 != y2 ==> !(
                #[trigger] crate::mst::connected(edges@, n as int, x2, y2)
                    && !crate::mst::connected(avoided@, n as int, x2, y2)),
        decreases n - x,
    {
        let mut y: usize = 0;
        while y < n
            invariant
                x < n,
                y <= n,
                n <= u32::MAX,
                avoided@ == edges_avoiding(edges@, v as int),
                forall|k: int|
                    0 <= k < edges@.len() ==> (#[trigger] edges@[k]).u.0 < n && edges@[k].v.0 < n,
                forall|k: int|
                    0 <= k < avoided@.len() ==> (#[trigger] avoided@[k]).u.0 < n
                        && avoided@[k].v.0 < n,
                forall|x2: int, y2: int|
                    0 <= x2 < x && 0 <= y2 < n && x2 != v && y2 != v && x2 != y2 ==> !(
                    #[trigger] crate::mst::connected(edges@, n as int, x2, y2)
                        && !crate::mst::connected(avoided@, n as int, x2, y2)),
                forall|y2: int|
                    0 <= y2 < y && x != v && y2 != v && x != y2 ==> !(
                    #[trigger] crate::mst::connected(edges@, n as int, x as int, y2)
                        && !crate::mst::connected(avoided@, n as int, x as int, y2)),
            decreases n - y,
        {
            if x as u32 != v && y as u32 != v && x != y {
                if pair_connected(n, edges, x, y) && !pair_connected(n, &avoided, x, y) {
                    proof {
                        assert(crate::mst::connected(edges@, n as int, x as int, y as int)
                            && !crate::mst::connected(
                            edges_avoiding(edges@, v as int),
                            n as int,
                            x as int,
                            y as int,
                        ));
                    }
                    return true;
                }
            }
            y += 1;
        }
        x += 1;
    }
    proof {
        if splits_pair(edges@, n as int, v as int) {
            let (x2, y2) = choose|x2: int, y2: int|
                0 <= x2 < n && 0 <= y2 < n && x2 != v && y2 != v && x2 != y2
                    && #[trigger] crate::mst::connected(edges@, n as int, x2, y2)
                    && !crate::mst::connected(edges_avoiding(edges@, v as int), n as int, x2, y2);
            assert(false);
        }
    }
    false
}

/// Whether the node stands in the list.
fn point_listed(points: &Vec<NodeId>, p: NodeId) -> (r: bool)
    ensures
        r == points@.contains(p),
{
    let mut i: usize = 0;
    while i < points.len()
        invariant
            i <= points@.len(),
            forall|k: int| 0 <= k < i ==> #[trigger] points@[k] != p,
        decreases points@.len() - i,
    {
        if points[i] == p {
            return true;
        }
        i += 1;
    }
    proof {
        if points@.contains(p) {
            let k = choose|k: int| 0 <= k < points@.len() && points@[k] == p;
            assert(false);
        }
    }
    false
}

/// Whether the pair stands in the list, in either orientation.
fn pair_listed(brs: &Vec<(NodeId, NodeId)>, a: NodeId, b: NodeId) -> (r: bool)
    ensures
        r == pair_in(brs@, a, b),
{
    let mut i: usize = 0;
    while i < brs.len()
        invariant
            i <= brs@.len(),
            forall|k: int|
                0 <= k < i ==> !(((#[trigger] brs@[k]).0 == a && brs@[k].1 == b) || (brs@[k].0 == b
                    && brs@[k].1 == a)),
        decreases brs@.len() - i,
    {
        let e = brs[i];
        if (e.0 == a && e.1 == b) || (e.0 == b && e.1 == a) {
            proof {
                assert(brs@[i as int] == e);
            }
            return true;
        }
        i += 1;
    }
    proof {
        if pair_in(brs@, a, b) {
            let k = choose|k: int|
                0 <= k < brs@.len() && (((#[trigger] brs@[k]).0 == a && brs@[k].1 == b) || (
                brs@[k].0 == b && brs@[k].1 == a));
            assert(false);
        }
    }
    false
}


/// Whether two edge lists join the same node pairs position by
/// position, differing at most in their weights.
pub open spec fn same_endpoints(es1: Seq<Edge>, es2: Seq<Edge>) -> bool {
    &&& es1.len() == es2.len()
    &&& forall|j: int|
        0 <= j < es1.len() ==> (#[trigger] es1[j]).u == es2[j].u && es1[j].v == es2[j].v
}

/// Connectivity depends only on the endpoints of the edges.
proof fn lemma_conn_same_endpoints(es1: Seq<Edge>, es2: Seq<Edge>, n: int, a: int, b: int)
    requires
        same_endpoints(es1, es2),
    ensures
        crate::mst::connected(es1, n, a, b) == crate::mst::connected(es2, n, a, b),
{
    let r0 = crate::mst::init_root(n);
    assert forall|x: int, y: int|
        0 <= x < r0.len() && 0 <= y < r0.len() && #[trigger] crate::mst::step_ok(es1, r0, x, y)
            implies crate::mst::conn(es2, r0, x, y) by {
        if r0[x] != r0[y] {
            let j = choose|j: int| 0 <= j < es1.len() && edge_matches(#[trigger] es1[j], x, y);
            assert(edge_matches(es2[j], x, y));
        }
        crate::mst::lemma_step_conn(es2, r0, x, y);
    }
    assert forall|x: int, y: int|
        0 <= x < r0.len() && 0 <= y < r0.len() && #[trigger] crate::mst::step_ok(es2, r0, x, y)
            implies crate::mst::conn(es1, r0, x, y) by {
        if r0[x] != r0[y] {
            let j = choose|j: int| 0 <= j < es2.len() && edge_matches(#[trigger] es2[j], x, y);
            assert(edge_matches(es1[j], x, y));
        }
        crate::mst::lemma_step_conn(es1, r0, x, y);
    }
    if crate::mst::conn(es1, r0, a, b) {
        crate::mst::lemma_conn_lift(es1, r0, es2, r0, a, b);
    }
    if crate::mst::conn(es2, r0, a, b) {
        crate::mst::lemma_conn_lift(es2, r0, es1, r0, a, b);
    }
}

/// Filtering out a node's incident edges keeps endpoint agreement.
proof fn lemma_avoid_same_endpoints(es1: Seq<Edge>, es2: Seq<Edge>, v: int)
    requires
        same_endpoints(es1, es2),
    ensures
        same_endpoints(edges_avoiding(es1, v), edges_avoiding(es2, v)),
    decreases es1.len(),
{
    if es1.len() > 0 {
        let t1 = es1.subrange(1, es1.len() as int);
        let t2 = es2.subrange(1, es2.len() as int);
        assert forall|j: int| 0 <= j < t1.len() implies (#[trigger] t1[j]).u == t2[j].u
            && t1[j].v == t2[j].v by {
            assert(t1[j] == es1[j + 1] && t2[j] == es2[j + 1]);
        }
        lemma_avoid_same_endpoints(t1, t2, v);
        assert(es1[0].u == es2[0].u && es1[0].v == es2[0].v);
        let a1 = edges_avoiding(es1, v);
        let a2 = edges_avoiding(es2, v);
        if !(es1[0].u.0 == v || es1[0].v.0 == v) {
            assert forall|j: int| 0 <= j < a1.len() implies (#[trigger] a1[j]).u == a2[j].u
                && a1[j].v == a2[j].v by {
                if j > 0 {
                    assert(a1[j] == edges_avoiding(t1, v)[j - 1]);
                    assert(a2[j] == edges_avoiding(t2, v)[j - 1]);
                }
            }
        }
    }
}

/// Removing the same position keeps endpoint agreement.
proof fn lemma_remove_same_endpoints(es1: Seq<Edge>, es2: Seq<Edge>, j: int)
    requires
        same_endpoints(es1, es2),
        0 <= j < es1.len(),
    ensures
        same_endpoints(es1.remove(j), es2.remove(j)),
{
    assert forall|k: int|
        0 <= k < es1.remove(j).len() implies (#[trigger] es1.remove(j)[k]).u == es2.remove(j)[k].u
        && es1.remove(j)[k].v == es2.remove(j)[k].v by {
        if k < j {
            assert(es1.remove(j)[k] == es1[k] && es2.remove(j)[k] == es2[k]);
        } else {
            assert(es1.remove(j)[k] == es1[k + 1] && es2.remove(j)[k] == es2[k + 1]);
        }
    }
}

/// The critical components ignore the edge weights: over edge lists that
/// join the same node pairs, every pair's bridge property and every
/// node's articulation property coincide, so two graphs that differ only
/// in weights have the same critical components up to ordering.
pub proof fn lemma_critical_weight_blind(
    es1: Seq<Edge>,
    es2: Seq<Edge>,
    n: int,
    a: NodeId,
    b: NodeId,
    v: int,
)
    requires
        same_endpoints(es1, es2),
    ensures
        certified_bridge(es1, n, a, b) == certified_bridge(es2, n, a, b),
        splits_pair(es1, n, v) == splits_pair(es2, n, v),
{
    if certified_bridge(es1, n, a, b) {
        let j = choose|j: int|
            0 <= j < es1.len() && edge_matches(#[trigger] es1[j], a.0 as int, b.0 as int)
                && !crate::mst::connected(es1.remove(j), n, a.0 as int, b.0 as int);
        lemma_remove_same_endpoints(es1, es2, j);
        lemma_conn_same_endpoints(es1.remove(j), es2.remove(j), n, a.0 as int, b.0 as int);
        assert(edge_matches(es2[j], a.0 as int, b.0 as int));
    }
    if certified_bridge(es2, n, a, b) {
        let j = choose|j: int|
            0 <= j < es2.len() && edge_matches(#[trigger] es2[j], a.0 as int, b.0 as int)
                && !crate::mst::connected(es2.remove(j), n, a.0 as int, b.0 as int);
        lemma_remove_same_endpoints(es1, es2, j);
        lemma_conn_same_endpoints(es1.remove(j), es2.remove(j), n, a.0 as int, b.0 as int);
        assert(edge_matches(es1[j], a.0 as int, b.0 as int));
    }
    lemma_avoid_same_endpoints(es1, es2, v);
    if splits_pair(es1, n, v) {
        let (x, y) = choose|x: int, y: int|
            0 <= x < n && 0 <= y < n && x != v && y != v && x != y
                && #[trigger] crate::mst::connected(es1, n, x, y) && !crate::mst::connected(
                edges_avoiding(es1, v),
                n,
                x,
                y,
            );
        lemma_conn_same_endpoints(es1, es2, n, x, y);
        lemma_conn_same_endpoints(edges_avoiding(es1, v), edges_avoiding(es2, v), n, x, y);
        assert(crate::mst::connected(es2, n, x, y) && !crate::mst::connected(
            edges_avoiding(es2, v),
            n,
            x,
            y,
        ));
    }
    if splits_pair(es2, n, v) {
        let (x, y) = choose|x: int, y: int|
            0 <= x < n && 0 <= y < n && x != v && y != v && x != y
                && #[trigger] crate::mst::connected(es2, n, x, y) && !crate::mst::connected(
                edges_avoiding(es2, v),
                n,
                x,
                y,
            );
        lemma_conn_same_endpoints(es1, es2, n, x, y);
        lemma_conn_same_endpoints(edges_avoiding(es1, v), edges_avoiding(es2, v), n, x, y);
        assert(crate::mst::connected(es1, n, x, y) && !crate::mst::connected(
            edges_avoiding(es1, v),
            n,
            x,
            y,
        ));
    }
}

} // verus!
