//! Directed latency graph keyed by node name.
//!
//! Nodes are identified externally by unique string names and internally
//! by dense 32-bit indices. Edges carry non-negative integer latencies in
//! milliseconds and are stored in per-node adjacency lists in insertion
//! order. A graph is immutable once built; "what-if" modification
//! produces a new, independent graph value.

use crate::error::GraphBuildError;
use vstd::prelude::*;

verus! {

/// Internal node identifier: an index below the graph's node count.
#[derive(Debug, Clone, Copy, PartialEq, Eq, Structural)]
pub struct NodeId(pub u32);

/// The views of a list of node names.
pub open spec fn views_of(names: Seq<String>) -> Seq<Seq<char>> {
    names.map_values(|s: String| s@)
}

/// The index of the first entry of `names` equal to `name`, scanning from
/// `i`; `-1` if there is none.
pub open spec fn index_of_name(names: Seq<Seq<char>>, name: Seq<char>, i: int) -> int
    decreases names.len() - i,
    when 0 <= i <= names.len()
{
    if i >= names.len() {
        -1
    } else if names[i] == name {
        i
    } else {
        index_of_name(names, name, i + 1)
    }
}

/// What `index_of_name` returns: `-1` exactly when no entry from `i` on
/// matches, and otherwise the first matching index.
pub proof fn lemma_index_of_name(names: Seq<Seq<char>>, name: Seq<char>, i: int)
    requires
        0 <= i <= names.len(),
    ensures
        ({
            let r = index_of_name(names, name, i);
            &&& r == -1 ==> forall|k: int| i <= k < names.len() ==> names[k] != name
            &&& r != -1 ==> i <= r < names.len() && names[r] == name && (forall|k: int|
                i <= k < r ==> names[k] != name)
        }),
    decreases names.len() - i,
{
    if i < names.len() && names[i] != name {
        lemma_index_of_name(names, name, i + 1);
    }
}

/// A directed weighted graph optimized for shortest-path queries.
///
/// `to_name` maps each node id to its unique name; `adj` holds, per node,
/// the `(neighbor, latency)` pairs of its outgoing edges, in insertion
/// order.
#[derive(Debug)]
pub struct Graph {
    pub(crate) to_name: Vec<String>,
    pub(crate) adj: Vec<Vec<(NodeId, u32)>>,
}

impl Graph {
    /// The node names (as character sequences), indexed by node id.
    pub closed spec fn names(self) -> Seq<Seq<char>> {
        views_of(self.to_name@)
    }

    /// The adjacency structure: per node, its outgoing edges in order.
    pub closed spec fn adjacency(self) -> Seq<Seq<(NodeId, u32)>> {
        self.adj@.map_values(|l: Vec<(NodeId, u32)>| l@)
    }

    /// The number of nodes.
    pub open spec fn node_count(self) -> int {
        self.names().len() as int
    }

    /// Well-formedness: ids fit in 32 bits, names are unique, every edge
    /// target is a declared node, and no edge is a self-loop.
    pub open spec fn wf(self) -> bool {
        &&& self.adjacency().len() == self.node_count()
        &&& self.node_count() <= u32::MAX
        &&& forall|i: int, j: int|
            0 <= i < j < self.node_count() ==> self.names()[i] != self.names()[j]
        &&& forall|i: int, k: int|
            0 <= i < self.node_count() && 0 <= k < self.adjacency()[i].len() ==> ((
            #[trigger] self.adjacency()[i][k]).0.0 < self.node_count()
                && self.adjacency()[i][k].0.0 != i)
    }

    /// The id of the node named `name`; `-1` if there is none.
    pub open spec fn id_of(self, name: Seq<char>) -> int {
        index_of_name(self.names(), name, 0)
    }

    /// Whether a node named `name` exists.
    pub open spec fn has_node(self, name: Seq<char>) -> bool {
        self.id_of(name) >= 0
    }

    /// The name of a node id, for presentation.
    pub fn name_of(&self, id: NodeId) -> (r: &String)
        requires
            self.wf(),
            id.0 < self.node_count(),
        ensures
            r@ == self.names()[id.0 as int],
    {
        &self.to_name[id.0 as usize]
    }

    /// The number of nodes.
    pub fn len(&self) -> (n: usize)
        requires
            self.wf(),
        ensures
            n == self.node_count(),
    {
        self.to_name.len()
    }
}

/// Exposes, within the crate, how the spec views relate to the fields.
pub(crate) proof fn lemma_graph_views(g: Graph)
    ensures
        g.names() == views_of(g.to_name@),
        g.adjacency() == g.adj@.map_values(|l: Vec<(NodeId, u32)>| l@),
{
}

/// Finds the first entry of `names` equal to `name`.
pub(crate) fn find_in(names: &Vec<String>, name: &str) -> (r: Option<usize>)
    ensures
        ({
            let idx = index_of_name(views_of(names@), name@, 0);
            match r {
                Some(i) => idx == i && i < names@.len(),
                None => idx == -1,
            }
        }),
{
    let key: String = name.to_owned();
    let mut i: usize = 0;
    while i < names.len()
        invariant
            i <= names@.len(),
            key@ == name@,
            index_of_name(views_of(names@), name@, 0) == index_of_name(
                views_of(names@),
                name@,
                i as int,
            ),
        decreases names@.len() - i,
    {
        proof {
            assert(views_of(names@)[i as int] == names@[i as int]@);
        }
        if names[i] == key {
            return Some(i);
        }
        i += 1;
    }
    None
}

/// The first index at which a node name repeats an earlier one; `-1` if
/// all names are distinct.
pub open spec fn first_dup_at(names: Seq<Seq<char>>, j: int) -> int
    decreases names.len() - j,
    when 0 <= j <= names.len()
{
    if j >= names.len() {
        -1
    } else if index_of_name(names, names[j], 0) < j {
        j
    } else {
        first_dup_at(names, j + 1)
    }
}

/// Which check an edge triple fails against a name list: `1` unknown
/// source, `2` unknown destination, `3` negative latency, `4` self-loop,
/// `0` none, applied in that order.
pub open spec fn edge_fault(names: Seq<Seq<char>>, e: (String, String, i64)) -> int {
    if index_of_name(names, e.0@, 0) == -1 {
        1
    } else if index_of_name(names, e.1@, 0) == -1 {
        2
    } else if e.2 < 0 {
        3
    } else if e.0@ == e.1@ {
        4
    } else {
        0
    }
}

/// The index of the first edge failing a check, scanning from `j`; `-1`
/// if every edge from `j` on passes.
pub open spec fn first_bad_edge(names: Seq<Seq<char>>, edges: Seq<(String, String, i64)>, j: int) -> int
    decreases edges.len() - j,
    when 0 <= j <= edges.len()
{
    if j >= edges.len() {
        -1
    } else if edge_fault(names, edges[j]) != 0 {
        j
    } else {
        first_bad_edge(names, edges, j + 1)
    }
}

/// A latency in whole milliseconds, clamped to the 32-bit range.
pub open spec fn clamp_w(w: int) -> u32 {
    if w > u32::MAX {
        u32::MAX
    } else {
        w as u32
    }
}

/// An adjacency structure of `n` nodes with no edges.
pub open spec fn empty_adj(n: int) -> Seq<Seq<(NodeId, u32)>> {
    Seq::new(n as nat, |i: int| Seq::<(NodeId, u32)>::empty())
}

/// The adjacency structure after ingesting the first `j` edges: each edge
/// is appended to its source node's list, carrying the id of its target
/// and its clamped latency.
pub open spec fn build_adj(
    names: Seq<Seq<char>>,
    edges: Seq<(String, String, i64)>,
    j: int,
) -> Seq<Seq<(NodeId, u32)>>
    decreases j,
    when 0 <= j <= edges.len()
{
    if j <= 0 {
        empty_adj(names.len() as int)
    } else {
        let prev = build_adj(names, edges, j - 1);
        let e = edges[j - 1];
        let f = index_of_name(names, e.0@, 0);
        let t = index_of_name(names, e.1@, 0);
        prev.update(f, prev[f].push((NodeId(t as u32), clamp_w(e.2 as int))))
    }
}

impl Graph {
    /// Builds a graph from a node-name list and `(from, to, latency)`
    /// triples, validating eagerly: the first duplicate name is reported,
    /// then the first edge failing a check (unknown source, unknown
    /// destination, negative latency, self-loop, in that order).
    ///
    /// Latencies are whole milliseconds; callers that start from
    /// fractional values are expected to truncate toward zero beforehand.
    /// Values above `u32::MAX` are clamped.
    ///
    /// Node ids are 32 bits wide, so the node list must not exceed
    /// `u32::MAX` entries.
    pub fn build(nodes: &Vec<String>, edges: &Vec<(String, String, i64)>) -> (r: Result<
        Graph,
        GraphBuildError,
    >)
        requires
            nodes@.len() <= u32::MAX,
        ensures
            ({
                let names = views_of(nodes@);
                let dup = first_dup_at(names, 0);
                let bad = first_bad_edge(names, edges@, 0);
                &&& dup >= 0 ==> (r matches Err(GraphBuildError::DuplicateNode(s)) && s@
                    == names[dup])
                &&& (dup == -1 && bad >= 0) ==> (match r {
                    Err(GraphBuildError::UnknownFrom(s)) => edge_fault(names, edges@[bad]) == 1
                        && s@ == edges@[bad].0@,
                    Err(GraphBuildError::UnknownTo(s)) => edge_fault(names, edges@[bad]) == 2 && s@
                        == edges@[bad].1@,
                    Err(GraphBuildError::NegativeLatency { from, to, latency_ms }) => edge_fault(
                        names,
                        edges@[bad],
                    ) == 3 && from@ == edges@[bad].0@ && to@ == edges@[bad].1@ && latency_ms
                        == edges@[bad].2,
                    Err(GraphBuildError::SelfLoop { node }) => edge_fault(names, edges@[bad]) == 4
                        && node@ == edges@[bad].0@,
                    _ => false,
                })
                &&& (dup == -1 && bad == -1) ==> (r matches Ok(g) && g.wf() && g.names() == names
                    && g.adjacency() == build_adj(names, edges@, edges@.len() as int))
            }),
    {
        let ghost names = views_of(nodes@);
        let n = nodes.len();
        // reject the first repeated node name
        let mut j: usize = 0;
        while j < n
            invariant
                j <= n,
                n == nodes@.len(),
                names == views_of(nodes@),
                first_dup_at(names, 0) == first_dup_at(names, j as int),
                forall|a: int, b: int| 0 <= a < b < j ==> names[a] != names[b],
            decreases n - j,
        {
            proof {
                assert(names[j as int] == nodes@[j as int]@);
                lemma_index_of_name(names, names[j as int], 0);
            }
            let hit = find_in(nodes, nodes[j].as_str());
            let i = match hit {
                Some(i) => i,
                None => {
                    proof {
                        assert(names[j as int] != names[j as int]);
                    }
                    unreached()
                },
            };
            if i < j {
                proof {
                    assert(first_dup_at(names, j as int) == j as int);
                }
                return Err(GraphBuildError::DuplicateNode(nodes[j].clone()));
            }
            proof {
                // the first match is no later than j, so it is exactly j,
                // and nothing before j carries this name
                if i > j {
                    assert(names[j as int] != names[j as int]);
                }
                assert forall|a: int, b: int| 0 <= a < b < j + 1 implies names[a] != names[b] by {
                    if b < j {
                    } else {
                        assert(names[a] != names[j as int]);
                    }
                }
            }
            j += 1;
        }
        proof {
            assert(first_dup_at(names, n as int) == -1);
        }
        // copy the names and lay out empty adjacency lists
        let mut to_name: Vec<String> = Vec::new();
        let mut i: usize = 0;
        while i < n
            invariant
                i <= n,
                n == nodes@.len(),
                to_name@.len() == i,
                forall|k: int| 0 <= k < i ==> #[trigger] to_name@[k] == nodes@[k],
            decreases n - i,
        {
            to_name.push(nodes[i].clone());
            i += 1;
        }
        let mut adj: Vec<Vec<(NodeId, u32)>> = Vec::new();
        let mut i2: usize = 0;
        while i2 < n
            invariant
                i2 <= n,
                adj@.len() == i2,
                forall|k: int| 0 <= k < i2 ==> (#[trigger] adj@[k])@.len() == 0,
            decreases n - i2,
        {
            adj.push(Vec::new());
            i2 += 1;
        }
        let ghost m = edges@.len() as int;
        let mut e: usize = 0;
        proof {
            assert(adj@.map_values(|l: Vec<(NodeId, u32)>| l@) =~~= build_adj(names, edges@, 0));
        }
        while e < edges.len()
            invariant
                e <= edges@.len(),
                n == nodes@.len() <= u32::MAX,
                names == views_of(nodes@),
                first_dup_at(names, 0) == -1,
                forall|a: int, b: int| 0 <= a < b < n ==> names[a] != names[b],
                first_bad_edge(names, edges@, 0) == first_bad_edge(names, edges@, e as int),
                to_name@.len() == n,
                forall|k: int| 0 <= k < n ==> #[trigger] to_name@[k] == nodes@[k],
                adj@.len() == n,
                adj@.map_values(|l: Vec<(NodeId, u32)>| l@) == build_adj(names, edges@, e as int),
                forall|i: int, k: int|
                    0 <= i < n && 0 <= k < adj@[i]@.len() ==> ((#[trigger] adj@[i]@[k]).0.0 < n
                        && adj@[i]@[k].0.0 != i),
            decreases edges@.len() - e,
        {
            let ghost pre_adj = adj@.map_values(|l: Vec<(NodeId, u32)>| l@);
            let (ef, et, ew) = &edges[e];
            let fid = match find_in(nodes, ef.as_str()) {
                Some(i) => i,
                None => {
                    proof {
                        assert(edge_fault(names, edges@[e as int]) == 1);
                        assert(first_bad_edge(names, edges@, e as int) == e as int);
                    }
                    return Err(GraphBuildError::UnknownFrom(ef.clone()));
                },
            };
            let tid = match find_in(nodes, et.as_str()) {
                Some(i) => i,
                None => {
                    proof {
                        assert(edge_fault(names, edges@[e as int]) == 2);
                        assert(first_bad_edge(names, edges@, e as int) == e as int);
                    }
                    return Err(GraphBuildError::UnknownTo(et.clone()));
                },
            };
            if *ew < 0 {
                proof {
                    assert(edge_fault(names, edges@[e as int]) == 3);
                    assert(first_bad_edge(names, edges@, e as int) == e as int);
                }
                return Err(
                    GraphBuildError::NegativeLatency {
                        from: ef.clone(),
                        to: et.clone(),
                        latency_ms: *ew,
                    },
                );
            }
            if *ef == *et {
                proof {
                    assert(edge_fault(names, edges@[e as int]) == 4);
                    assert(first_bad_edge(names, edges@, e as int) == e as int);
                }
                return Err(GraphBuildError::SelfLoop { node: ef.clone() });
            }
            proof {
                lemma_index_of_name(names, ef@, 0);
                lemma_index_of_name(names, et@, 0);
                assert(edge_fault(names, edges@[e as int]) == 0);
                assert(first_bad_edge(names, edges@, e as int) == first_bad_edge(
                    names,
                    edges@,
                    e + 1,
                ));
                assert(fid != tid);
            }
            let w: u32 = if *ew > u32::MAX as i64 {
                u32::MAX
            } else {
                *ew as u32
            };
            adj[fid].push((NodeId(tid as u32), w));
            proof {
                assert(w == clamp_w(edges@[e as int].2 as int));
                assert(adj@.map_values(|l: Vec<(NodeId, u32)>| l@) =~~= pre_adj.update(
                    fid as int,
                    pre_adj[fid as int].push(
                        (NodeId(tid as u32), clamp_w(edges@[e as int].2 as int)),
                    ),
                ));
                assert(adj@.map_values(|l: Vec<(NodeId, u32)>| l@) == build_adj(
                    names,
                    edges@,
                    e + 1,
                ));
                assert forall|ii: int, kk: int|
                    0 <= ii < n && 0 <= kk < adj@[ii]@.len() implies ((#[trigger] adj@[ii]@[kk]).0.0
                    < n && adj@[ii]@[kk].0.0 != ii) by {
                    if ii == fid && kk == adj@[ii]@.len() - 1 {
                    } else {
                        assert(adj@[ii]@[kk] == pre_adj[ii][kk]);
                    }
                }
            }
            e += 1;
        }
        let g = Graph { to_name, adj };
        proof {
            assert(first_bad_edge(names, edges@, m) == -1);
            assert(to_name@ =~= nodes@);
            assert(g.names() =~= names);
            assert(g.adjacency() == build_adj(names, edges@, m));
            assert(g.wf());
        }
        Ok(g)
    }
}

} // verus!
