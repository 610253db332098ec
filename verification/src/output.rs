//! Presentation values for path queries: name-resolved path output and
//! human-readable path formatting.

use crate::directed::{lemma_graph_views, Graph, NodeId};
use crate::path::Path;
use vstd::prelude::*;
use vstd::string::StringExecFns;

verus! {

/// A path with node names resolved, ready for rendering.
#[derive(Debug)]
pub struct PathOutput {
    /// Source node name.
    pub from: String,
    /// Destination node name.
    pub to: String,
    /// The node names traversed, source first.
    pub path: Vec<String>,
    /// Total latency in milliseconds.
    pub total_latency_ms: u64,
    /// The bottleneck edge, if the path has one.
    pub bottleneck: Option<EdgeOutput>,
}

/// An edge with node names resolved.
#[derive(Debug)]
pub struct EdgeOutput {
    /// Source node name.
    pub from: String,
    /// Destination node name.
    pub to: String,
    /// Edge latency in milliseconds.
    pub latency_ms: u32,
}

/// The names along `s`, joined by an arrow separator.
pub open spec fn joined_names(names: Seq<Seq<char>>, s: Seq<NodeId>) -> Seq<char>
    decreases s.len(),
{
    if s.len() == 0 {
        Seq::<char>::empty()
    } else if s.len() == 1 {
        names[s[0].0 as int]
    } else {
        names[s[0].0 as int] + " → "@ + joined_names(names, s.subrange(1, s.len() as int))
    }
}

/// Appending one node extends the joined form by a separator and its
/// name.
proof fn lemma_joined_push(names: Seq<Seq<char>>, s: Seq<NodeId>, x: NodeId)
    requires
        s.len() >= 1,
    ensures
        joined_names(names, s.push(x)) == joined_names(names, s) + " → "@ + names[x.0 as int],
    decreases s.len(),
{
    let sp = s.push(x);
    if s.len() == 1 {
        assert(sp.subrange(1, sp.len() as int) =~= seq![x]);
        assert(joined_names(names, seq![x]) == names[x.0 as int]);
    } else {
        let t = s.subrange(1, s.len() as int);
        lemma_joined_push(names, t, x);
        assert(sp.subrange(1, sp.len() as int) =~= t.push(x));
        assert(sp[0] == s[0]);
    }
}

/// Whether every node of `s` is a node of the graph.
pub open spec fn ids_ok(g: Graph, s: Seq<NodeId>) -> bool {
    forall|i: int| 0 <= i < s.len() ==> (#[trigger] s[i]).0 < g.node_count()
}

/// Whether the identifiers carried by a path value all belong to the
/// graph.
pub open spec fn path_ids_ok(g: Graph, p: Path) -> bool {
    &&& p.from.0 < g.node_count()
    &&& p.to.0 < g.node_count()
    &&& ids_ok(g, p.path@)
    &&& match p.bottleneck {
        Some(b) => b.from.0 < g.node_count() && b.to.0 < g.node_count(),
        None => true,
    }
}

impl Graph {
    /// Formats a path as a human-readable string with arrow separators,
    /// such as `a → b → c`.
    pub fn format_path(&self, path: &Path) -> (r: String)
        requires
            self.wf(),
            ids_ok(*self, path.path@),
        ensures
            r@ == joined_names(self.names(), path.path@),
    {
        proof {
            lemma_graph_views(*self);
        }
        let mut out = String::new();
        if path.path.len() == 0 {
            return out;
        }
        out.append(self.to_name[path.path[0].0 as usize].as_str());
        let mut i: usize = 1;
        while i < path.path.len()
            invariant
                self.wf(),
                ids_ok(*self, path.path@),
                1 <= i <= path.path@.len(),
                out@ == joined_names(self.names(), path.path@.subrange(0, i as int)),
            decreases path.path@.len() - i,
        {
            proof {
                lemma_graph_views(*self);
                lemma_joined_push(
                    self.names(),
                    path.path@.subrange(0, i as int),
                    path.path@[i as int],
                );
                assert(path.path@.subrange(0, i as int).push(path.path@[i as int])
                    =~= path.path@.subrange(0, i + 1));
            }
            out.append(" → ");
            out.append(self.to_name[path.path[i].0 as usize].as_str());
            i += 1;
        }
        proof {
            assert(path.path@.subrange(0, path.path@.len() as int) =~= path.path@);
        }
        out
    }

    /// Resolves a path's identifiers to node names, producing a value fit
    /// for rendering.
    pub fn path_output(&self, path: &Path) -> (r: PathOutput)
        requires
            self.wf(),
            path_ids_ok(*self, *path),
        ensures
            r.from@ == self.names()[path.from.0 as int],
            r.to@ == self.names()[path.to.0 as int],
            r.path@.len() == path.path@.len(),
            forall|i: int|
                0 <= i < path.path@.len() ==> (#[trigger] r.path@[i])@ == self.names()[path.path@[i].0 as int],
            r.total_latency_ms == path.cost,
            match path.bottleneck {
                Some(b) => (match r.bottleneck {
                    Some(rb) => rb.from@ == self.names()[b.from.0 as int] && rb.to@
                        == self.names()[b.to.0 as int] && rb.latency_ms == b.latency_ms,
                    None => false,
                }),
                None => r.bottleneck is None,
            },
    {
        proof {
            lemma_graph_views(*self);
        }
        let mut out_path: Vec<String> = Vec::new();
        let mut i: usize = 0;
        while i < path.path.len()
            invariant
                self.wf(),
                ids_ok(*self, path.path@),
                i <= path.path@.len(),
                out_path@.len() == i,
                forall|k: int|
                    0 <= k < i ==> (#[trigger] out_path@[k])@ == self.names()[path.path@[k].0 as int],
            decreases path.path@.len() - i,
        {
            proof {
                lemma_graph_views(*self);
            }
            out_path.push(self.to_name[path.path[i].0 as usize].clone());
            i += 1;
        }
        let bottleneck = match &path.bottleneck {
            Some(b) => Some(
                EdgeOutput {
                    from: self.to_name[b.from.0 as usize].clone(),
                    to: self.to_name[b.to.0 as usize].clone(),
                    latency_ms: b.latency_ms,
                },
            ),
            None => None,
        };
        PathOutput {
            from: self.to_name[path.from.0 as usize].clone(),
            to: self.to_name[path.to.0 as usize].clone(),
            path: out_path,
            total_latency_ms: path.cost,
            bottleneck,
        }
    }
}

} // verus!
