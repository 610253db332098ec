//! "What-if" edge simulation on the directed latency graph.
//!
//! A modification never mutates the graph it starts from: it produces a
//! new, independent graph value with the named edges dropped or
//! reweighted, so the original and the modified graph can be queried side
//! by side.

use crate::directed::{find_in, index_of_name, lemma_graph_views, lemma_index_of_name, Graph, NodeId};
use crate::error::PathError;
use crate::shortest::list_min_weight;
use vstd::prelude::*;

verus! {

/// The adjacency list with every edge toward `t` removed.
pub open spec fn drop_matches(l: Seq<(NodeId, u32)>, t: int) -> Seq<(NodeId, u32)>
    decreases l.len(),
{
    if l.len() == 0 {
        l
    } else {
        let rest = drop_matches(l.subrange(1, l.len() as int), t);
        if l[0].0.0 == t {
            rest
        } else {
            seq![l[0]] + rest
        }
    }
}

/// The adjacency list with the first edge toward `t` reweighted to `w`;
/// entries past the first match, and lists without a match, are untouched.
pub open spec fn override_first(l: Seq<(NodeId, u32)>, t: int, w: u32) -> Seq<(NodeId, u32)>
    decreases l.len(),
{
    if l.len() == 0 {
        l
    } else if l[0].0.0 == t {
        seq![(l[0].0, w)] + l.subrange(1, l.len() as int)
    } else {
        seq![l[0]] + override_first(l.subrange(1, l.len() as int), t, w)
    }
}

/// The index of the first drop pair naming an unknown node, scanning from
/// `j`; `-1` if all resolve.
pub open spec fn first_bad_pair(names: Seq<Seq<char>>, pairs: Seq<(String, String)>, j: int) -> int
    decreases pairs.len() - j,
    when 0 <= j <= pairs.len()
{
    if j >= pairs.len() {
        -1
    } else if index_of_name(names, pairs[j].0@, 0) == -1 || index_of_name(names, pairs[j].1@, 0)
        == -1 {
        j
    } else {
        first_bad_pair(names, pairs, j + 1)
    }
}

/// The name a failing drop pair is reported with: the source name if it
/// is unknown, else the destination name.
pub open spec fn pair_bad_name(names: Seq<Seq<char>>, p: (String, String)) -> Seq<char> {
    if index_of_name(names, p.0@, 0) == -1 {
        p.0@
    } else {
        p.1@
    }
}

/// The index of the first override triple naming an unknown node,
/// scanning from `j`; `-1` if all resolve.
pub open spec fn first_bad_triple(
    names: Seq<Seq<char>>,
    trs: Seq<(String, String, u32)>,
    j: int,
) -> int
    decreases trs.len() - j,
    when 0 <= j <= trs.len()
{
    if j >= trs.len() {
        -1
    } else if index_of_name(names, trs[j].0@, 0) == -1 || index_of_name(names, trs[j].1@, 0)
        == -1 {
        j
    } else {
        first_bad_triple(names, trs, j + 1)
    }
}

/// The name a failing override triple is reported with.
pub open spec fn triple_bad_name(names: Seq<Seq<char>>, t: (String, String, u32)) -> Seq<char> {
    if index_of_name(names, t.0@, 0) == -1 {
        t.0@
    } else {
        t.1@
    }
}

/// The adjacency structure after applying the first `j` drops in order.
pub open spec fn drops_applied(
    adj: Seq<Seq<(NodeId, u32)>>,
    names: Seq<Seq<char>>,
    pairs: Seq<(String, String)>,
    j: int,
) -> Seq<Seq<(NodeId, u32)>>
    decreases j,
    when 0 <= j <= pairs.len()
{
    if j <= 0 {
        adj
    } else {
        let prev = drops_applied(adj, names, pairs, j - 1);
        let f = index_of_name(names, pairs[j - 1].0@, 0);
        let t = index_of_name(names, pairs[j - 1].1@, 0);
        prev.update(f, drop_matches(prev[f], t))
    }
}

/// The adjacency structure after applying the first `j` overrides in
/// order.
pub open spec fn overrides_applied(
    adj: Seq<Seq<(NodeId, u32)>>,
    names: Seq<Seq<char>>,
    trs: Seq<(String, String, u32)>,
    j: int,
) -> Seq<Seq<(NodeId, u32)>>
    decreases j,
    when 0 <= j <= trs.len()
{
    if j <= 0 {
        adj
    } else {
        let prev = overrides_applied(adj, names, trs, j - 1);
        let f = index_of_name(names, trs[j - 1].0@, 0);
        let t = index_of_name(names, trs[j - 1].1@, 0);
        prev.update(f, override_first(prev[f], t, trs[j - 1].2))
    }
}

/// Reweighting the first match at its index computes `override_first`.
proof fn lemma_override_at(l: Seq<(NodeId, u32)>, t: int, w: u32, at: int)
    requires
        0 <= at < l.len(),
        l[at].0.0 == t,
        forall|k: int| 0 <= k < at ==> (#[trigger] l[k]).0.0 != t,
    ensures
        override_first(l, t, w) == l.update(at, (l[at].0, w)),
    decreases at,
{
    if at == 0 {
        assert(override_first(l, t, w) =~= l.update(0, (l[0].0, w)));
    } else {
        let tail = l.subrange(1, l.len() as int);
        assert forall|k: int| 0 <= k < at - 1 implies (#[trigger] tail[k]).0.0 != t by {
            assert(tail[k] == l[k + 1]);
        }
        assert(tail[at - 1] == l[at]);
        lemma_override_at(tail, t, w, at - 1);
        assert(override_first(l, t, w) =~= l.update(at, (l[at].0, w)));
    }
}

/// A list without a match toward `t` is untouched by `override_first`.
proof fn lemma_override_none(l: Seq<(NodeId, u32)>, t: int, w: u32)
    requires
        forall|k: int| 0 <= k < l.len() ==> (#[trigger] l[k]).0.0 != t,
    ensures
        override_first(l, t, w) == l,
    decreases l.len(),
{
    if l.len() > 0 {
        let tail = l.subrange(1, l.len() as int);
        assert forall|k: int| 0 <= k < tail.len() implies (#[trigger] tail[k]).0.0 != t by {
            assert(tail[k] == l[k + 1]);
        }
        lemma_override_none(tail, t, w);
        assert(override_first(l, t, w) =~= l);
    }
}

/// Dropping the edges toward `t` leaves the least latency toward any
/// other node unchanged and erases the one toward `t`.
proof fn lemma_drop_min(l: Seq<(NodeId, u32)>, t: int, v: int)
    ensures
        v == t ==> list_min_weight(drop_matches(l, t), v) == -1,
        v != t ==> list_min_weight(drop_matches(l, t), v) == list_min_weight(l, v),
    decreases l.len(),
{
    if l.len() > 0 {
        let tail = l.subrange(1, l.len() as int);
        lemma_drop_min(tail, t, v);
        if l[0].0.0 == t {
        } else {
            let d = seq![l[0]] + drop_matches(tail, t);
            assert(d[0] == l[0]);
            assert(d.subrange(1, d.len() as int) =~= drop_matches(tail, t));
        }
    }
}

/// When every drop pair resolves, each one's source and destination
/// names are found.
proof fn lemma_pairs_resolve(names: Seq<Seq<char>>, pairs: Seq<(String, String)>, j: int)
    requires
        0 <= j <= pairs.len(),
        first_bad_pair(names, pairs, j) == -1,
    ensures
        forall|k: int|
            j <= k < pairs.len() ==> index_of_name(names, (#[trigger] pairs[k]).0@, 0) != -1
                && index_of_name(names, pairs[k].1@, 0) != -1,
    decreases pairs.len() - j,
{
    if j < pairs.len() {
        lemma_pairs_resolve(names, pairs, j + 1);
    }
}

/// Applying resolving drops either erases a pair's least latency or
/// leaves it exactly as it was.
proof fn lemma_drops_applied_min(
    adj: Seq<Seq<(NodeId, u32)>>,
    names: Seq<Seq<char>>,
    pairs: Seq<(String, String)>,
    j: int,
    u: int,
    v: int,
)
    requires
        0 <= j <= pairs.len(),
        names.len() == adj.len(),
        0 <= u < adj.len(),
        first_bad_pair(names, pairs, 0) == -1,
    ensures
        drops_applied(adj, names, pairs, j).len() == adj.len(),
        list_min_weight(drops_applied(adj, names, pairs, j)[u], v) == -1 || list_min_weight(
            drops_applied(adj, names, pairs, j)[u],
            v,
        ) == list_min_weight(adj[u], v),
    decreases j,
{
    if j > 0 {
        lemma_drops_applied_min(adj, names, pairs, j - 1, u, v);
        lemma_pairs_resolve(names, pairs, 0);
        let prev = drops_applied(adj, names, pairs, j - 1);
        let f = index_of_name(names, pairs[j - 1].0@, 0);
        let t = index_of_name(names, pairs[j - 1].1@, 0);
        lemma_index_of_name(names, pairs[j - 1].0@, 0);
        lemma_index_of_name(names, pairs[j - 1].1@, 0);
        if u == f {
            lemma_drop_min(prev[f], t, v);
        }
    }
}

/// Dropping edges never creates a route: every path of the modified
/// graph is a path of the original at exactly the same cost. Combined
/// with the optimality stated by `shortest_path`, a re-query after
/// dropping edges either fails or reports a cost no smaller than the
/// original optimum.
pub proof fn lemma_drops_preserve_paths(
    g: Graph,
    g2: Graph,
    pairs: Seq<(String, String)>,
    s: Seq<NodeId>,
)
    requires
        g.wf(),
        g2.wf(),
        g2.names() == g.names(),
        first_bad_pair(g.names(), pairs, 0) == -1,
        g2.adjacency() == drops_applied(
            g.adjacency(),
            g.names(),
            pairs,
            pairs.len() as int,
        ),
        g2.path_ok(s),
    ensures
        g.path_ok(s),
        g2.path_cost(s) == g.path_cost(s),
    decreases s.len(),
{
    assert(g2.node_count() == g.node_count());
    assert forall|i: int|
        0 <= i < s.len() - 1 implies g.edge_min((#[trigger] s[i]).0 as int, s[i + 1].0 as int)
        == g2.edge_min(s[i].0 as int, s[i + 1].0 as int) && g.edge_min(
        s[i].0 as int,
        s[i + 1].0 as int,
    ) >= 0 by {
        assert(g2.edge_min((s[i]).0 as int, s[i + 1].0 as int) >= 0);
        lemma_drops_applied_min(
            g.adjacency(),
            g.names(),
            pairs,
            pairs.len() as int,
            s[i].0 as int,
            s[i + 1].0 as int,
        );
    }
    assert(g.path_ok(s));
    if s.len() > 1 {
        let t = s.subrange(1, s.len() as int);
        assert forall|i: int| 0 <= i < t.len() implies (#[trigger] t[i]).0 < g2.node_count() by {
            assert(t[i] == s[i + 1]);
        }
        assert forall|i: int|
            0 <= i < t.len() - 1 implies g2.edge_min((#[trigger] t[i]).0 as int, t[i + 1].0 as int)
            >= 0 by {
            assert(t[i] == s[i + 1]);
            assert(t[i + 1] == s[i + 2]);
            assert(g2.edge_min((s[i + 1]).0 as int, s[i + 2].0 as int) >= 0);
        }
        assert(g2.path_ok(t));
        lemma_drops_preserve_paths(g, g2, pairs, t);
        assert(g.edge_min((s[0]).0 as int, s[1].0 as int) == g2.edge_min(
            s[0].0 as int,
            s[1].0 as int,
        ));
    }
}

impl Graph {
    /// Applies modifications, producing a new simulation graph: first
    /// every named `(from, to)` edge is dropped (all parallel copies),
    /// then each override reweights the first stored `(from, to)` edge.
    /// The first name, in that scanning order, that does not resolve is
    /// reported; this graph itself is never changed.
    #[verifier::rlimit(60)]
    pub fn with_modifications(
        &self,
        overrides: &[(String, String, u32)],
        drop: &[(String, String)],
    ) -> (r: Result<Graph, PathError>)
        requires
            self.wf(),
        ensures
            ({
                let names = self.names();
                let bd = first_bad_pair(names, drop@, 0);
                let bo = first_bad_triple(names, overrides@, 0);
                &&& bd >= 0 ==> (match r {
                    Err(PathError::NodeNotFound(s)) => s@ == pair_bad_name(names, drop@[bd]),
                    _ => false,
                })
                &&& (bd == -1 && bo >= 0) ==> (match r {
                    Err(PathError::NodeNotFound(s)) => s@ == triple_bad_name(names, overrides@[bo]),
                    _ => false,
                })
                &&& (bd == -1 && bo == -1) ==> (match r {
                    Ok(g2) => g2.wf() && g2.names() == names && g2.adjacency() == overrides_applied(
                        drops_applied(self.adjacency(), names, drop@, drop@.len() as int),
                        names,
                        overrides@,
                        overrides@.len() as int,
                    ),
                    _ => false,
                })
            }),
    {
        proof {
            lemma_graph_views(*self);
        }
        let ghost names = self.names();
        let n = self.to_name.len();
        // structural copy of this graph
        let mut to_name2: Vec<String> = Vec::new();
        let mut i: usize = 0;
        while i < n
            invariant
                i <= n,
                n == self.to_name@.len(),
                to_name2@.len() == i,
                forall|k: int| 0 <= k < i ==> #[trigger] to_name2@[k] == self.to_name@[k],
            decreases n - i,
        {
            to_name2.push(self.to_name[i].clone());
            i += 1;
        }
        let mut adj2: Vec<Vec<(NodeId, u32)>> = Vec::new();
        let mut i2: usize = 0;
        while i2 < n
            invariant
                i2 <= n,
                n == self.adj@.len(),
                n == self.node_count(),
                self.wf(),
                adj2@.len() == i2,
                forall|k: int| 0 <= k < i2 ==> (#[trigger] adj2@[k])@ == self.adjacency()[k],
            decreases n - i2,
        {
            proof {
                lemma_graph_views(*self);
            }
            let row = &self.adj[i2];
            let mut row2: Vec<(NodeId, u32)> = Vec::new();
            let mut i3: usize = 0;
            while i3 < row.len()
                invariant
                    i3 <= row@.len(),
                    row2@ == row@.subrange(0, i3 as int),
                decreases row@.len() - i3,
            {
                row2.push(row[i3]);
                i3 += 1;
                proof {
                    assert(row2@ =~= row@.subrange(0, i3 as int));
                }
            }
            proof {
                assert(row2@ =~= row@);
                assert(self.adjacency()[i2 as int] == self.adj@[i2 as int]@);
            }
            adj2.push(row2);
            i2 += 1;
        }
        // apply drops
        let ghost view0 = self.adjacency();
        proof {
            assert forall|k: int| 0 <= k < n implies (#[trigger] adj2@[k])@ == drops_applied(
                view0,
                names,
                drop@,
                0,
            )[k] by {}
        }
        let mut j: usize = 0;
        while j < drop.len()
            invariant
                j <= drop@.len(),
                n == self.node_count(),
                n == self.to_name@.len(),
                self.wf(),
                names == self.names(),
                view0 == self.adjacency(),
                first_bad_pair(names, drop@, 0) == first_bad_pair(names, drop@, j as int),
                adj2@.len() == n,
                forall|k: int|
                    0 <= k < n ==> (#[trigger] adj2@[k])@ == drops_applied(
                        view0,
                        names,
                        drop@,
                        j as int,
                    )[k],
                drops_applied(view0, names, drop@, j as int).len() == n,
                forall|k: int, e: int|
                    0 <= k < n && 0 <= e < adj2@[k]@.len() ==> ((#[trigger] adj2@[k]@[e]).0.0 < n
                        && adj2@[k]@[e].0.0 != k),
            decreases drop@.len() - j,
        {
            proof {
                lemma_graph_views(*self);
            }
            let (f, t) = &drop[j];
            let fid = match find_in(&self.to_name, f.as_str()) {
                Some(x) => x,
                None => {
                    proof {
                        assert(first_bad_pair(names, drop@, j as int) == j as int);
                        assert(pair_bad_name(names, drop@[j as int]) == f@);
                    }
                    return Err(PathError::NodeNotFound(f.clone()));
                },
            };
            let tid = match find_in(&self.to_name, t.as_str()) {
                Some(x) => x,
                None => {
                    proof {
                        assert(first_bad_pair(names, drop@, j as int) == j as int);
                        assert(pair_bad_name(names, drop@[j as int]) == t@);
                    }
                    return Err(PathError::NodeNotFound(t.clone()));
                },
            };
            let row = &adj2[fid];
            proof {
                assert(row@.subrange(0, row@.len() as int) =~= row@);
            }
            let mut row2: Vec<(NodeId, u32)> = Vec::new();
            let mut e: usize = 0;
            while e < row.len()
                invariant
                    e <= row@.len(),
                    tid <= u32::MAX as usize,
                    drop_matches(row@, tid as int) == row2@ + drop_matches(
                        row@.subrange(e as int, row@.len() as int),
                        tid as int,
                    ),
                    forall|x: int|
                        0 <= x < row2@.len() ==> exists|y: int|
                            0 <= y < row@.len() && #[trigger] row2@[x] == row@[y],
                decreases row@.len() - e,
            {
                let pair = row[e];
                proof {
                    let rem = row@.subrange(e as int, row@.len() as int);
                    assert(rem[0] == row@[e as int]);
                    assert(rem.subrange(1, rem.len() as int) =~= row@.subrange(
                        e + 1,
                        row@.len() as int,
                    ));
                }
                if pair.0.0 != tid as u32 {
                    row2.push(pair);
                    proof {
                        assert(drop_matches(row@, tid as int) =~= row2@ + drop_matches(
                            row@.subrange(e + 1, row@.len() as int),
                            tid as int,
                        ));
                        assert(row2@[row2@.len() - 1] == row@[e as int]);
                    }
                } else {
                }
                e += 1;
            }
            proof {
                assert(row@.subrange(row@.len() as int, row@.len() as int) =~= Seq::<(
                    NodeId,
                    u32,
                )>::empty());
                assert(row2@ =~= drop_matches(row@, tid as int));
            }
            let ghost kept = row2@;
            adj2.set(fid, row2);
            proof {
                assert forall|k: int, e2: int|
                    0 <= k < n && 0 <= e2 < adj2@[k]@.len() implies ((#[trigger] adj2@[k]@[e2]).0.0
                    < n && adj2@[k]@[e2].0.0 != k) by {
                    if k == fid as int {
                        let y = choose|y: int|
                            0 <= y < row@.len() && #[trigger] kept[e2] == row@[y];
                        assert(row@[y].0.0 < n && row@[y].0.0 != fid as int);
                    }
                }
                assert(first_bad_pair(names, drop@, j as int) == first_bad_pair(
                    names,
                    drop@,
                    j + 1,
                ));
                assert forall|k: int| 0 <= k < n implies (#[trigger] adj2@[k])@ == drops_applied(
                    view0,
                    names,
                    drop@,
                    j + 1,
                )[k] by {
                    assert(drops_applied(view0, names, drop@, j + 1) == drops_applied(
                        view0,
                        names,
                        drop@,
                        j as int,
                    ).update(fid as int, drop_matches(
                        drops_applied(view0, names, drop@, j as int)[fid as int],
                        tid as int,
                    )));
                }
            }
            j += 1;
        }
        // apply weight overrides
        let ghost dropped = drops_applied(view0, names, drop@, drop@.len() as int);
        let mut j2: usize = 0;
        while j2 < overrides.len()
            invariant
                j2 <= overrides@.len(),
                n == self.node_count(),
                n == self.to_name@.len(),
                self.wf(),
                names == self.names(),
                view0 == self.adjacency(),
                dropped == drops_applied(view0, names, drop@, drop@.len() as int),
                first_bad_pair(names, drop@, 0) == -1,
                first_bad_triple(names, overrides@, 0) == first_bad_triple(
                    names,
                    overrides@,
                    j2 as int,
                ),
                adj2@.len() == n,
                forall|k: int|
                    0 <= k < n ==> (#[trigger] adj2@[k])@ == overrides_applied(
                        dropped,
                        names,
                        overrides@,
                        j2 as int,
                    )[k],
                overrides_applied(dropped, names, overrides@, j2 as int).len() == n,
                forall|k: int, e: int|
                    0 <= k < n && 0 <= e < adj2@[k]@.len() ==> ((#[trigger] adj2@[k]@[e]).0.0 < n
                        && adj2@[k]@[e].0.0 != k),
            decreases overrides@.len() - j2,
        {
            proof {
                lemma_graph_views(*self);
            }
            let (f, t, w) = &overrides[j2];
            let fid = match find_in(&self.to_name, f.as_str()) {
                Some(x) => x,
                None => {
                    proof {
                        assert(first_bad_triple(names, overrides@, j2 as int) == j2 as int);
                        assert(triple_bad_name(names, overrides@[j2 as int]) == f@);
                    }
                    return Err(PathError::NodeNotFound(f.clone()));
                },
            };
            let tid = match find_in(&self.to_name, t.as_str()) {
                Some(x) => x,
                None => {
                    proof {
                        assert(first_bad_triple(names, overrides@, j2 as int) == j2 as int);
                        assert(triple_bad_name(names, overrides@[j2 as int]) == t@);
                    }
                    return Err(PathError::NodeNotFound(t.clone()));
                },
            };
            let ghost pre_row = adj2@[fid as int]@;
            let row_len = adj2[fid].len();
            let mut e: usize = 0;
            let mut found: bool = false;
            while e < row_len && !found
                invariant
                    e <= row_len,
                    tid <= u32::MAX as usize,
                    row_len == adj2@[fid as int]@.len(),
                    fid < adj2@.len(),
                    adj2@[fid as int]@ == pre_row,
                    !found ==> forall|k: int|
                        0 <= k < e ==> (#[trigger] pre_row[k]).0.0 != tid as int,
                    found ==> e < row_len && pre_row[e as int].0.0 == tid as int && (forall|k: int|
                        0 <= k < e ==> (#[trigger] pre_row[k]).0.0 != tid as int),
                decreases row_len - e + (if found {
                    0int
                } else {
                    1int
                }),
            {
                if adj2[fid][e].0.0 == tid as u32 {
                    found = true;
                } else {
                    e += 1;
                }
            }
            let ghost preall = adj2@.map_values(|l: Vec<(NodeId, u32)>| l@);
            if found {
                let entry = adj2[fid][e];
                let mut row2: Vec<(NodeId, u32)> = Vec::new();
                let mut c: usize = 0;
                while c < row_len
                    invariant
                        c <= row_len,
                        row_len == pre_row.len(),
                        fid < adj2@.len(),
                        adj2@[fid as int]@ == pre_row,
                        e < row_len,
                        entry == pre_row[e as int],
                        row2@.len() == c,
                        forall|k: int|
                            0 <= k < c ==> #[trigger] row2@[k] == (if k == e as int {
                                (pre_row[e as int].0, *w)
                            } else {
                                pre_row[k]
                            }),
                    decreases row_len - c,
                {
                    if c == e {
                        row2.push((entry.0, *w));
                    } else {
                        row2.push(adj2[fid][c]);
                    }
                    c += 1;
                }
                adj2.set(fid, row2);
                proof {
                    lemma_override_at(pre_row, tid as int, *w, e as int);
                    assert(adj2@[fid as int]@ =~= override_first(pre_row, tid as int, *w));
                    assert forall|k: int, e2: int|
                        0 <= k < n && 0 <= e2 < adj2@[k]@.len() implies ((
                    #[trigger] adj2@[k]@[e2]).0.0 < n && adj2@[k]@[e2].0.0 != k) by {
                        if k == fid as int {
                            assert(adj2@[k]@[e2].0 == pre_row[e2].0);
                            assert(pre_row[e2].0.0 < n && pre_row[e2].0.0 != k);
                        }
                    }
                }
            } else {
                proof {
                    lemma_override_none(pre_row, tid as int, *w);
                }
            }
            proof {
                assert(first_bad_triple(names, overrides@, j2 as int) == first_bad_triple(
                    names,
                    overrides@,
                    j2 + 1,
                ));
                assert forall|k: int| 0 <= k < n implies (#[trigger] adj2@[k])@
                    == overrides_applied(dropped, names, overrides@, j2 + 1)[k] by {
                    assert(overrides_applied(dropped, names, overrides@, j2 + 1)
                        == overrides_applied(dropped, names, overrides@, j2 as int).update(
                        fid as int,
                        override_first(
                            overrides_applied(dropped, names, overrides@, j2 as int)[fid as int],
                            tid as int,
                            overrides@[j2 as int].2,
                        ),
                    ));
                }
            }
            j2 += 1;
        }
        let g2 = Graph { to_name: to_name2, adj: adj2 };
        proof {
            lemma_graph_views(g2);
            lemma_graph_views(*self);
            assert(to_name2@ =~= self.to_name@);
            assert(g2.names() =~= names);
            assert(g2.adjacency() =~~= overrides_applied(
                dropped,
                names,
                overrides@,
                overrides@.len() as int,
            ));
            assert(g2.wf());
        }
        Ok(g2)
    }
}

} // verus!
