//! Single-source, single-target shortest paths on the directed latency
//! graph, with bottleneck-edge identification.
//!
//! The solver is Dijkstra's algorithm over non-negative integer weights:
//! a frontier of `(tentative cost, node)` entries, settled cheapest-first,
//! with parent pointers recorded per relaxation and walked backward to
//! reconstruct the path once the target is settled.

use crate::directed::{find_in, lemma_graph_views, Graph, NodeId};
use crate::error::PathError;
use crate::path::{Edge, Path};
use vstd::prelude::*;
use vstd::set_lib::{lemma_int_range, lemma_len_subset, set_int_range};

verus! {

/// The least latency among the entries of `l` leading to node `v`; `-1`
/// when none does.
pub open spec fn list_min_weight(l: Seq<(NodeId, u32)>, v: int) -> int
    decreases l.len(),
{
    if l.len() == 0 {
        -1
    } else {
        let rest = list_min_weight(l.subrange(1, l.len() as int), v);
        if l[0].0.0 == v {
            if rest == -1 || (l[0].1 as int) < rest {
                l[0].1 as int
            } else {
                rest
            }
        } else {
            rest
        }
    }
}

/// The latency of the first entry of `l` leading to node `v`; `-1` when
/// none does.
pub open spec fn list_first_weight(l: Seq<(NodeId, u32)>, v: int) -> int
    decreases l.len(),
{
    if l.len() == 0 {
        -1
    } else if l[0].0.0 == v {
        l[0].1 as int
    } else {
        list_first_weight(l.subrange(1, l.len() as int), v)
    }
}

/// The least and the first latency toward `v` exist together, lie in the
/// 32-bit range, and the least is no larger than the first.
proof fn lemma_weights_exist(l: Seq<(NodeId, u32)>, v: int)
    ensures
        (list_min_weight(l, v) >= 0) == (list_first_weight(l, v) >= 0),
        list_min_weight(l, v) >= 0 || list_min_weight(l, v) == -1,
        list_first_weight(l, v) >= 0 || list_first_weight(l, v) == -1,
        list_min_weight(l, v) >= 0 ==> list_min_weight(l, v) <= u32::MAX && list_min_weight(l, v)
            <= list_first_weight(l, v),
        list_first_weight(l, v) >= 0 ==> list_first_weight(l, v) <= u32::MAX,
    decreases l.len(),
{
    if l.len() > 0 {
        lemma_weights_exist(l.subrange(1, l.len() as int), v);
    }
}

/// How the least latency toward `v` changes when one more entry of the
/// list is taken into account.
proof fn lemma_min_prefix_step(l: Seq<(NodeId, u32)>, v: int, k: int)
    requires
        0 <= k < l.len(),
    ensures
        list_min_weight(l.subrange(0, k + 1), v) == ({
            let m = list_min_weight(l.subrange(0, k), v);
            if l[k].0.0 != v {
                m
            } else if m == -1 || (l[k].1 as int) < m {
                l[k].1 as int
            } else {
                m
            }
        }),
    decreases k,
{
    let a = l.subrange(0, k + 1);
    let b = l.subrange(0, k);
    if k == 0 {
        assert(a.subrange(1, a.len() as int) =~= Seq::<(NodeId, u32)>::empty());
        assert(b =~= Seq::<(NodeId, u32)>::empty());
        assert(a[0] == l[0]);
    } else {
        let tail = l.subrange(1, l.len() as int);
        lemma_min_prefix_step(tail, v, k - 1);
        assert(a[0] == l[0]);
        assert(b[0] == l[0]);
        assert(a.subrange(1, a.len() as int) =~= tail.subrange(0, k));
        assert(b.subrange(1, b.len() as int) =~= tail.subrange(0, k - 1));
        assert(tail[k - 1] == l[k]);
    }
}

/// An entry toward `v` exists whenever the least latency is defined.
proof fn lemma_min_entry_exists(l: Seq<(NodeId, u32)>, v: int)
    requires
        list_min_weight(l, v) >= 0,
    ensures
        exists|k: int| 0 <= k < l.len() && (#[trigger] l[k]).0.0 == v,
    decreases l.len(),
{
    if l.len() > 0 {
        if l[0].0.0 == v {
        } else {
            lemma_min_entry_exists(l.subrange(1, l.len() as int), v);
            let k = choose|k: int|
                0 <= k < l.subrange(1, l.len() as int).len() && (#[trigger] l.subrange(
                    1,
                    l.len() as int,
                )[k]).0.0 == v;
            assert(l[k + 1].0.0 == v);
        }
    }
}

/// The first position of `x` in `s`, scanning from `i`; `-1` if absent.
pub(crate) open spec fn first_pos(s: Seq<int>, x: int, i: int) -> int
    decreases s.len() - i,
    when 0 <= i <= s.len()
{
    if i >= s.len() {
        -1
    } else if s[i] == x {
        i
    } else {
        first_pos(s, x, i + 1)
    }
}

/// In a duplicate-free sequence, the first position of an element is its
/// only position.
proof fn lemma_first_pos_at(s: Seq<int>, x: int, i: int, at: int)
    requires
        s.no_duplicates(),
        0 <= i <= at < s.len(),
        s[at] == x,
    ensures
        first_pos(s, x, i) == at,
    decreases s.len() - i,
{
    if s[i] != x {
        lemma_first_pos_at(s, x, i + 1, at);
    } else {
        if i != at {
            assert(s[i] != s[at]);
        }
    }
}

/// A duplicate-free sequence of values drawn from `0..n` has at most `n`
/// elements.
proof fn lemma_order_bound(s: Seq<int>, n: int)
    requires
        s.no_duplicates(),
        forall|k: int| 0 <= k < s.len() ==> 0 <= #[trigger] s[k] < n,
        n >= 0,
    ensures
        s.len() <= n,
{
    broadcast use vstd::set::group_set_axioms;

    s.unique_seq_to_set();
    lemma_int_range(0, n);
    assert(s.to_set().subset_of(set_int_range(0, n))) by {
        assert forall|x: int| s.to_set().contains(x) implies set_int_range(0, n).contains(x) by {
            let k = choose|k: int| 0 <= k < s.len() && s[k] == x;
            assert(0 <= s[k] < n);
        }
    }
    lemma_len_subset(s.to_set(), set_int_range(0, n));
}

/// After `swap_remove(j)`, any value other than the one at `j` that was
/// present is still present.
proof fn lemma_swap_remove_keeps(s: Seq<(u64, u32)>, j: int, val: (u64, u32))
    requires
        0 <= j < s.len(),
        s.contains(val),
        val != s[j],
    ensures
        s.update(j, s.last()).drop_last().contains(val),
{
    let k = choose|k: int| 0 <= k < s.len() && s[k] == val;
    let s2 = s.update(j, s.last()).drop_last();
    if k == s.len() - 1 {
        assert(s2[j] == val);
    } else {
        assert(s2[k] == val);
    }
}

/// The cost of a path telescopes along exact distance differences.
proof fn lemma_telescope(g: Graph, dist: Seq<u64>, s: Seq<NodeId>)
    requires
        s.len() >= 1,
        forall|i: int| 0 <= i < s.len() ==> (#[trigger] s[i]).0 < dist.len(),
        forall|i: int|
            0 <= i < s.len() - 1 ==> g.edge_min((#[trigger] s[i]).0 as int, s[i + 1].0 as int) >= 0
                && dist[s[i + 1].0 as int] == dist[s[i].0 as int] + g.edge_min(
                s[i].0 as int,
                s[i + 1].0 as int,
            ),
    ensures
        g.path_cost(s) == dist[s.last().0 as int] - dist[s[0].0 as int],
    decreases s.len(),
{
    if s.len() > 1 {
        let t = s.subrange(1, s.len() as int);
        assert forall|i: int| 0 <= i < t.len() implies (#[trigger] t[i]).0 < dist.len() by {
            assert(t[i] == s[i + 1]);
        }
        assert forall|i: int|
            0 <= i < t.len() - 1 implies g.edge_min((#[trigger] t[i]).0 as int, t[i + 1].0 as int)
            >= 0 && dist[t[i + 1].0 as int] == dist[t[i].0 as int] + g.edge_min(
            t[i].0 as int,
            t[i + 1].0 as int,
        ) by {
            assert(t[i] == s[i + 1]);
            assert(t[i + 1] == s[i + 2]);
            assert(g.edge_min((s[i + 1]).0 as int, s[i + 2].0 as int) >= 0 && dist[s[i + 2].0 as int]
                == dist[s[i + 1].0 as int] + g.edge_min(s[i + 1].0 as int, s[i + 2].0 as int));
        }
        lemma_telescope(g, dist, t);
        assert(t.last() == s.last());
        assert(t[0] == s[1]);
        assert(g.edge_min(s[0].0 as int, s[1].0 as int) >= 0 && dist[s[1].0 as int]
            == dist[s[0].0 as int] + g.edge_min(s[0].0 as int, s[1].0 as int));
    }
}

/// Exact accounting of reached nodes while the first `k` out-edges of
/// `u` are being scanned: each reached non-source node's parent is
/// settled, and its distance is its parent's distance plus the least
/// applicable edge latency — for parent `u`, the least among the scanned
/// prefix.
#[verifier::opaque]
spec fn scan_acct(
    g: Graph,
    n: int,
    from_id: int,
    u: int,
    du: u64,
    k: int,
    done: Seq<bool>,
    dist: Seq<u64>,
    par: Seq<Option<NodeId>>,
) -> bool {
    forall|v: int|
        0 <= v < n && #[trigger] dist[v] < u64::MAX && v != from_id ==> (par[v] matches Some(w)
            && w.0 < n && done[w.0 as int] && (w.0 as int == u ==> list_min_weight(
            g.adjacency()[u].subrange(0, k),
            v,
        ) >= 0 && dist[v] == du + list_min_weight(g.adjacency()[u].subrange(0, k), v)) && (
        w.0 as int != u ==> g.edge_min(w.0 as int, v) >= 0 && dist[v] == dist[w.0 as int]
            + g.edge_min(w.0 as int, v)))
}

/// During the scan no unsettled node sits above `du` plus the least
/// scanned latency toward it.
#[verifier::opaque]
spec fn scan_ceiling(
    g: Graph,
    n: int,
    u: int,
    du: u64,
    k: int,
    done: Seq<bool>,
    dist: Seq<u64>,
) -> bool {
    forall|v: int|
        0 <= v < n && !done[v] && #[trigger] list_min_weight(
            g.adjacency()[u].subrange(0, k),
            v,
        ) >= 0 ==> dist[v] < u64::MAX && dist[v] <= du + list_min_weight(
            g.adjacency()[u].subrange(0, k),
            v,
        )
}

/// At the start of a scan nothing has `u` as its parent yet, so the
/// accounting holds vacuously for the empty prefix.
proof fn lemma_scan_init(
    g: Graph,
    n: int,
    from_id: int,
    u: int,
    du: u64,
    done: Seq<bool>,
    dist: Seq<u64>,
    par: Seq<Option<NodeId>>,
)
    requires
        g.wf(),
        n == g.node_count(),
        0 <= u < n,
        forall|v: int|
            0 <= v < n && #[trigger] dist[v] < u64::MAX && v != from_id ==> (par[v] matches Some(w)
                && w.0 < n && done[w.0 as int] && w.0 as int != u && g.edge_min(w.0 as int, v) >= 0
                && dist[v] == dist[w.0 as int] + g.edge_min(w.0 as int, v)),
    ensures
        scan_acct(g, n, from_id, u, du, 0, done, dist, par),
        scan_ceiling(g, n, u, du, 0, done, dist),
{
    reveal(scan_acct);
    reveal(scan_ceiling);
    assert(g.adjacency()[u].subrange(0, 0) =~= Seq::<(NodeId, u32)>::empty());
}

/// One scan step preserves the accounting: either the entry relaxed its
/// target (distances and parents changed at the target alone), or
/// nothing changed because the entry did not improve on its target.
#[verifier::rlimit(60)]
proof fn lemma_scan_step(
    g: Graph,
    n: int,
    from_id: int,
    u: int,
    du: u64,
    k: int,
    order: Seq<int>,
    done: Seq<bool>,
    d0: Seq<u64>,
    p0: Seq<Option<NodeId>>,
    d1: Seq<u64>,
    p1: Seq<Option<NodeId>>,
)
    requires
        g.wf(),
        n == g.node_count(),
        0 <= u < n,
        0 <= from_id < n,
        0 <= k < g.adjacency()[u].len(),
        d0.len() == n,
        p0.len() == n,
        done.len() == n,
        done[u],
        d0[u] == du,
        d0[from_id] == 0,
        order.no_duplicates(),
        order.len() >= 1,
        order[order.len() - 1] == u,
        forall|v: int| 0 <= v < n ==> (#[trigger] done[v] <==> order.contains(v)),
        forall|v: int|
            0 <= v < n && #[trigger] done[v] && v != from_id ==> (p0[v] matches Some(w2) && (
            exists|a: int, b: int|
                0 <= a < b < order.len() && #[trigger] order[a] == w2.0 as int && #[trigger] order[b]
                    == v)),
        scan_acct(g, n, from_id, u, du, k, done, d0, p0),
        scan_ceiling(g, n, u, du, k, done, d0),
        !done[g.adjacency()[u][k].0.0 as int] ==> du + g.adjacency()[u][k].1 < u64::MAX,
        ({
            let v = g.adjacency()[u][k].0.0 as int;
            let w = g.adjacency()[u][k].1;
            if !done[v] && du + w < d0[v] {
                d1 == d0.update(v, (du + w) as u64) && p1 == p0.update(v, Some(NodeId(u as u32)))
                    && du + w < u64::MAX
            } else {
                d1 == d0 && p1 == p0
            }
        }),
    ensures
        scan_acct(g, n, from_id, u, du, k + 1, done, d1, p1),
        scan_ceiling(g, n, u, du, k + 1, done, d1),
{
    reveal(scan_acct);
    reveal(scan_ceiling);
    let v = g.adjacency()[u][k].0.0 as int;
    let w = g.adjacency()[u][k].1;
    let pref = g.adjacency()[u].subrange(0, k);
    let prefn = g.adjacency()[u].subrange(0, k + 1);
    assert(0 <= v < n && v != u);
    lemma_min_prefix_step(g.adjacency()[u], v, k);
    assert forall|v2: int| v2 != v implies list_min_weight(prefn, v2) == list_min_weight(
        pref,
        v2,
    ) by {
        lemma_min_prefix_step(g.adjacency()[u], v2, k);
    }
    lemma_weights_exist(pref, v);
    if !done[v] && du + w < d0[v] {
        assert(v != from_id);
        assert(list_min_weight(prefn, v) == w as int);
        assert forall|v2: int|
            0 <= v2 < n && #[trigger] d1[v2] < u64::MAX && v2 != from_id implies (p1[v2]
            matches Some(w2) && w2.0 < n && done[w2.0 as int] && (w2.0 as int == u
            ==> list_min_weight(prefn, v2) >= 0 && d1[v2] == du + list_min_weight(prefn, v2)) && (
        w2.0 as int != u ==> g.edge_min(w2.0 as int, v2) >= 0 && d1[v2] == d1[w2.0 as int]
            + g.edge_min(w2.0 as int, v2))) by {
            if v2 == v {
            } else {
                assert(d1[v2] == d0[v2] && p1[v2] == p0[v2]);
            }
        }
        assert forall|v2: int|
            0 <= v2 < n && !done[v2] && #[trigger] list_min_weight(prefn, v2) >= 0 implies d1[v2]
            < u64::MAX && d1[v2] <= du + list_min_weight(prefn, v2) by {
            if v2 != v {
                assert(d1[v2] == d0[v2]);
            }
        }
    } else if !done[v] {
        // the entry does not improve on the recorded prefix minimum
        assert forall|v2: int|
            0 <= v2 < n && !done[v2] && #[trigger] list_min_weight(prefn, v2) >= 0 implies d1[v2]
            < u64::MAX && d1[v2] <= du + list_min_weight(prefn, v2) by {
            if v2 == v {
                if list_min_weight(pref, v2) >= 0 {
                }
            }
        }
        assert forall|v2: int|
            0 <= v2 < n && #[trigger] d1[v2] < u64::MAX && v2 != from_id implies (p1[v2]
            matches Some(w2) && w2.0 < n && done[w2.0 as int] && (w2.0 as int == u
            ==> list_min_weight(prefn, v2) >= 0 && d1[v2] == du + list_min_weight(prefn, v2)) && (
        w2.0 as int != u ==> g.edge_min(w2.0 as int, v2) >= 0 && d1[v2] == d1[w2.0 as int]
            + g.edge_min(w2.0 as int, v2))) by {
            if v2 == v && p1[v2] is Some && (p1[v2]->0).0 as int == u {
                assert(d1[v2] == du + list_min_weight(pref, v2));
                assert(du + w >= d1[v2]);
            }
        }
    } else {
        // a settled target: its parent settled strictly earlier, yet u
        // settled last, so its parent is not u and nothing depends on
        // the scanned prefix
        assert forall|v2: int|
            0 <= v2 < n && !done[v2] && #[trigger] list_min_weight(prefn, v2) >= 0 implies d1[v2]
            < u64::MAX && d1[v2] <= du + list_min_weight(prefn, v2) by {
            assert(v2 != v);
        }
        assert forall|v2: int|
            0 <= v2 < n && #[trigger] d1[v2] < u64::MAX && v2 != from_id implies (p1[v2]
            matches Some(w2) && w2.0 < n && done[w2.0 as int] && (w2.0 as int == u
            ==> list_min_weight(prefn, v2) >= 0 && d1[v2] == du + list_min_weight(prefn, v2)) && (
        w2.0 as int != u ==> g.edge_min(w2.0 as int, v2) >= 0 && d1[v2] == d1[w2.0 as int]
            + g.edge_min(w2.0 as int, v2))) by {
            if v2 == v && p1[v2] is Some && (p1[v2]->0).0 as int == u {
                let w2 = p1[v2]->0;
                let (a, b) = choose|a: int, b: int|
                    0 <= a < b < order.len() && #[trigger] order[a] == w2.0 as int
                        && #[trigger] order[b] == v2;
                assert(order[a] == order[order.len() - 1]);
                assert(a == order.len() - 1);
                assert(false);
            }
        }
    }
}

/// After the whole list is scanned the prefix minimum is the edge
/// minimum, so the accounting takes its settled form.
proof fn lemma_scan_end(
    g: Graph,
    n: int,
    from_id: int,
    u: int,
    du: u64,
    done: Seq<bool>,
    dist: Seq<u64>,
    par: Seq<Option<NodeId>>,
)
    requires
        g.wf(),
        n == g.node_count(),
        0 <= u < n,
        dist.len() == n,
        dist[u] == du,
        scan_acct(g, n, from_id, u, du, g.adjacency()[u].len() as int, done, dist, par),
    ensures
        forall|v: int|
            0 <= v < n && #[trigger] dist[v] < u64::MAX && v != from_id ==> (par[v] matches Some(w)
                && w.0 < n && done[w.0 as int] && g.edge_min(w.0 as int, v) >= 0 && dist[v]
                == dist[w.0 as int] + g.edge_min(w.0 as int, v)),
{
    reveal(scan_acct);
    assert(g.adjacency()[u].subrange(0, g.adjacency()[u].len() as int) =~= g.adjacency()[u]);
}

/// After the whole list is scanned, every unsettled node with an edge
/// from `u` sits at or below `du` plus that edge.
proof fn lemma_scan_end_ceiling(g: Graph, n: int, u: int, du: u64, done: Seq<bool>, dist: Seq<u64>)
    requires
        g.wf(),
        n == g.node_count(),
        0 <= u < n,
        dist.len() == n,
        done.len() == n,
        scan_ceiling(g, n, u, du, g.adjacency()[u].len() as int, done, dist),
    ensures
        forall|v: int|
            0 <= v < n && !done[v] && #[trigger] g.edge_min(u, v) >= 0 ==> dist[v] < u64::MAX
                && dist[v] <= du + g.edge_min(u, v),
{
    reveal(scan_ceiling);
    assert(g.adjacency()[u].subrange(0, g.adjacency()[u].len() as int) =~= g.adjacency()[u]);
    assert forall|v: int|
        0 <= v < n && !done[v] && #[trigger] g.edge_min(u, v) >= 0 implies dist[v] < u64::MAX
        && dist[v] <= du + g.edge_min(u, v) by {
        assert(list_min_weight(
            g.adjacency()[u].subrange(0, g.adjacency()[u].len() as int),
            v,
        ) == g.edge_min(u, v));
    }
}

/// Pushing a relaxed entry keeps every unsettled reached node queued at
/// its exact distance.
proof fn lemma_push_witness(
    n: int,
    v: int,
    done: Seq<bool>,
    d0: Seq<u64>,
    d1: Seq<u64>,
    f0: Seq<(u64, u32)>,
    f1: Seq<(u64, u32)>,
)
    requires
        0 <= v < n,
        d0.len() == n,
        d1.len() == n,
        done.len() == n,
        d1 == d0.update(v, d1[v]),
        f1 == f0.push((d1[v], v as u32)),
        forall|x: int|
            0 <= x < n && d0[x] < u64::MAX && !(#[trigger] done[x]) ==> f0.contains((d0[x], x as u32)),
    ensures
        forall|x: int|
            0 <= x < n && d1[x] < u64::MAX && !(#[trigger] done[x]) ==> f1.contains((d1[x], x as u32)),
{
    assert forall|x: int|
        0 <= x < n && d1[x] < u64::MAX && !(#[trigger] done[x]) implies f1.contains(
        (d1[x], x as u32),
    ) by {
        if x == v {
            assert(f1[f1.len() - 1] == (d1[x], x as u32));
        } else {
            assert(d1[x] == d0[x]);
            let wit = choose|kk: int| 0 <= kk < f0.len() && f0[kk] == (d0[x], x as u32);
            assert(f1[wit] == (d1[x], x as u32));
        }
    }
}

/// Removing one queue entry by swap keeps every entry sane and, as long
/// as the removed entry was not the live witness of an unsettled node,
/// keeps every unsettled reached node queued at its exact distance.
#[verifier::rlimit(30)]
proof fn lemma_queue_survivors(
    n: int,
    done: Seq<bool>,
    dist: Seq<u64>,
    f0: Seq<(u64, u32)>,
    f1: Seq<(u64, u32)>,
    j: int,
)
    requires
        0 <= j < f0.len(),
        f1 == f0.update(j, f0.last()).drop_last(),
        dist.len() == n,
        done.len() == n,
        n <= u32::MAX as int,
        forall|k: int|
            0 <= k < f0.len() ==> (((#[trigger] f0[k]).1 as int) < n && dist[f0[k].1 as int]
                < u64::MAX && f0[k].0 >= dist[f0[k].1 as int]),
        forall|v: int|
            0 <= v < n && dist[v] < u64::MAX && !(#[trigger] done[v]) ==> f0.contains(
                (dist[v], v as u32),
            ),
        ({
            let rv = f0[j];
            done[rv.1 as int] || rv.0 != dist[rv.1 as int]
        }),
    ensures
        forall|k: int|
            0 <= k < f1.len() ==> (((#[trigger] f1[k]).1 as int) < n && dist[f1[k].1 as int]
                < u64::MAX && f1[k].0 >= dist[f1[k].1 as int]),
        forall|v: int|
            0 <= v < n && dist[v] < u64::MAX && !(#[trigger] done[v]) ==> f1.contains(
                (dist[v], v as u32),
            ),
{
    assert forall|k: int|
        0 <= k < f1.len() implies (((#[trigger] f1[k]).1 as int) < n && dist[f1[k].1 as int]
        < u64::MAX && f1[k].0 >= dist[f1[k].1 as int]) by {
        if k == j {
            assert(f1[k] == f0[f0.len() - 1]);
        } else {
            assert(f1[k] == f0[k]);
        }
    }
    assert forall|v: int|
        0 <= v < n && dist[v] < u64::MAX && !(#[trigger] done[v]) implies f1.contains(
        (dist[v], v as u32),
    ) by {
        assert(f0.contains((dist[v], v as u32)));
        if (dist[v], v as u32) == f0[j] {
            assert(f0[j].1 as int == v);
        }
        assert((dist[v], v as u32) != f0[j]);
        lemma_swap_remove_keeps(f0, j, (dist[v], v as u32));
    }
}

/// Removing one queue entry by swap keeps every entry sane and keeps
/// every unsettled reached node other than the removed entry's own
/// queued at its exact distance.
#[verifier::rlimit(30)]
proof fn lemma_queue_survivors_except(
    n: int,
    done: Seq<bool>,
    dist: Seq<u64>,
    f0: Seq<(u64, u32)>,
    f1: Seq<(u64, u32)>,
    j: int,
)
    requires
        0 <= j < f0.len(),
        f1 == f0.update(j, f0.last()).drop_last(),
        dist.len() == n,
        done.len() == n,
        n <= u32::MAX as int,
        forall|k: int|
            0 <= k < f0.len() ==> (((#[trigger] f0[k]).1 as int) < n && dist[f0[k].1 as int]
                < u64::MAX && f0[k].0 >= dist[f0[k].1 as int]),
        forall|v: int|
            0 <= v < n && dist[v] < u64::MAX && !(#[trigger] done[v]) ==> f0.contains(
                (dist[v], v as u32),
            ),
    ensures
        forall|k: int|
            0 <= k < f1.len() ==> (((#[trigger] f1[k]).1 as int) < n && dist[f1[k].1 as int]
                < u64::MAX && f1[k].0 >= dist[f1[k].1 as int]),
        forall|v: int|
            0 <= v < n && dist[v] < u64::MAX && !(#[trigger] done[v]) && v != f0[j].1 as int
                ==> f1.contains((dist[v], v as u32)),
{
    assert forall|k: int|
        0 <= k < f1.len() implies (((#[trigger] f1[k]).1 as int) < n && dist[f1[k].1 as int]
        < u64::MAX && f1[k].0 >= dist[f1[k].1 as int]) by {
        if k == j {
            assert(f1[k] == f0[f0.len() - 1]);
        } else {
            assert(f1[k] == f0[k]);
        }
    }
    assert forall|v: int|
        0 <= v < n && dist[v] < u64::MAX && !(#[trigger] done[v]) && v != f0[j].1 as int implies f1.contains(
        (dist[v], v as u32),
    ) by {
        assert(f0.contains((dist[v], v as u32)));
        assert((dist[v], v as u32) != f0[j]);
        lemma_swap_remove_keeps(f0, j, (dist[v], v as u32));
    }
}

/// Settling `u` extends the settlement order consistently: it stays
/// duplicate-free and in range, settled nodes are exactly its members,
/// and every settled non-source node's parent settles strictly earlier.
#[verifier::rlimit(60)]
proof fn lemma_settle(
    n: int,
    from_id: int,
    u: int,
    pre_order: Seq<int>,
    order: Seq<int>,
    done0: Seq<bool>,
    done: Seq<bool>,
    par: Seq<Option<NodeId>>,
)
    requires
        0 <= u < n,
        done0.len() == n,
        done.len() == n,
        order == pre_order.push(u),
        !done0[u],
        done == done0.update(u, true),
        pre_order.no_duplicates(),
        forall|k: int| 0 <= k < pre_order.len() ==> 0 <= #[trigger] pre_order[k] < n,
        forall|v: int| 0 <= v < n ==> (#[trigger] done0[v] <==> pre_order.contains(v)),
        forall|v: int|
            0 <= v < n && #[trigger] done0[v] && v != from_id ==> (par[v] matches Some(w) && (
            exists|a: int, b: int|
                0 <= a < b < pre_order.len() && #[trigger] pre_order[a] == w.0 as int
                    && #[trigger] pre_order[b] == v)),
        u != from_id ==> (par[u] matches Some(w) && w.0 < n && done0[w.0 as int]),
    ensures
        order.no_duplicates(),
        forall|k: int| 0 <= k < order.len() ==> 0 <= #[trigger] order[k] < n,
        order.len() >= 1,
        order[order.len() - 1] == u,
        forall|v: int| 0 <= v < n ==> (#[trigger] done[v] <==> order.contains(v)),
        forall|v: int|
            0 <= v < n && #[trigger] done[v] && v != from_id ==> (par[v] matches Some(w) && (
            exists|a: int, b: int|
                0 <= a < b < order.len() && #[trigger] order[a] == w.0 as int && #[trigger] order[b]
                    == v)),
{
    assert(!pre_order.contains(u));
    assert(order[order.len() - 1] == u);
    assert forall|i: int, j: int|
        0 <= i < order.len() && 0 <= j < order.len() && i != j implies order[i] != order[j] by {
        if i < order.len() - 1 && j < order.len() - 1 {
            assert(order[i] == pre_order[i] && order[j] == pre_order[j]);
        } else if i == order.len() - 1 {
            assert(order[j] == pre_order[j]);
        } else {
            assert(order[i] == pre_order[i]);
        }
    }
    assert forall|v: int| 0 <= v < n implies (#[trigger] done[v] <==> order.contains(v)) by {
        if v == u {
            assert(order[order.len() - 1] == v);
        } else {
            if pre_order.contains(v) {
                let a = choose|a: int| 0 <= a < pre_order.len() && pre_order[a] == v;
                assert(order[a] == v);
            } else {
                if order.contains(v) {
                    let a = choose|a: int| 0 <= a < order.len() && order[a] == v;
                    assert(a < order.len() - 1 ==> pre_order[a] == v);
                }
            }
        }
    }
    assert forall|v: int|
        0 <= v < n && #[trigger] done[v] && v != from_id implies (par[v] matches Some(w) && (
    exists|a: int, b: int|
        0 <= a < b < order.len() && #[trigger] order[a] == w.0 as int && #[trigger] order[b]
            == v)) by {
        if v == u {
            let w = par[v]->0;
            assert(pre_order.contains(w.0 as int));
            let a = choose|a: int| 0 <= a < pre_order.len() && pre_order[a] == w.0 as int;
            assert(order[a] == w.0 as int);
            assert(order[order.len() - 1] == v);
        } else {
            assert(done0[v]);
            let (a, b) = choose|a: int, b: int|
                0 <= a < b < pre_order.len() && #[trigger] pre_order[a] == (par[v]->0).0 as int
                    && #[trigger] pre_order[b] == v;
            assert(order[a] == pre_order[a] && order[b] == pre_order[b]);
        }
    }
}

/// Entering a scan: settling the freshly dequeued minimal node leaves
/// the settlement order consistent, starts the prefix accounting, and
/// keeps every other working fact of the solver.
#[verifier::rlimit(60)]
proof fn lemma_settle_entry(
    g: Graph,
    n: int,
    from_id: int,
    u: int,
    du: u64,
    done0: Seq<bool>,
    done: Seq<bool>,
    dist: Seq<u64>,
    par: Seq<Option<NodeId>>,
    fr: Seq<(u64, u32)>,
    order_in: Seq<int>,
    order: Seq<int>,
)
    requires
        g.wf(),
        n == g.node_count(),
        0 <= from_id < n,
        0 <= u < n,
        done0.len() == n,
        done.len() == n,
        dist.len() == n,
        par.len() == n,
        !done0[u],
        dist[u] == du,
        du < u64::MAX,
        dist[from_id] == 0,
        done == done0.update(u, true),
        order == order_in.push(u),
        forall|v: int| 0 <= v < n && #[trigger] done0[v] ==> dist[v] < u64::MAX,
        forall|v: int|
            0 <= v < n && #[trigger] dist[v] < u64::MAX && v != from_id ==> (par[v] matches Some(w)
                && w.0 < n && done0[w.0 as int] && g.edge_min(w.0 as int, v) >= 0 && dist[v]
                == dist[w.0 as int] + g.edge_min(w.0 as int, v)),
        order_in.no_duplicates(),
        forall|k: int| 0 <= k < order_in.len() ==> 0 <= #[trigger] order_in[k] < n,
        forall|v: int| 0 <= v < n ==> (#[trigger] done0[v] <==> order_in.contains(v)),
        forall|v: int|
            0 <= v < n && #[trigger] done0[v] && v != from_id ==> (par[v] matches Some(w) && (
            exists|a: int, b: int|
                0 <= a < b < order_in.len() && #[trigger] order_in[a] == w.0 as int
                    && #[trigger] order_in[b] == v)),
        forall|x: int, y: int|
            0 <= x < n && 0 <= y < n && #[trigger] done0[x] && #[trigger] dist[y] < u64::MAX
                && !done0[y] ==> dist[x] <= dist[y],
        forall|x: int, y: int|
            0 <= x < n && 0 <= y < n && #[trigger] done0[x] && #[trigger] g.edge_min(x, y) >= 0
                ==> dist[y] < u64::MAX && dist[y] <= dist[x] + g.edge_min(x, y),
        forall|y: int|
            0 <= y < n && #[trigger] dist[y] < u64::MAX && !done0[y] ==> dist[y] >= du,
        forall|v: int|
            0 <= v < n && dist[v] < u64::MAX && !(#[trigger] done0[v]) && v != u ==> fr.contains(
                (dist[v], v as u32),
            ),
    ensures
        order.no_duplicates(),
        forall|k: int| 0 <= k < order.len() ==> 0 <= #[trigger] order[k] < n,
        order.len() >= 1,
        order[order.len() - 1] == u,
        forall|v: int| 0 <= v < n ==> (#[trigger] done[v] <==> order.contains(v)),
        forall|v: int|
            0 <= v < n && #[trigger] done[v] && v != from_id ==> (par[v] matches Some(w) && (
            exists|a: int, b: int|
                0 <= a < b < order.len() && #[trigger] order[a] == w.0 as int && #[trigger] order[b]
                    == v)),
        forall|v: int| 0 <= v < n && #[trigger] done[v] ==> dist[v] < u64::MAX,
        forall|x: int| 0 <= x < n && #[trigger] done[x] ==> dist[x] <= du,
        forall|y: int| 0 <= y < n && #[trigger] dist[y] < u64::MAX && !done[y] ==> dist[y] >= du,
        forall|x: int, y: int|
            0 <= x < n && 0 <= y < n && #[trigger] done[x] && x != u && #[trigger] g.edge_min(x, y)
                >= 0 ==> dist[y] < u64::MAX && dist[y] <= dist[x] + g.edge_min(x, y),
        scan_acct(g, n, from_id, u, du, 0, done, dist, par),
        scan_ceiling(g, n, u, du, 0, done, dist),
        forall|v: int|
            0 <= v < n && dist[v] < u64::MAX && !(#[trigger] done[v]) ==> fr.contains(
                (dist[v], v as u32),
            ),
{
    lemma_settle(n, from_id, u, order_in, order, done0, done, par);
    assert forall|v: int|
        0 <= v < n && #[trigger] dist[v] < u64::MAX && v != from_id implies (par[v] matches Some(w)
        && w.0 < n && done[w.0 as int] && w.0 as int != u && g.edge_min(w.0 as int, v) >= 0
        && dist[v] == dist[w.0 as int] + g.edge_min(w.0 as int, v)) by {
        assert(done0[(par[v]->0).0 as int]);
    }
    lemma_scan_init(g, n, from_id, u, du, done, dist, par);
    assert forall|x: int| 0 <= x < n && #[trigger] done[x] implies dist[x] <= du by {
        if x != u {
            assert(done0[x]);
        }
    }
    assert forall|y: int|
        0 <= y < n && #[trigger] dist[y] < u64::MAX && !done[y] implies dist[y] >= du by {
        assert(!done0[y]);
    }
    assert forall|x: int, y: int|
        0 <= x < n && 0 <= y < n && #[trigger] done[x] && x != u && #[trigger] g.edge_min(x, y)
            >= 0 implies dist[y] < u64::MAX && dist[y] <= dist[x] + g.edge_min(x, y) by {
        assert(done0[x]);
    }
    assert forall|v: int|
        0 <= v < n && dist[v] < u64::MAX && !(#[trigger] done[v]) implies fr.contains(
        (dist[v], v as u32),
    ) by {
        assert(v != u);
    }
}

/// Leaving a scan: the completed prefix accounting settles into the
/// exact distance relation, relaxation closure, and monotonicity.
#[verifier::rlimit(60)]
proof fn lemma_scan_wrapup(
    g: Graph,
    n: int,
    from_id: int,
    u: int,
    du: u64,
    done: Seq<bool>,
    dist: Seq<u64>,
    par: Seq<Option<NodeId>>,
)
    requires
        g.wf(),
        n == g.node_count(),
        0 <= u < n,
        dist.len() == n,
        done.len() == n,
        dist[u] == du,
        done[u],
        forall|v: int| 0 <= v < n && #[trigger] done[v] ==> dist[v] < u64::MAX,
        forall|x: int| 0 <= x < n && #[trigger] done[x] ==> dist[x] <= du,
        forall|y: int| 0 <= y < n && #[trigger] dist[y] < u64::MAX && !done[y] ==> dist[y] >= du,
        forall|x: int, y: int|
            0 <= x < n && 0 <= y < n && #[trigger] done[x] && x != u && #[trigger] g.edge_min(x, y)
                >= 0 ==> dist[y] < u64::MAX && dist[y] <= dist[x] + g.edge_min(x, y),
        scan_acct(g, n, from_id, u, du, g.adjacency()[u].len() as int, done, dist, par),
        scan_ceiling(g, n, u, du, g.adjacency()[u].len() as int, done, dist),
    ensures
        forall|v: int|
            0 <= v < n && #[trigger] dist[v] < u64::MAX && v != from_id ==> (par[v] matches Some(w)
                && w.0 < n && done[w.0 as int] && g.edge_min(w.0 as int, v) >= 0 && dist[v]
                == dist[w.0 as int] + g.edge_min(w.0 as int, v)),
        forall|x: int, y: int|
            0 <= x < n && 0 <= y < n && #[trigger] done[x] && #[trigger] dist[y] < u64::MAX
                && !done[y] ==> dist[x] <= dist[y],
        forall|x: int, y: int|
            0 <= x < n && 0 <= y < n && #[trigger] done[x] && #[trigger] g.edge_min(x, y) >= 0
                ==> dist[y] < u64::MAX && dist[y] <= dist[x] + g.edge_min(x, y),
{
    lemma_scan_end(g, n, from_id, u, du, done, dist, par);
    lemma_scan_end_ceiling(g, n, u, du, done, dist);
    assert forall|x: int, y: int|
        0 <= x < n && 0 <= y < n && #[trigger] done[x] && #[trigger] g.edge_min(x, y) >= 0 implies dist[y]
        < u64::MAX && dist[y] <= dist[x] + g.edge_min(x, y) by {
        if x == u {
            if done[y] {
                assert(dist[y] <= du);
            }
        }
    }
}

/// A backward parent chain from the target, reversed, is a path whose
/// cost telescopes to the recorded distance of the target.
#[verifier::rlimit(100)]
proof fn lemma_chain_to_path(
    g: Graph,
    dist: Seq<u64>,
    par: Seq<Option<NodeId>>,
    rev: Seq<NodeId>,
    path: Seq<NodeId>,
    n: int,
    from_id: int,
    to_id: int,
)
    requires
        g.wf(),
        n == g.node_count(),
        dist.len() == n,
        par.len() == n,
        0 <= from_id < n,
        0 <= to_id < n,
        dist[from_id] == 0,
        par[from_id] is None,
        forall|v: int|
            0 <= v < n && #[trigger] dist[v] < u64::MAX && v != from_id ==> (par[v] matches Some(w)
                && w.0 < n && dist[w.0 as int] < u64::MAX && g.edge_min(w.0 as int, v) >= 0
                && dist[v] == dist[w.0 as int] + g.edge_min(w.0 as int, v)),
        rev.len() >= 1,
        rev[0].0 == to_id,
        rev.last().0 == from_id,
        forall|t: int| 0 <= t < rev.len() ==> (#[trigger] rev[t]).0 < n && dist[rev[t].0 as int]
            < u64::MAX,
        forall|t: int| 0 <= t < rev.len() - 1 ==> par[(#[trigger] rev[t]).0 as int] == Some(
            rev[t + 1],
        ),
        path.len() == rev.len(),
        forall|t: int| 0 <= t < path.len() ==> #[trigger] path[t] == rev[rev.len() - 1 - t],
    ensures
        g.path_ok(path),
        path[0].0 == from_id,
        path.last().0 == to_id,
        g.path_cost(path) == dist[to_id],
        from_id == to_id ==> path.len() == 1,
{
    let l = rev.len() as int;
    // each forward pair is a stored edge at the recorded exact distance
    // difference
    assert forall|i: int|
        0 <= i < l - 1 implies g.edge_min((#[trigger] path[i]).0 as int, path[i + 1].0 as int)
        >= 0 && dist[path[i + 1].0 as int] == dist[path[i].0 as int] + g.edge_min(
        path[i].0 as int,
        path[i + 1].0 as int,
    ) by {
        let t = l - 2 - i;
        assert(path[i] == rev[t + 1]);
        assert(path[i + 1] == rev[t]);
        assert(par[(rev[t]).0 as int] == Some(rev[t + 1]));
        assert(rev[t].0 != from_id as u32);
        assert(dist[rev[t].0 as int] < u64::MAX);
    }
    assert(g.path_ok(path));
    assert(path[0] == rev[l - 1]);
    assert(path.last() == rev[0]);
    lemma_telescope(g, dist, path);
    if from_id == to_id {
        // a self-query stops at the source immediately
        if l > 1 {
            assert(par[(rev[0]).0 as int] == Some(rev[1]));
        }
        assert(l == 1);
    }
}

/// A path's cost is non-negative.
proof fn lemma_path_cost_nonneg(g: Graph, s: Seq<NodeId>)
    requires
        g.path_ok(s),
    ensures
        g.path_cost(s) >= 0,
    decreases s.len(),
{
    if s.len() > 1 {
        let t = s.subrange(1, s.len() as int);
        assert forall|i: int| 0 <= i < t.len() implies (#[trigger] t[i]).0 < g.node_count() by {
            assert(t[i] == s[i + 1]);
        }
        assert forall|i: int|
            0 <= i < t.len() - 1 implies g.edge_min((#[trigger] t[i]).0 as int, t[i + 1].0 as int)
            >= 0 by {
            assert(t[i] == s[i + 1]);
            assert(t[i + 1] == s[i + 2]);
            assert(g.edge_min((s[i + 1]).0 as int, s[i + 2].0 as int) >= 0);
        }
        lemma_path_cost_nonneg(g, t);
        assert(g.edge_min((s[0]).0 as int, s[1].0 as int) >= 0);
    }
}

/// The crossing bound: when every settled node has relaxed all its
/// edges and every reached unsettled node sits at or above the frontier
/// floor, a path from a settled node to an unsettled one costs at least
/// the floor minus its start's distance.
proof fn lemma_crossing(g: Graph, n: int, dist: Seq<u64>, done: Seq<bool>, cmin: int, s: Seq<NodeId>)
    requires
        g.wf(),
        n == g.node_count(),
        dist.len() == n,
        done.len() == n,
        g.path_ok(s),
        done[s[0].0 as int],
        !done[s.last().0 as int],
        dist[s[0].0 as int] < u64::MAX,
        forall|x: int, y: int|
            0 <= x < n && 0 <= y < n && #[trigger] done[x] && #[trigger] g.edge_min(x, y) >= 0
                ==> dist[y] < u64::MAX && dist[y] <= dist[x] + g.edge_min(x, y),
        forall|y: int|
            0 <= y < n && #[trigger] dist[y] < u64::MAX && !done[y] ==> dist[y] >= cmin,
    ensures
        g.path_cost(s) >= cmin - dist[s[0].0 as int],
    decreases s.len(),
{
    assert(s.len() >= 2);
    let x = s[0].0 as int;
    let y = s[1].0 as int;
    assert(g.edge_min((s[0]).0 as int, s[1].0 as int) >= 0);
    assert(dist[y] < u64::MAX && dist[y] <= dist[x] + g.edge_min(x, y));
    let t = s.subrange(1, s.len() as int);
    assert forall|i: int| 0 <= i < t.len() implies (#[trigger] t[i]).0 < g.node_count() by {
        assert(t[i] == s[i + 1]);
    }
    assert forall|i: int|
        0 <= i < t.len() - 1 implies g.edge_min((#[trigger] t[i]).0 as int, t[i + 1].0 as int)
        >= 0 by {
        assert(t[i] == s[i + 1]);
        assert(t[i + 1] == s[i + 2]);
        assert(g.edge_min((s[i + 1]).0 as int, s[i + 2].0 as int) >= 0);
    }
    assert(t.last() == s.last());
    if done[y] {
        lemma_crossing(g, n, dist, done, cmin, t);
    } else {
        assert(dist[y] >= cmin);
        lemma_path_cost_nonneg(g, t);
    }
}

/// Whether `b` is the edge of `s` at position `i`, carrying its stored
/// latency, with every earlier edge strictly lighter.
pub open spec fn bneck_at(g: Graph, s: Seq<NodeId>, i: int, b: Edge) -> bool {
    &&& 0 <= i < s.len() - 1
    &&& b.from == s[i]
    &&& b.to == s[i + 1]
    &&& b.latency_ms as int == g.edge_first(s[i].0 as int, s[i + 1].0 as int)
    &&& forall|j: int|
        0 <= j < i ==> g.edge_first((#[trigger] s[j]).0 as int, s[j + 1].0 as int) < b.latency_ms as int
}

/// The scan keeps the first maximum: its result is an edge of the path
/// whose earlier edges are strictly lighter and which no edge tops.
#[verifier::rlimit(60)]
proof fn lemma_bneck_from_max(g: Graph, s: Seq<NodeId>, i: int, best: Edge)
    requires
        g.wf(),
        g.path_ok(s),
        1 <= i < s.len(),
        exists|i0: int| 0 <= i0 < i && #[trigger] bneck_at(g, s, i0, best),
        forall|j: int|
            0 <= j < i ==> g.edge_first((#[trigger] s[j]).0 as int, s[j + 1].0 as int)
                <= best.latency_ms as int,
    ensures
        exists|i0: int| #[trigger] bneck_at(g, s, i0, g.bneck_from(s, i, best)),
        forall|j: int|
            0 <= j < s.len() - 1 ==> g.edge_first((#[trigger] s[j]).0 as int, s[j + 1].0 as int)
                <= g.bneck_from(s, i, best).latency_ms as int,
    decreases s.len() - i,
{
    if i + 1 >= s.len() {
        let i0 = choose|i0: int| 0 <= i0 < i && #[trigger] bneck_at(g, s, i0, best);
        assert(bneck_at(g, s, i0, g.bneck_from(s, i, best)));
    } else {
        assert(g.edge_min((s[i]).0 as int, s[i + 1].0 as int) >= 0);
        lemma_weights_exist(g.adjacency()[s[i].0 as int], s[i + 1].0 as int);
        let w = g.edge_first(s[i].0 as int, s[i + 1].0 as int);
        if w > best.latency_ms {
            let b2 = Edge { from: s[i], to: s[i + 1], latency_ms: w as u32 };
            assert(bneck_at(g, s, i, b2));
            lemma_bneck_from_max(g, s, i + 1, b2);
            assert(g.bneck_from(s, i, best) == g.bneck_from(s, i + 1, b2));
            let i0 = choose|i0: int| #[trigger] bneck_at(g, s, i0, g.bneck_from(s, i + 1, b2));
            assert(bneck_at(g, s, i0, g.bneck_from(s, i, best)));
        } else {
            lemma_bneck_from_max(g, s, i + 1, best);
            assert(g.bneck_from(s, i, best) == g.bneck_from(s, i + 1, best));
            let i0 = choose|i0: int| #[trigger] bneck_at(g, s, i0, g.bneck_from(s, i + 1, best));
            assert(bneck_at(g, s, i0, g.bneck_from(s, i, best)));
        }
    }
}

/// The bottleneck of a multi-node path is its first maximal edge: an
/// edge of the path carrying its stored latency, heavier than every
/// earlier edge and at least as heavy as every edge.
pub proof fn lemma_bottleneck_is_max(g: Graph, s: Seq<NodeId>)
    requires
        g.wf(),
        g.path_ok(s),
        s.len() >= 2,
    ensures
        g.bottleneck_spec(s) is Some,
        exists|i: int| #[trigger] bneck_at(g, s, i, g.bottleneck_spec(s)->0),
        forall|j: int|
            0 <= j < s.len() - 1 ==> g.edge_first((#[trigger] s[j]).0 as int, s[j + 1].0 as int)
                <= (g.bottleneck_spec(s)->0).latency_ms as int,
{
    assert(g.edge_min((s[0]).0 as int, s[1].0 as int) >= 0);
    lemma_weights_exist(g.adjacency()[s[0].0 as int], s[1].0 as int);
    let b0 = Edge {
        from: s[0],
        to: s[1],
        latency_ms: g.edge_first(s[0].0 as int, s[1].0 as int) as u32,
    };
    assert(bneck_at(g, s, 0, b0));
    lemma_bneck_from_max(g, s, 1, b0);
    assert(g.bottleneck_spec(s)->0 == g.bneck_from(s, 1, b0));
    let i0 = choose|i0: int| #[trigger] bneck_at(g, s, i0, g.bneck_from(s, 1, b0));
    assert(bneck_at(g, s, i0, g.bottleneck_spec(s)->0));
}

/// In a state whose reached set is closed under out-edges, the end of any
/// path starting at a reached node is reached.
proof fn lemma_closed_reach(g: Graph, dist: Seq<u64>, s: Seq<NodeId>)
    requires
        g.wf(),
        dist.len() == g.node_count(),
        g.path_ok(s),
        dist[s[0].0 as int] < u64::MAX,
        forall|u: int, k: int|
            0 <= u < g.node_count() && dist[u] < u64::MAX && 0 <= k < g.adjacency()[u].len()
                ==> dist[(#[trigger] g.adjacency()[u][k]).0.0 as int] < u64::MAX,
    ensures
        dist[s.last().0 as int] < u64::MAX,
    decreases s.len(),
{
    if s.len() > 1 {
        let u = s[0].0 as int;
        let v = s[1].0 as int;
        assert(g.edge_min((s[0]).0 as int, s[1].0 as int) >= 0);
        lemma_min_entry_exists(g.adjacency()[u], v);
        let k = choose|k: int| 0 <= k < g.adjacency()[u].len() && (#[trigger] g.adjacency()[u][k]).0.0
            == v;
        assert(dist[v] < u64::MAX);
        let t = s.subrange(1, s.len() as int);
        assert forall|i: int| 0 <= i < t.len() implies (#[trigger] t[i]).0 < g.node_count() by {
            assert(t[i] == s[i + 1]);
        }
        assert forall|i: int|
            0 <= i < t.len() - 1 implies g.edge_min((#[trigger] t[i]).0 as int, t[i + 1].0 as int)
            >= 0 by {
            assert(t[i] == s[i + 1]);
            assert(t[i + 1] == s[i + 2]);
            assert(g.edge_min((s[i + 1]).0 as int, s[i + 2].0 as int) >= 0);
        }
        lemma_closed_reach(g, dist, t);
        assert(t.last() == s.last());
    }
}

/// Whether the graph stores at most one edge between any ordered pair of
/// nodes.
pub open spec fn no_parallel_edges(g: Graph) -> bool {
    forall|u: int, k1: int, k2: int|
        0 <= u < g.node_count() && 0 <= k1 < g.adjacency()[u].len() && 0 <= k2
            < g.adjacency()[u].len() && (#[trigger] g.adjacency()[u][k1]).0 == (
        #[trigger] g.adjacency()[u][k2]).0 ==> k1 == k2
}

/// With no matching entry the least latency is undefined.
proof fn lemma_no_match_min(l: Seq<(NodeId, u32)>, v: int)
    requires
        forall|k: int| 0 <= k < l.len() ==> (#[trigger] l[k]).0.0 != v,
    ensures
        list_min_weight(l, v) == -1,
{
    lemma_weights_exist(l, v);
    if list_min_weight(l, v) >= 0 {
        lemma_min_entry_exists(l, v);
        let k = choose|k: int| 0 <= k < l.len() && (#[trigger] l[k]).0.0 == v;
        assert(false);
    }
}

/// In a list whose targets are distinct, the least and the first latency
/// toward any node coincide.
proof fn lemma_min_is_first(l: Seq<(NodeId, u32)>, v: int)
    requires
        forall|k1: int, k2: int|
            0 <= k1 < l.len() && 0 <= k2 < l.len() && (#[trigger] l[k1]).0 == (#[trigger] l[k2]).0
                ==> k1 == k2,
    ensures
        list_min_weight(l, v) == list_first_weight(l, v),
    decreases l.len(),
{
    if l.len() > 0 {
        let tail = l.subrange(1, l.len() as int);
        assert forall|k1: int, k2: int|
            0 <= k1 < tail.len() && 0 <= k2 < tail.len() && (#[trigger] tail[k1]).0 == (
        #[trigger] tail[k2]).0 implies k1 == k2 by {
            assert(tail[k1] == l[k1 + 1] && tail[k2] == l[k2 + 1]);
        }
        if l[0].0.0 == v {
            assert forall|k: int| 0 <= k < tail.len() implies (#[trigger] tail[k]).0.0 != v by {
                assert(tail[k] == l[k + 1]);
                if l[k + 1].0.0 == v {
                    assert(l[0].0 == l[k + 1].0);
                }
            }
            lemma_no_match_min(tail, v);
        } else {
            lemma_min_is_first(tail, v);
        }
    }
}

/// On a graph without parallel edges, the least latency toward a node is
/// the latency of the unique stored edge, so the cost of any path — in
/// particular, the cost a shortest-path query reports — is the sum of
/// the stored weights of the edges along it.
pub proof fn lemma_unique_edge_weight(g: Graph, u: int, v: int)
    requires
        g.wf(),
        no_parallel_edges(g),
        0 <= u < g.node_count(),
    ensures
        g.edge_min(u, v) == g.edge_first(u, v),
{
    lemma_min_is_first(g.adjacency()[u], v);
}

impl Graph {
    /// The least latency of an edge `u -> v`; `-1` when there is none.
    pub open spec fn edge_min(self, u: int, v: int) -> int {
        list_min_weight(self.adjacency()[u], v)
    }

    /// The latency of the first stored edge `u -> v`; `-1` when there is
    /// none.
    pub open spec fn edge_first(self, u: int, v: int) -> int {
        list_first_weight(self.adjacency()[u], v)
    }

    /// A non-empty sequence of in-range nodes with an edge between each
    /// consecutive pair.
    pub open spec fn path_ok(self, s: Seq<NodeId>) -> bool {
        &&& s.len() >= 1
        &&& forall|i: int| 0 <= i < s.len() ==> (#[trigger] s[i]).0 < self.node_count()
        &&& forall|i: int|
            0 <= i < s.len() - 1 ==> self.edge_min((#[trigger] s[i]).0 as int, s[i + 1].0 as int)
                >= 0
    }

    /// The total latency along a path: the sum, over consecutive pairs, of
    /// the least latency of an edge joining the pair. On graphs without
    /// parallel edges this is the sum of the edge weights.
    pub open spec fn path_cost(self, s: Seq<NodeId>) -> int
        decreases s.len(),
    {
        if s.len() <= 1 {
            0
        } else {
            self.edge_min(s[0].0 as int, s[1].0 as int) + self.path_cost(
                s.subrange(1, s.len() as int),
            )
        }
    }

    /// Whether some directed path joins node `a` to node `b`.
    pub open spec fn reachable(self, a: int, b: int) -> bool {
        exists|s: Seq<NodeId>| #[trigger] self.path_ok(s) && s[0].0 == a && s.last().0 == b
    }

    /// The first maximum among the first-edge latencies along `s`, scanned
    /// from position `i` with running best `best`.
    pub open spec fn bneck_from(self, s: Seq<NodeId>, i: int, best: Edge) -> Edge
        decreases s.len() - i,
        when i >= 0
    {
        if i + 1 >= s.len() {
            best
        } else {
            let w = self.edge_first(s[i].0 as int, s[i + 1].0 as int);
            if w > best.latency_ms {
                self.bneck_from(s, i + 1, Edge { from: s[i], to: s[i + 1], latency_ms: w as u32 })
            } else {
                self.bneck_from(s, i + 1, best)
            }
        }
    }

    /// The bottleneck of a path: the first edge, walking source to
    /// destination, whose latency is the strict maximum so far; absent
    /// exactly when the path has fewer than two nodes. Of parallel edges
    /// the first stored one is considered.
    pub open spec fn bottleneck_spec(self, s: Seq<NodeId>) -> Option<Edge> {
        if s.len() < 2 {
            None
        } else {
            Some(
                self.bneck_from(
                    s,
                    1,
                    Edge {
                        from: s[0],
                        to: s[1],
                        latency_ms: self.edge_first(s[0].0 as int, s[1].0 as int) as u32,
                    },
                ),
            )
        }
    }

    /// The weight of the first stored edge `u -> v`.
    fn first_edge_weight(&self, u: usize, v: u32) -> (w: u32)
        requires
            self.wf(),
            u < self.node_count(),
            self.edge_first(u as int, v as int) >= 0,
        ensures
            w as int == self.edge_first(u as int, v as int),
    {
        let ghost full = self.adjacency()[u as int];
        proof {
            lemma_graph_views(*self);
            assert(self.adj@.len() == self.node_count());
            assert(full.subrange(0, full.len() as int) =~= full);
        }
        let deg = self.adj[u].len();
        let mut k: usize = 0;
        while k < deg
            invariant
                k <= deg,
                deg == full.len(),
                full == self.adjacency()[u as int],
                u < self.node_count(),
                u < self.adj@.len(),
                self.wf(),
                self.adj@[u as int]@ == full,
                self.edge_first(u as int, v as int) == list_first_weight(
                    full.subrange(k as int, full.len() as int),
                    v as int,
                ),
                self.edge_first(u as int, v as int) >= 0,
            decreases deg - k,
        {
            let pair = self.adj[u][k];
            proof {
                assert(full.subrange(k as int, full.len() as int)[0] == full[k as int]);
                assert(full.subrange(k as int, full.len() as int).subrange(
                    1,
                    full.len() - k,
                ) =~= full.subrange(k + 1, full.len() as int));
            }
            if pair.0.0 == v {
                return pair.1;
            }
            k += 1;
        }
        proof {
            assert(full.subrange(deg as int, full.len() as int).len() == 0);
            assert(false);
        }
        0
    }

    /// Identifies the bottleneck edge on `path`: the first edge, walking
    /// source to destination, whose latency is the strict maximum; `None`
    /// exactly when the path has fewer than two nodes.
    fn bottleneck(&self, path: &Vec<NodeId>) -> (r: Option<Edge>)
        requires
            self.wf(),
            self.path_ok(path@),
        ensures
            r == self.bottleneck_spec(path@),
    {
        if path.len() < 2 {
            return None;
        }
        proof {
            lemma_graph_views(*self);
            assert(self.edge_min(path@[0].0 as int, path@[1].0 as int) >= 0);
            lemma_weights_exist(self.adjacency()[path@[0].0 as int], path@[1].0 as int);
        }
        let w0 = self.first_edge_weight(path[0].0 as usize, path[1].0);
        let mut best = Edge { from: path[0], to: path[1], latency_ms: w0 };
        let mut i: usize = 1;
        while i < path.len() - 1
            invariant
                self.wf(),
                self.path_ok(path@),
                path@.len() >= 2,
                1 <= i <= path@.len() - 1,
                self.bottleneck_spec(path@) == Some(self.bneck_from(path@, i as int, best)),
            decreases path@.len() - i,
        {
            proof {
                assert(self.edge_min(path@[i as int].0 as int, path@[i + 1].0 as int) >= 0);
                lemma_weights_exist(self.adjacency()[path@[i as int].0 as int], path@[i + 1].0 as int);
            }
            let w = self.first_edge_weight(path[i].0 as usize, path[i + 1].0);
            if w > best.latency_ms {
                best = Edge { from: path[i], to: path[i + 1], latency_ms: w };
            }
            i += 1;
        }
        Some(best)
    }

    /// Reconstructs the settled path to `to_id` by walking the recorded
    /// parent chain backward from it, then derives its cost and
    /// bottleneck.
    #[verifier::rlimit(100)]
    fn build_path(
        &self,
        from_id: usize,
        to_id: usize,
        dist: &Vec<u64>,
        par: &Vec<Option<NodeId>>,
        done: &Vec<bool>,
        Ghost(order): Ghost<Seq<int>>,
    ) -> (p: Path)
        requires
            self.wf(),
            dist@.len() == self.node_count(),
            par@.len() == self.node_count(),
            done@.len() == self.node_count(),
            from_id < self.node_count(),
            to_id < self.node_count(),
            dist@[from_id as int] == 0,
            par@[from_id as int] is None,
            dist@[to_id as int] < u64::MAX,
            forall|v: int|
                0 <= v < self.node_count() && #[trigger] done@[v] ==> dist@[v] < u64::MAX,
            forall|v: int|
                0 <= v < self.node_count() && #[trigger] dist@[v] < u64::MAX && v != from_id ==> (
                par@[v] matches Some(w) && w.0 < self.node_count() && done@[w.0 as int]
                    && self.edge_min(w.0 as int, v) >= 0 && dist@[v] == dist@[w.0 as int]
                    + self.edge_min(w.0 as int, v)),
            order.no_duplicates(),
            forall|k: int| 0 <= k < order.len() ==> 0 <= #[trigger] order[k] < self.node_count(),
            forall|v: int|
                0 <= v < self.node_count() ==> (#[trigger] done@[v] <==> order.contains(v)),
            forall|v: int|
                0 <= v < self.node_count() && #[trigger] done@[v] && v != from_id ==> (par@[v]
                    matches Some(w) && (exists|a: int, b: int|
                0 <= a < b < order.len() && #[trigger] order[a] == w.0 as int && #[trigger] order[b]
                    == v)),
        ensures
            p.from == NodeId(from_id as u32),
            p.to == NodeId(to_id as u32),
            self.path_ok(p.path@),
            p.path@[0].0 == from_id,
            p.path@.last().0 == to_id,
            p.cost == self.path_cost(p.path@),
            p.cost == dist@[to_id as int],
            p.bottleneck == self.bottleneck_spec(p.path@),
            from_id == to_id ==> p.path@.len() == 1 && p.cost == 0 && p.bottleneck is None,
    {
        let ghost n = self.node_count();
        // the target is reached: walk the parent chain backward
        let mut rev: Vec<NodeId> = Vec::new();
        let mut cur: usize = to_id;
        let mut cont: bool = true;
        while cont
            invariant
                self.wf(),
                n == self.node_count(),
                dist@.len() == n,
                par@.len() == n,
                done@.len() == n,
                from_id < n,
                to_id < n,
                dist@[from_id as int] == 0,
                par@[from_id as int] is None,
                forall|v: int| 0 <= v < n && #[trigger] done@[v] ==> dist@[v] < u64::MAX,
                forall|v: int|
                    0 <= v < n && #[trigger] dist@[v] < u64::MAX && v != from_id ==> (
                    par@[v] matches Some(u2) && u2.0 < n && done@[u2.0 as int]
                        && self.edge_min(u2.0 as int, v) >= 0 && dist@[v] == dist@[
                        u2.0 as int] + self.edge_min(u2.0 as int, v)),
                order.no_duplicates(),
                forall|kk: int| 0 <= kk < order.len() ==> 0 <= #[trigger] order[kk] < n,
                forall|v: int|
                    0 <= v < n ==> (#[trigger] done@[v] <==> order.contains(v)),
                forall|v: int|
                    0 <= v < n && #[trigger] done@[v] && v != from_id ==> (par@[v]
                        matches Some(u2) && (exists|a: int, b: int|
                    0 <= a < b < order.len() && #[trigger] order[a] == u2.0 as int
                        && #[trigger] order[b] == v)),
                cur < n,
                dist@[cur as int] < u64::MAX,
                rev@.len() == 0 ==> cont && cur == to_id,
                rev@.len() > 0 ==> rev@[0].0 == to_id,
                forall|t: int|
                    0 <= t < rev@.len() ==> (#[trigger] rev@[t]).0 < n && dist@[rev@[t].0 as int]
                        < u64::MAX,
                forall|t: int|
                    0 <= t < rev@.len() - 1 ==> par@[(#[trigger] rev@[t]).0 as int] == Some(
                        rev@[t + 1],
                    ),
                cont && rev@.len() > 0 ==> par@[rev@.last().0 as int] == Some(
                    NodeId(cur as u32),
                ) && done@[cur as int],
                !cont ==> rev@.len() > 0 && rev@.last().0 == from_id && rev@.last().0
                    == cur as u32,
            decreases (if cont {
                1int
            } else {
                0int
            }), (if done@[cur as int] {
                1 + first_pos(order, cur as int, 0)
            } else {
                order.len() as int + 2
            }),
        {
            rev.push(NodeId(cur as u32));
            let pc = par[cur];
            match pc {
                Some(p) => {
                    proof {
                        // a reached node with a parent is not the
                        // source; its parent is settled earlier
                        assert(cur != from_id);
                        assert(p.0 < n && done@[p.0 as int]);
                        if done@[cur as int] {
                            let (a, b) = choose|a: int, b: int|
                                0 <= a < b < order.len() && #[trigger] order[a]
                                    == p.0 as int && #[trigger] order[b] == cur as int;
                            lemma_first_pos_at(order, p.0 as int, 0, a);
                            lemma_first_pos_at(order, cur as int, 0, b);
                        } else {
                            let a = choose|a: int|
                                0 <= a < order.len() && #[trigger] order[a] == p.0 as int;
                            lemma_first_pos_at(order, p.0 as int, 0, a);
                        }
                    }
                    cur = p.0 as usize;
                },
                None => {
                    proof {
                        assert(cur == from_id);
                    }
                    cont = false;
                },
            }
        }
        // forward orientation
        let mut path_v: Vec<NodeId> = Vec::new();
        let mut q: usize = rev.len();
        while q > 0
            invariant
                q <= rev@.len(),
                path_v@.len() == rev@.len() - q,
                forall|t: int|
                    0 <= t < path_v@.len() ==> #[trigger] path_v@[t] == rev@[rev@.len() - 1
                        - t],
            decreases q,
        {
            q -= 1;
            path_v.push(rev[q]);
        }
        proof {
            lemma_chain_to_path(
                *self,
                dist@,
                par@,
                rev@,
                path_v@,
                n,
                from_id as int,
                to_id as int,
            );
        }
        let cost = dist[to_id];
        let bn = self.bottleneck(&path_v);
        Path {
            from: NodeId(from_id as u32),
            to: NodeId(to_id as u32),
            path: path_v,
            cost,
            bottleneck: bn,
        }
    }

    /// Settles a freshly dequeued node and relaxes its outgoing edges,
    /// maintaining the solver's working invariants and growing the
    /// settlement order by exactly this node.
    #[verifier::rlimit(100)]
    fn settle_and_relax(
        &self,
        from_id: usize,
        to_id: usize,
        u: usize,
        dist: &mut Vec<u64>,
        par: &mut Vec<Option<NodeId>>,
        done: &mut Vec<bool>,
        frontier: &mut Vec<(u64, u32)>,
        Ghost(order_in): Ghost<Seq<int>>,
    ) -> (order_out: Ghost<Seq<int>>)
        requires
            self.wf(),
            from_id < self.node_count(),
            to_id < self.node_count(),
            u < self.node_count(),
            u != to_id,
            old(dist)@.len() == self.node_count(),
            old(par)@.len() == self.node_count(),
            old(done)@.len() == self.node_count(),
            old(dist)@[from_id as int] == 0,
            old(par)@[from_id as int] is None,
            old(done)@[to_id as int] == false,
            !old(done)@[u as int],
            old(dist)@[u as int] < u64::MAX,
            forall|v: int|
                0 <= v < self.node_count() && #[trigger] old(done)@[v] ==> old(dist)@[v]
                    < u64::MAX,
            forall|v: int|
                0 <= v < self.node_count() && #[trigger] old(dist)@[v] == u64::MAX ==> old(par)@[v] is None && !old(done)@[v],
            forall|v: int|
                0 <= v < self.node_count() && #[trigger] old(dist)@[v] < u64::MAX && v != from_id
                    ==> (old(par)@[v] matches Some(w) && w.0 < self.node_count() && old(done)@[
                w.0 as int] && self.edge_min(w.0 as int, v) >= 0 && old(dist)@[v] == old(dist)@[
                w.0 as int] + self.edge_min(w.0 as int, v)),
            order_in.no_duplicates(),
            forall|k: int| 0 <= k < order_in.len() ==> 0 <= #[trigger] order_in[k]
                < self.node_count(),
            order_in.len() <= self.node_count(),
            forall|v: int|
                0 <= v < self.node_count() ==> (#[trigger] old(done)@[v] <==> order_in.contains(
                    v,
                )),
            forall|v: int|
                0 <= v < self.node_count() && #[trigger] old(done)@[v] && v != from_id ==> (old(par)@[v] matches Some(w) && (exists|a: int, b: int|
                    0 <= a < b < order_in.len() && #[trigger] order_in[a] == w.0 as int
                        && #[trigger] order_in[b] == v)),
            forall|v: int|
                0 <= v < self.node_count() && #[trigger] old(dist)@[v] < u64::MAX ==> old(dist)@[v] <= order_in.len() * (u32::MAX as int),
            order_in.len() * (u32::MAX as int) <= (u32::MAX as int) * (u32::MAX as int),
            (u32::MAX as int) * (u32::MAX as int) < u64::MAX as int,
            forall|k: int|
                0 <= k < old(frontier)@.len() ==> (((#[trigger] old(frontier)@[k]).1 as int)
                    < self.node_count() && old(dist)@[old(frontier)@[k].1 as int] < u64::MAX && old(frontier)@[k].0 >= old(dist)@[old(frontier)@[k].1 as int]),
            forall|v: int|
                0 <= v < self.node_count() && old(dist)@[v] < u64::MAX && !(#[trigger] old(done)@[v]) && v != u ==> old(frontier)@.contains((old(dist)@[v], v as u32)),
            forall|u0: int, k: int|
                0 <= u0 < self.node_count() && #[trigger] old(done)@[u0] && 0 <= k
                    < self.adjacency()[u0].len() ==> old(dist)@[(
                #[trigger] self.adjacency()[u0][k]).0.0 as int] < u64::MAX,
            forall|x: int, y: int|
                0 <= x < self.node_count() && 0 <= y < self.node_count() && #[trigger] old(done)@[x] && #[trigger] old(dist)@[y] < u64::MAX && !old(done)@[y] ==> old(dist)@[x]
                    <= old(dist)@[y],
            forall|x: int, y: int|
                0 <= x < self.node_count() && 0 <= y < self.node_count() && #[trigger] old(done)@[x] && #[trigger] self.edge_min(x, y) >= 0 ==> old(dist)@[y] < u64::MAX && old(dist)@[y] <= old(dist)@[x] + self.edge_min(x, y),
            forall|y: int|
                0 <= y < self.node_count() && #[trigger] old(dist)@[y] < u64::MAX && !old(done)@[y]
                    ==> old(dist)@[y] >= old(dist)@[u as int],
            order_in.len() == 0 ==> u == from_id,
        ensures
            final(dist)@.len() == self.node_count(),
            final(par)@.len() == self.node_count(),
            final(done)@.len() == self.node_count(),
            final(dist)@[from_id as int] == 0,
            final(par)@[from_id as int] is None,
            final(done)@[to_id as int] == false,
            forall|v: int|
                0 <= v < self.node_count() && #[trigger] final(done)@[v] ==> final(dist)@[v]
                    < u64::MAX,
            forall|v: int|
                0 <= v < self.node_count() && #[trigger] final(dist)@[v] == u64::MAX ==> final(par)@[v] is None && !final(done)@[v],
            forall|v: int|
                0 <= v < self.node_count() && #[trigger] final(dist)@[v] < u64::MAX && v != from_id
                    ==> (final(par)@[v] matches Some(w) && w.0 < self.node_count() && final(done)@[
                w.0 as int] && self.edge_min(w.0 as int, v) >= 0 && final(dist)@[v] == final(dist)@[w.0 as int] + self.edge_min(w.0 as int, v)),
            order_out@.no_duplicates(),
            forall|k: int| 0 <= k < order_out@.len() ==> 0 <= #[trigger] order_out@[k]
                < self.node_count(),
            order_out@.len() <= self.node_count(),
            order_out@.len() == order_in.len() + 1,
            forall|v: int|
                0 <= v < self.node_count() ==> (#[trigger] final(done)@[v]
                    <==> order_out@.contains(v)),
            forall|v: int|
                0 <= v < self.node_count() && #[trigger] final(done)@[v] && v != from_id ==> (
                final(par)@[v] matches Some(w) && (exists|a: int, b: int|
                    0 <= a < b < order_out@.len() && #[trigger] order_out@[a] == w.0 as int
                        && #[trigger] order_out@[b] == v)),
            forall|v: int|
                0 <= v < self.node_count() && #[trigger] final(dist)@[v] < u64::MAX ==> final(dist)@[v] <= order_out@.len() * (u32::MAX as int),
            order_out@.len() * (u32::MAX as int) <= (u32::MAX as int) * (u32::MAX as int),
            forall|k: int|
                0 <= k < final(frontier)@.len() ==> (((#[trigger] final(frontier)@[k]).1 as int)
                    < self.node_count() && final(dist)@[final(frontier)@[k].1 as int] < u64::MAX
                    && final(frontier)@[k].0 >= final(dist)@[final(frontier)@[k].1 as int]),
            forall|v: int|
                0 <= v < self.node_count() && final(dist)@[v] < u64::MAX && !(#[trigger] final(done)@[v]) ==> final(frontier)@.contains((final(dist)@[v], v as u32)),
            forall|u0: int, k: int|
                0 <= u0 < self.node_count() && #[trigger] final(done)@[u0] && 0 <= k
                    < self.adjacency()[u0].len() ==> final(dist)@[(
                #[trigger] self.adjacency()[u0][k]).0.0 as int] < u64::MAX,
            forall|x: int, y: int|
                0 <= x < self.node_count() && 0 <= y < self.node_count() && #[trigger] final(done)@[x]
                    && #[trigger] final(dist)@[y] < u64::MAX && !final(done)@[y] ==> final(dist)@[x]
                    <= final(dist)@[y],
            forall|x: int, y: int|
                0 <= x < self.node_count() && 0 <= y < self.node_count() && #[trigger] final(done)@[x]
                    && #[trigger] self.edge_min(x, y) >= 0 ==> final(dist)@[y] < u64::MAX && final(dist)@[y]
                    <= final(dist)@[x] + self.edge_min(x, y),
            order_in.len() == 0 ==> order_out@[0] == u as int,
            order_in.len() >= 1 ==> order_out@[0] == order_in[0],
    {
        proof {
            lemma_graph_views(*self);
        }
        let ghost maxw = u32::MAX as int;
        let n = self.to_name.len();
        proof {
            assert(n == self.node_count());
        }
        // settle u and relax its outgoing edges
        let du = dist[u];
        let ghost mut order = order_in;
        let ghost pre_order = order;
        let ghost done0 = done@;
        done.set(u, true);
        proof {
            order = order.push(u as int);
            lemma_settle_entry(
                *self,
                n as int,
                from_id as int,
                u as int,
                du,
                done0,
                done@,
                dist@,
                par@,
                frontier@,
                pre_order,
                order,
            );
            lemma_order_bound(order, n as int);
            vstd::arithmetic::mul::lemma_mul_inequality(order.len() as int, maxw, maxw);
            vstd::arithmetic::mul::lemma_mul_inequality(
                pre_order.len() as int,
                order.len() as int,
                maxw,
            );
        }
        let deg = self.adj[u].len();
        let mut k: usize = 0;
        while k < deg
            invariant
                self.wf(),
                n == self.node_count(),
                from_id < n,
                to_id < n,
                maxw == u32::MAX as int,
                maxw * maxw < u64::MAX as int,
                k <= deg,
                deg == self.adjacency()[u as int].len(),
                u < n,
                u != to_id,
                dist@.len() == n,
                par@.len() == n,
                done@.len() == n,
                done@[u as int],
                dist@[u as int] == du,
                du <= (order.len() - 1) * maxw,
                forall|x: int| 0 <= x < n && #[trigger] done@[x] ==> dist@[x] <= du,
                forall|y: int|
                    0 <= y < n && #[trigger] dist@[y] < u64::MAX && !done@[y] ==> dist@[y]
                        >= du,
                forall|x: int, y: int|
                    0 <= x < n && 0 <= y < n && #[trigger] done@[x] && x != u as int
                        && #[trigger] self.edge_min(x, y) >= 0 ==> dist@[y] < u64::MAX
                        && dist@[y] <= dist@[x] + self.edge_min(x, y),
                dist@[from_id as int] == 0,
                par@[from_id as int] is None,
                done@[to_id as int] == false,
                forall|v: int| 0 <= v < n && #[trigger] done@[v] ==> dist@[v] < u64::MAX,
                forall|v: int|
                    0 <= v < n && #[trigger] dist@[v] == u64::MAX ==> par@[v] is None
                        && !done@[v],
                scan_acct(
                    *self,
                    n as int,
                    from_id as int,
                    u as int,
                    du,
                    k as int,
                    done@,
                    dist@,
                    par@,
                ),
                scan_ceiling(*self, n as int, u as int, du, k as int, done@, dist@),
                order.no_duplicates(),
                forall|kk: int| 0 <= kk < order.len() ==> 0 <= #[trigger] order[kk] < n,
                order.len() <= n,
                order.len() >= 1,
                order[order.len() - 1] == u as int,
                forall|v: int| 0 <= v < n ==> (#[trigger] done@[v] <==> order.contains(v)),
                forall|v: int|
                    0 <= v < n && #[trigger] done@[v] && v != from_id ==> (par@[v]
                        matches Some(w) && (exists|a: int, b: int|
                    0 <= a < b < order.len() && #[trigger] order[a] == w.0 as int
                        && #[trigger] order[b] == v)),
                forall|v: int|
                    0 <= v < n && #[trigger] dist@[v] < u64::MAX ==> dist@[v]
                        <= order.len() * maxw,
                order.len() * maxw <= maxw * maxw,
                forall|kk: int|
                    0 <= kk < frontier@.len() ==> (((#[trigger] frontier@[kk]).1 as int) < n
                        && dist@[frontier@[kk].1 as int] < u64::MAX && frontier@[kk].0
                        >= dist@[frontier@[kk].1 as int]),
                forall|v: int|
                    0 <= v < n && dist@[v] < u64::MAX && !(#[trigger] done@[v])
                        ==> frontier@.contains((dist@[v], v as u32)),
                forall|kk: int|
                    0 <= kk < k ==> dist@[(#[trigger] self.adjacency()[u as int][kk]).0.0 as int]
                        < u64::MAX,
                forall|u0: int, kk: int|
                    0 <= u0 < n && #[trigger] done@[u0] && u0 != u as int && 0 <= kk
                        < self.adjacency()[u0].len() ==> dist@[(
                    #[trigger] self.adjacency()[u0][kk]).0.0 as int] < u64::MAX,
            decreases deg - k,
        {
            proof {
                lemma_graph_views(*self);
                assert(self.adj@.len() == n);
                assert(self.adj@[u as int]@ == self.adjacency()[u as int]);
            }
            let pair = self.adj[u][k];
            let vnode = pair.0;
            let w = pair.1;
            let v = vnode.0 as usize;
            let ghost d0 = dist@;
            let ghost p0 = par@;
            proof {
                assert(self.adjacency()[u as int][k as int] == pair);
                assert(v < n && v != u);
            }
            if !done[v] {
                proof {
                    assert(du + w <= (order.len() - 1) * maxw + maxw);
                    assert((order.len() - 1) * maxw + maxw == order.len() * maxw)
                        by (nonlinear_arith);
                }
                let nc = du + (w as u64);
                if nc < dist[v] {
                    dist.set(v, nc);
                    par.set(v, Some(NodeId(u as u32)));
                    let ghost pre_f = frontier@;
                    frontier.push((nc, vnode.0));
                    proof {
                        assert(v != from_id);
                        lemma_scan_step(
                            *self,
                            n as int,
                            from_id as int,
                            u as int,
                            du,
                            k as int,
                            order,
                            done@,
                            d0,
                            p0,
                            dist@,
                            par@,
                        );
                        lemma_push_witness(
                            n as int,
                            v as int,
                            done@,
                            d0,
                            dist@,
                            pre_f,
                            frontier@,
                        );
                        assert forall|v2: int|
                            0 <= v2 < n && #[trigger] dist@[v2] < u64::MAX implies dist@[v2]
                            <= order.len() * maxw by {
                            if v2 != v as int {
                                assert(dist@[v2] == d0[v2]);
                            }
                        }
                        assert forall|kk: int|
                            0 <= kk < frontier@.len() implies (((
                        #[trigger] frontier@[kk]).1 as int) < n && dist@[frontier@[kk].1 as int]
                            < u64::MAX && frontier@[kk].0 >= dist@[frontier@[kk].1 as int]) by {
                            if kk < pre_f.len() {
                                assert(frontier@[kk] == pre_f[kk]);
                                if frontier@[kk].1 as int != v as int {
                                    assert(dist@[frontier@[kk].1 as int] == d0[frontier@[kk].1 as int]);
                                }
                            } else {
                                assert(frontier@[kk] == (nc, vnode.0));
                            }
                        }
                        assert forall|kk: int|
                            0 <= kk < k + 1 implies dist@[(
                        #[trigger] self.adjacency()[u as int][kk]).0.0 as int] < u64::MAX by {
                            let x = (self.adjacency()[u as int][kk]).0.0 as int;
                            if x != v as int {
                                assert(dist@[x] == d0[x]);
                            }
                        }
                        assert forall|u0: int, kk: int|
                            0 <= u0 < n && #[trigger] done@[u0] && u0 != u as int && 0 <= kk
                                < self.adjacency()[u0].len() implies dist@[(
                        #[trigger] self.adjacency()[u0][kk]).0.0 as int] < u64::MAX by {
                            let x = (self.adjacency()[u0][kk]).0.0 as int;
                            if x != v as int {
                                assert(dist@[x] == d0[x]);
                            }
                        }
                        assert forall|v2: int|
                            0 <= v2 < n && #[trigger] dist@[v2] == u64::MAX implies par@[v2] is None
                            && !done@[v2] by {
                            assert(v2 != v as int);
                            assert(dist@[v2] == d0[v2] && par@[v2] == p0[v2]);
                        }
                        assert forall|v2: int|
                            0 <= v2 < n && #[trigger] done@[v2] implies dist@[v2] < u64::MAX by {
                            if v2 != v as int {
                                assert(dist@[v2] == d0[v2]);
                            }
                        }
                        assert forall|x: int|
                            0 <= x < n && #[trigger] done@[x] implies dist@[x] <= du by {
                            assert(dist@[x] == d0[x]);
                        }
                        assert forall|y: int|
                            0 <= y < n && #[trigger] dist@[y] < u64::MAX && !done@[y]
                                implies dist@[y] >= du by {
                            if y != v as int {
                                assert(dist@[y] == d0[y]);
                            }
                        }
                        assert forall|x: int, y: int|
                            0 <= x < n && 0 <= y < n && #[trigger] done@[x] && x
                                != u as int && #[trigger] self.edge_min(x, y) >= 0
                                implies dist@[y] < u64::MAX && dist@[y] <= dist@[x]
                                + self.edge_min(x, y) by {
                            assert(dist@[x] == d0[x]);
                            if y != v as int {
                                assert(dist@[y] == d0[y]);
                            } else {
                                assert(dist@[y] <= d0[y]);
                            }
                        }
                    }
                } else {
                    proof {
                        lemma_scan_step(
                            *self,
                            n as int,
                            from_id as int,
                            u as int,
                            du,
                            k as int,
                            order,
                            done@,
                            d0,
                            p0,
                            dist@,
                            par@,
                        );
                    }
                }
            } else {
                proof {
                    lemma_scan_step(
                        *self,
                        n as int,
                        from_id as int,
                        u as int,
                        du,
                        k as int,
                        order,
                        done@,
                        d0,
                        p0,
                        dist@,
                        par@,
                    );
                }
            }
            k += 1;
        }
        proof {
            lemma_scan_wrapup(
                *self,
                n as int,
                from_id as int,
                u as int,
                du,
                done@,
                dist@,
                par@,
            );
        }
        Ghost(order)
    }

    /// Finds the minimum-total-latency path between two named nodes with
    /// Dijkstra's algorithm.
    ///
    /// Exactly one of the outcomes holds: a missing source or destination
    /// name is reported (source checked first); two existing but
    /// disconnected nodes are a `PathNotFound`; otherwise the query
    /// succeeds, and the returned path runs from source to destination
    /// through existing edges, its cost is the sum of the edge latencies
    /// along it, no other path from source to destination costs less,
    /// and its bottleneck is the first maximal edge. A query
    /// from a node to itself yields the single-node path of cost zero and
    /// no bottleneck.
    #[verifier::rlimit(100)]
    pub fn shortest_path(&self, from: &str, to: &str) -> (r: Result<Path, PathError>)
        requires
            self.wf(),
        ensures
            !self.has_node(from@) ==> (match r {
                Err(PathError::NodeNotFound(s)) => s@ == from@,
                _ => false,
            }),
            self.has_node(from@) && !self.has_node(to@) ==> (match r {
                Err(PathError::NodeNotFound(s)) => s@ == to@,
                _ => false,
            }),
            self.has_node(from@) && self.has_node(to@) && !self.reachable(
                self.id_of(from@),
                self.id_of(to@),
            ) ==> (match r {
                Err(PathError::PathNotFound { from: f, to: t }) => f@ == from@ && t@ == to@,
                _ => false,
            }),
            self.has_node(from@) && self.has_node(to@) && self.reachable(
                self.id_of(from@),
                self.id_of(to@),
            ) ==> (match r {
                Ok(p) => {
                    &&& p.from.0 == self.id_of(from@)
                    &&& p.to.0 == self.id_of(to@)
                    &&& self.path_ok(p.path@)
                    &&& p.path@[0].0 == self.id_of(from@)
                    &&& p.path@.last().0 == self.id_of(to@)
                    &&& p.cost == self.path_cost(p.path@)
                    &&& p.bottleneck == self.bottleneck_spec(p.path@)
                    &&& forall|s: Seq<NodeId>|
                        #[trigger] self.path_ok(s) && s[0].0 == self.id_of(from@) && s.last().0
                            == self.id_of(to@) ==> self.path_cost(s) >= p.cost
                },
                _ => false,
            }),
            self.has_node(from@) && from@ == to@ ==> (match r {
                Ok(p) => p.path@.len() == 1 && p.cost == 0 && p.bottleneck is None,
                _ => false,
            }),
    {
        proof {
            lemma_graph_views(*self);
        }
        let from_id = match find_in(&self.to_name, from) {
            Some(i) => i,
            None => {
                return Err(PathError::NodeNotFound(from.to_owned()));
            },
        };
        let to_id = match find_in(&self.to_name, to) {
            Some(i) => i,
            None => {
                return Err(PathError::NodeNotFound(to.to_owned()));
            },
        };
        let n = self.to_name.len();
        let ghost maxw = u32::MAX as int;
        proof {
            assert(n == self.node_count());
            assert(0 <= maxw * maxw) by (nonlinear_arith);
            assert(maxw * maxw < u64::MAX as int) by (nonlinear_arith)
                requires
                    maxw == u32::MAX as int,
            ;
        }
        let mut dist: Vec<u64> = Vec::new();
        let mut par: Vec<Option<NodeId>> = Vec::new();
        let mut done: Vec<bool> = Vec::new();
        let mut ii: usize = 0;
        while ii < n
            invariant
                ii <= n,
                dist@.len() == ii,
                par@.len() == ii,
                done@.len() == ii,
                forall|t: int| 0 <= t < ii ==> #[trigger] dist@[t] == u64::MAX,
                forall|t: int| 0 <= t < ii ==> #[trigger] par@[t] is None,
                forall|t: int| 0 <= t < ii ==> #[trigger] done@[t] == false,
            decreases n - ii,
        {
            dist.push(u64::MAX);
            par.push(None);
            done.push(false);
            ii += 1;
        }
        dist.set(from_id, 0);
        let mut frontier: Vec<(u64, u32)> = Vec::new();
        frontier.push((0u64, from_id as u32));
        let ghost mut order: Seq<int> = Seq::<int>::empty();
        proof {
            assert(frontier@[0] == (0u64, from_id as u32));
            assert forall|v: int|
                0 <= v < n && dist@[v] < u64::MAX && !(#[trigger] done@[v]) implies frontier@.contains(
                (dist@[v], v as u32),
            ) by {
                assert(v == from_id);
                assert(frontier@[0] == (dist@[v], v as u32));
            }
        }
        while frontier.len() > 0
            invariant
                self.wf(),
                n == self.node_count(),
                from_id < n,
                to_id < n,
                self.id_of(from@) == from_id as int,
                self.id_of(to@) == to_id as int,
                maxw == u32::MAX as int,
                maxw * maxw < u64::MAX as int,
                dist@.len() == n,
                par@.len() == n,
                done@.len() == n,
                dist@[from_id as int] == 0,
                par@[from_id as int] is None,
                done@[to_id as int] == false,
                forall|v: int| 0 <= v < n && #[trigger] done@[v] ==> dist@[v] < u64::MAX,
                forall|v: int|
                    0 <= v < n && #[trigger] dist@[v] == u64::MAX ==> par@[v] is None
                        && !done@[v],
                forall|v: int|
                    0 <= v < n && #[trigger] dist@[v] < u64::MAX && v != from_id ==> (par@[v]
                        matches Some(u) && u.0 < n && done@[u.0 as int] && self.edge_min(
                        u.0 as int,
                        v,
                    ) >= 0 && dist@[v] == dist@[u.0 as int] + self.edge_min(u.0 as int, v)),
                order.no_duplicates(),
                forall|k: int| 0 <= k < order.len() ==> 0 <= #[trigger] order[k] < n,
                order.len() <= n,
                forall|v: int| 0 <= v < n ==> (#[trigger] done@[v] <==> order.contains(v)),
                forall|v: int|
                    0 <= v < n && #[trigger] done@[v] && v != from_id ==> (par@[v] matches Some(u)
                        && (exists|a: int, b: int|
                        0 <= a < b < order.len() && #[trigger] order[a] == u.0 as int
                            && #[trigger] order[b] == v)),
                forall|v: int|
                    0 <= v < n && #[trigger] dist@[v] < u64::MAX ==> dist@[v] <= order.len()
                        * maxw,
                order.len() * maxw <= maxw * maxw,
                forall|k: int|
                    0 <= k < frontier@.len() ==> (((#[trigger] frontier@[k]).1 as int) < n
                        && dist@[frontier@[k].1 as int] < u64::MAX && frontier@[k].0 >= dist@[
                        frontier@[k].1 as int
                    ]),
                forall|v: int|
                    0 <= v < n && dist@[v] < u64::MAX && !(#[trigger] done@[v])
                        ==> frontier@.contains((dist@[v], v as u32)),
                forall|u: int, k: int|
                    0 <= u < n && #[trigger] done@[u] && 0 <= k < self.adjacency()[u].len()
                        ==> dist@[(#[trigger] self.adjacency()[u][k]).0.0 as int] < u64::MAX,
                forall|x: int, y: int|
                    0 <= x < n && 0 <= y < n && #[trigger] done@[x] && #[trigger] dist@[y]
                        < u64::MAX && !done@[y] ==> dist@[x] <= dist@[y],
                forall|x: int, y: int|
                    0 <= x < n && 0 <= y < n && #[trigger] done@[x] && #[trigger] self.edge_min(
                        x,
                        y,
                    ) >= 0 ==> dist@[y] < u64::MAX && dist@[y] <= dist@[x] + self.edge_min(x, y),
                order.len() == 0 ==> (forall|k: int|
                    0 <= k < frontier@.len() ==> #[trigger] frontier@[k] == (
                    0u64,
                    from_id as u32,
                )),
                order.len() >= 1 ==> order[0] == from_id as int,
            decreases n - order.len(), frontier@.len(),
        {
            proof {
                lemma_graph_views(*self);
                assert(self.adj@.len() == n);
            }
            // select the cheapest queued entry, the first among ties
            let mut jmin: usize = 0;
            let mut k2: usize = 1;
            while k2 < frontier.len()
                invariant
                    frontier@.len() > 0,
                    jmin < frontier@.len(),
                    k2 <= frontier@.len(),
                    forall|t: int|
                        0 <= t < k2 ==> frontier@[jmin as int].0 <= (#[trigger] frontier@[t]).0,
                decreases frontier@.len() - k2,
            {
                if frontier[k2].0 < frontier[jmin].0 {
                    jmin = k2;
                }
                k2 += 1;
            }
            let ghost pre_frontier = frontier@;
            let entry = frontier.swap_remove(jmin);
            let u = entry.1 as usize;
            proof {
                assert(pre_frontier[jmin as int] == entry);
                assert(u < n && dist@[u as int] < u64::MAX && entry.0 >= dist@[u as int]);
            }
            if u == to_id {
                let p = self.build_path(from_id, to_id, &dist, &par, &done, Ghost(order));
                proof {
                    assert(self.path_ok(p.path@) && p.path@[0].0 == from_id && p.path@.last().0
                        == to_id);
                    assert(self.reachable(from_id as int, to_id as int));
                    // minimality: this pop is the cheapest queued entry,
                    // so any source-to-destination path pays at least the
                    // settled distance of the destination
                    let ghost dto = dist@[to_id as int] as int;
                    assert forall|s2: Seq<NodeId>|
                        #[trigger] self.path_ok(s2) && s2[0].0 == from_id && s2.last().0 == to_id
                            implies self.path_cost(s2) >= dto by {
                        if order.len() == 0 {
                            // the first pop can only be the source's seed
                            // entry, so this is a self-query
                            assert(pre_frontier[jmin as int] == entry);
                            assert(entry == (0u64, from_id as u32));
                            assert(to_id == from_id);
                            assert(dto == 0);
                            lemma_path_cost_nonneg(*self, s2);
                        } else {
                            assert(order.contains(from_id as int));
                            assert(done@[from_id as int]);
                            assert forall|y: int|
                                0 <= y < n && #[trigger] dist@[y] < u64::MAX && !done@[y] implies dist@[y]
                                >= dto by {
                                assert(pre_frontier.contains((dist@[y], y as u32)));
                                let wk = choose|wk: int|
                                    0 <= wk < pre_frontier.len() && pre_frontier[wk] == (
                                    dist@[y],
                                    y as u32,
                                    );
                                assert(pre_frontier[jmin as int].0 <= pre_frontier[wk].0);
                                assert(entry.0 >= dist@[u as int]);
                            }
                            assert(!done@[s2.last().0 as int]);
                            lemma_crossing(*self, n as int, dist@, done@, dto, s2);
                        }
                    }
                    assert(p.cost == dist@[to_id as int]);
                }
                return Ok(p);
            }
            if done[u] {
                // an entry of an already-settled node: drop it
                proof {
                    lemma_queue_survivors(
                        n as int,
                        done@,
                        dist@,
                        pre_frontier,
                        frontier@,
                        jmin as int,
                    );
                if order.len() == 0 {
                    assert forall|k: int|
                        0 <= k < frontier@.len() implies #[trigger] frontier@[k] == (
                        0u64,
                        from_id as u32,
                    ) by {
                        if k == jmin {
                            assert(frontier@[k] == pre_frontier[pre_frontier.len() - 1]);
                        } else {
                            assert(frontier@[k] == pre_frontier[k]);
                        }
                    }
                }
                }
            } else if entry.0 > dist[u] {
                // an outdated entry: this node has been reached more
                // cheaply since it was queued
                proof {
                    lemma_queue_survivors(
                        n as int,
                        done@,
                        dist@,
                        pre_frontier,
                        frontier@,
                        jmin as int,
                    );
                if order.len() == 0 {
                    assert forall|k: int|
                        0 <= k < frontier@.len() implies #[trigger] frontier@[k] == (
                        0u64,
                        from_id as u32,
                    ) by {
                        if k == jmin {
                            assert(frontier@[k] == pre_frontier[pre_frontier.len() - 1]);
                        } else {
                            assert(frontier@[k] == pre_frontier[k]);
                        }
                    }
                }
                }
            } else {
                // settle u and relax its outgoing edges
                proof {
                    lemma_queue_survivors_except(
                        n as int,
                        done@,
                        dist@,
                        pre_frontier,
                        frontier@,
                        jmin as int,
                    );
                    // this pop is minimal: every reached unsettled node
                    // sits at or above the settled distance
                    assert(entry.0 == dist@[u as int]);
                    assert forall|y: int|
                        0 <= y < n && #[trigger] dist@[y] < u64::MAX && !done@[y] implies dist@[y]
                        >= dist@[u as int] by {
                        assert(pre_frontier.contains((dist@[y], y as u32)));
                        let wk = choose|wk: int|
                            0 <= wk < pre_frontier.len() && pre_frontier[wk] == (
                            dist@[y],
                            y as u32,
                            );
                        assert(pre_frontier[jmin as int].0 <= pre_frontier[wk].0);
                    }
                    if order.len() == 0 {
                        assert(pre_frontier[jmin as int] == entry);
                        assert(entry == (0u64, from_id as u32));
                    }
                }
                let go = self.settle_and_relax(
                    from_id,
                    to_id,
                    u,
                    &mut dist,
                    &mut par,
                    &mut done,
                    &mut frontier,
                    Ghost(order),
                );
                proof {
                    order = go@;
                }
            }
        }
        // the frontier is exhausted: every reached node is settled, the
        // reached set is closed under out-edges, and the destination was
        // never reached
        proof {
            assert forall|v: int| 0 <= v < n && #[trigger] dist@[v] < u64::MAX implies done@[v] by {
                if !done@[v] {
                    assert(frontier@.contains((dist@[v], v as u32)));
                    let kk = choose|kk: int|
                        0 <= kk < frontier@.len() && frontier@[kk] == (dist@[v], v as u32);
                }
            }
            if self.reachable(from_id as int, to_id as int) {
                let s = choose|s: Seq<NodeId>|
                    #[trigger] self.path_ok(s) && s[0].0 == from_id as int && s.last().0
                        == to_id as int;
                lemma_closed_reach(*self, dist@, s);
                assert(done@[to_id as int]);
            }
            if from@ == to@ {
                let w = seq![NodeId(from_id as u32)];
                assert(w[0].0 == from_id as int && w.last().0 == to_id as int);
                assert(self.path_ok(w));
                assert(self.reachable(from_id as int, to_id as int));
            }
        }
        Err(PathError::PathNotFound { from: from.to_owned(), to: to.to_owned() })
    }
}

} // verus!
