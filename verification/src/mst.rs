//! Minimum spanning forest via Kruskal's algorithm.
//!
//! Edges are processed in ascending weight order (stable: ties keep the
//! input order) and accepted exactly when their endpoints lie in different
//! components of the forest built so far. [`kruskal`] is pinned to the
//! mathematical mirror [`kruskal_spec`] of that process.

use crate::dsu::DisjointSet;
use crate::undirected::{edge_matches, Edge, Graph};
use vstd::prelude::*;

verus! {

/// The edges selected for a minimum spanning forest, in acceptance order
/// (ascending weight).
pub struct Mst {
    pub edges: Vec<Edge>,
}

/// Inserts `e` into `s` from the right, before every element of strictly
/// larger weight: the insertion step of a stable sort.
pub open spec fn sorted_insert(s: Seq<Edge>, e: Edge) -> Seq<Edge>
    decreases s.len(),
{
    if s.len() == 0 {
        seq![e]
    } else if s.last().weight <= e.weight {
        s.push(e)
    } else {
        sorted_insert(s.drop_last(), e).push(s.last())
    }
}

/// Stable insertion sort of an edge sequence by ascending weight.
pub open spec fn sort_by_weight(s: Seq<Edge>) -> Seq<Edge>
    decreases s.len(),
{
    if s.len() == 0 {
        Seq::<Edge>::empty()
    } else {
        sorted_insert(sort_by_weight(s.drop_last()), s.last())
    }
}

/// The roots of the singleton partition over `0..n`.
pub open spec fn init_root(n: int) -> Seq<int> {
    Seq::new(n as nat, |x: int| x)
}

/// The sizes of the singleton partition over `0..n`.
pub open spec fn init_size(n: int) -> Seq<usize> {
    Seq::new(n as nat, |x: int| 1usize)
}

/// The partition roots after merging the class of `lose` into that of `win`.
pub open spec fn merge_root(root: Seq<int>, win: int, lose: int) -> Seq<int> {
    Seq::new(root.len(), |x: int| if root[x] == lose {
        win
    } else {
        root[x]
    })
}

/// Kruskal's selection: scans `edges` in order and accepts each edge whose
/// endpoints lie in different classes of the running partition, merging the
/// smaller class (by stored size, ties to the first endpoint's class) into
/// the larger.
pub open spec fn kruskal_sel(edges: Seq<Edge>, root: Seq<int>, size: Seq<usize>) -> Seq<Edge>
    decreases edges.len(),
{
    if edges.len() == 0 {
        Seq::<Edge>::empty()
    } else {
        let e = edges[0];
        let ru = root[e.u.0 as int];
        let rv = root[e.v.0 as int];
        if ru == rv {
            kruskal_sel(edges.subrange(1, edges.len() as int), root, size)
        } else {
            let win = if size[ru] >= size[rv] {
                ru
            } else {
                rv
            };
            let lose = if size[ru] >= size[rv] {
                rv
            } else {
                ru
            };
            let merged = (if size[ru] + size[rv] > usize::MAX {
                usize::MAX as int
            } else {
                size[ru] + size[rv]
            }) as usize;
            seq![e] + kruskal_sel(
                edges.subrange(1, edges.len() as int),
                merge_root(root, win, lose),
                size.update(win, merged),
            )
        }
    }
}

/// The edges of the minimum spanning forest of `g`, in acceptance order.
pub open spec fn kruskal_spec(g: Graph) -> Seq<Edge> {
    kruskal_sel(sort_by_weight(g.edge_seq()), init_root(g.node_count()), init_size(g.node_count()))
}

/// `sorted_insert` splits `s` at the scan boundary `j`: everything from `j`
/// on has strictly larger weight than `e`, and the element before `j`, if
/// any, does not.
proof fn lemma_sorted_insert_split(s: Seq<Edge>, e: Edge, j: int)
    requires
        0 <= j <= s.len(),
        forall|k: int| j <= k < s.len() ==> s[k].weight > e.weight,
        j > 0 ==> s[j - 1].weight <= e.weight,
    ensures
        sorted_insert(s, e) == s.subrange(0, j) + seq![e] + s.subrange(j, s.len() as int),
    decreases s.len(),
{
    if j == s.len() {
        assert(sorted_insert(s, e) =~= s.subrange(0, j) + seq![e] + s.subrange(
            j,
            s.len() as int,
        ));
    } else {
        let dl = s.drop_last();
        lemma_sorted_insert_split(dl, e, j);
        assert(dl.subrange(0, j) =~= s.subrange(0, j));
        assert(dl.subrange(j, dl.len() as int) =~= s.subrange(j, s.len() as int).drop_last());
        assert(sorted_insert(s, e) =~= s.subrange(0, j) + seq![e] + s.subrange(j, s.len() as int));
    }
}

/// `sorted_insert` preserves a bound on the edge endpoints.
proof fn lemma_sorted_insert_bounds(s: Seq<Edge>, e: Edge, n: int)
    requires
        forall|k: int| 0 <= k < s.len() ==> (#[trigger] s[k]).u.0 < n && s[k].v.0 < n,
        e.u.0 < n,
        e.v.0 < n,
    ensures
        forall|k: int|
            0 <= k < sorted_insert(s, e).len() ==> (#[trigger] sorted_insert(s, e)[k]).u.0 < n
                && sorted_insert(s, e)[k].v.0 < n,
    decreases s.len(),
{
    let r = sorted_insert(s, e);
    if s.len() == 0 {
        assert(r[0] == e);
    } else if s.last().weight <= e.weight {
        assert forall|k: int| 0 <= k < r.len() implies (#[trigger] r[k]).u.0 < n && r[k].v.0
            < n by {
            if k < s.len() {
                assert(r[k] == s[k]);
            } else {
                assert(r[k] == e);
            }
        }
    } else {
        let dl = s.drop_last();
        assert forall|k: int| 0 <= k < dl.len() implies (#[trigger] dl[k]).u.0 < n && dl[k].v.0
            < n by {
            assert(dl[k] == s[k]);
        }
        lemma_sorted_insert_bounds(dl, e, n);
        let rec = sorted_insert(dl, e);
        assert forall|k: int| 0 <= k < r.len() implies (#[trigger] r[k]).u.0 < n && r[k].v.0
            < n by {
            if k < rec.len() {
                assert(r[k] == rec[k]);
            } else {
                assert(r[k] == s.last());
                assert(s[s.len() - 1].u.0 < n && s[s.len() - 1].v.0 < n);
            }
        }
    }
}

/// Sorting preserves a bound on the edge endpoints.
proof fn lemma_sort_bounds(s: Seq<Edge>, n: int)
    requires
        forall|k: int| 0 <= k < s.len() ==> (#[trigger] s[k]).u.0 < n && s[k].v.0 < n,
    ensures
        forall|k: int|
            0 <= k < sort_by_weight(s).len() ==> (#[trigger] sort_by_weight(s)[k]).u.0 < n
                && sort_by_weight(s)[k].v.0 < n,
    decreases s.len(),
{
    if s.len() != 0 {
        lemma_sort_bounds(s.drop_last(), n);
        lemma_sorted_insert_bounds(sort_by_weight(s.drop_last()), s.last(), n);
    }
}

/// Stable insertion sort of the edge list, ascending by weight.
fn sort_edges(edges: &Vec<Edge>) -> (r: Vec<Edge>)
    ensures
        r@ == sort_by_weight(edges@),
{
    let mut r: Vec<Edge> = Vec::new();
    let mut i: usize = 0;
    while i < edges.len()
        invariant
            i <= edges@.len(),
            r@ == sort_by_weight(edges@.subrange(0, i as int)),
        decreases edges@.len() - i,
    {
        let e = edges[i];
        let mut j: usize = r.len();
        while j > 0 && r[j - 1].weight > e.weight
            invariant
                j <= r@.len(),
                forall|k: int| j <= k < r@.len() ==> (#[trigger] r@[k]).weight > e.weight,
            decreases j,
        {
            j -= 1;
        }
        let ghost prev = r@;
        r.insert(j, e);
        proof {
            lemma_sorted_insert_split(prev, e, j as int);
            assert(r@ =~= prev.subrange(0, j as int) + seq![e] + prev.subrange(
                j as int,
                prev.len() as int,
            ));
            assert(edges@.subrange(0, i + 1).drop_last() =~= edges@.subrange(0, i as int));
            assert(edges@.subrange(0, i + 1).last() == e);
        }
        i += 1;
    }
    proof {
        assert(edges@.subrange(0, edges@.len() as int) =~= edges@);
    }
    r
}

/// The partition roots left after Kruskal's selection has scanned
/// `edges`, starting from the given partition.
pub open spec fn kruskal_part(edges: Seq<Edge>, root: Seq<int>, size: Seq<usize>) -> Seq<int>
    decreases edges.len(),
{
    if edges.len() == 0 {
        root
    } else {
        let e = edges[0];
        let ru = root[e.u.0 as int];
        let rv = root[e.v.0 as int];
        if ru == rv {
            kruskal_part(edges.subrange(1, edges.len() as int), root, size)
        } else {
            let win = if size[ru] >= size[rv] {
                ru
            } else {
                rv
            };
            let lose = if size[ru] >= size[rv] {
                rv
            } else {
                ru
            };
            let merged = (if size[ru] + size[rv] > usize::MAX {
                usize::MAX as int
            } else {
                size[ru] + size[rv]
            }) as usize;
            kruskal_part(
                edges.subrange(1, edges.len() as int),
                merge_root(root, win, lose),
                size.update(win, merged),
            )
        }
    }
}

/// A settled partition map: every entry is in range and every class
/// representative represents itself.
pub open spec fn roots_idem(root: Seq<int>) -> bool {
    forall|x: int|
        0 <= x < root.len() ==> 0 <= #[trigger] root[x] < root.len() && root[root[x]] == root[x]
}

/// Each edge Kruskal accepts merges two distinct classes, so the number
/// of accepted edges plus the number of remaining classes equals the
/// number of classes the scan started from.
#[verifier::rlimit(30)]
proof fn lemma_sel_count(edges: Seq<Edge>, root: Seq<int>, size: Seq<usize>)
    requires
        roots_idem(root),
        forall|k: int|
            0 <= k < edges.len() ==> (#[trigger] edges[k]).u.0 < root.len() && edges[k].v.0
                < root.len(),
    ensures
        kruskal_sel(edges, root, size).len() + kruskal_part(edges, root, size).to_set().len()
            == root.to_set().len(),
        roots_idem(kruskal_part(edges, root, size)),
        kruskal_part(edges, root, size).len() == root.len(),
    decreases edges.len(),
{
    broadcast use vstd::set::group_set_axioms;
    broadcast use vstd::seq_lib::seq_to_set_is_finite;

    if edges.len() > 0 {
        let tail = edges.subrange(1, edges.len() as int);
        assert forall|k: int|
            0 <= k < tail.len() implies (#[trigger] tail[k]).u.0 < root.len() && tail[k].v.0
            < root.len() by {
            assert(tail[k] == edges[k + 1]);
        }
        let e = edges[0];
        let ru = root[e.u.0 as int];
        let rv = root[e.v.0 as int];
        if ru == rv {
            lemma_sel_count(tail, root, size);
        } else {
            let win = if size[ru] >= size[rv] {
                ru
            } else {
                rv
            };
            let lose = if size[ru] >= size[rv] {
                rv
            } else {
                ru
            };
            let merged = (if size[ru] + size[rv] > usize::MAX {
                usize::MAX as int
            } else {
                size[ru] + size[rv]
            }) as usize;
            let m = merge_root(root, win, lose);
            assert(root[win] == win && root[lose] == lose);
            assert forall|x: int|
                0 <= x < m.len() implies 0 <= #[trigger] m[x] < m.len() && m[m[x]] == m[x] by {
                if root[x] == lose {
                    assert(m[x] == win && m[win] == win);
                } else {
                    assert(m[x] == root[x] && root[root[x]] == root[x]);
                    assert(m[root[x]] == root[x]);
                }
            }
            // the merge removes exactly the losing representative
            assert(m.to_set() =~= root.to_set().remove(lose)) by {
                assert forall|y: int| m.to_set().contains(y) implies root.to_set().remove(
                    lose,
                ).contains(y) by {
                    let x = choose|x: int| 0 <= x < m.len() && m[x] == y;
                    if root[x] == lose {
                        assert(y == win);
                        assert(root[e.u.0 as int] == ru || root[e.u.0 as int] == rv);
                        assert(root.contains(win));
                    } else {
                        assert(root[x] == y);
                        assert(root.contains(y));
                    }
                    assert(y != lose);
                }
                assert forall|y: int| root.to_set().remove(lose).contains(y) implies m.to_set().contains(
                    y,
                ) by {
                    let x = choose|x: int| 0 <= x < root.len() && root[x] == y;
                    assert(m[x] == y);
                    assert(m.contains(y));
                }
            }
            assert(root.to_set().contains(lose)) by {
                if size[ru] >= size[rv] {
                    assert(root[e.v.0 as int] == lose);
                } else {
                    assert(root[e.u.0 as int] == lose);
                }
            }
            lemma_sel_count(tail, m, size.update(win, merged));
        }
    }
}

/// The number of edges in the spanning forest is the node count minus
/// the number of classes of the partition that remains when every edge
/// has been scanned: each accepted edge joins two components, so for a
/// fully scanned graph the remainder is its connected components.
pub proof fn lemma_kruskal_count(g: Graph)
    requires
        g.wf(),
    ensures
        kruskal_spec(g).len() + kruskal_part(
            sort_by_weight(g.edge_seq()),
            init_root(g.node_count()),
            init_size(g.node_count()),
        ).to_set().len() == g.node_count(),
{
    broadcast use vstd::set::group_set_axioms;
    broadcast use vstd::seq_lib::seq_to_set_is_finite;

    let n = g.node_count();
    let r0 = init_root(n);
    lemma_sort_bounds(g.edge_seq(), n);
    assert(r0.no_duplicates());
    r0.unique_seq_to_set();
    assert(r0.to_set().len() == n);
    assert(roots_idem(r0)) by {
        assert forall|x: int| 0 <= x < r0.len() implies 0 <= #[trigger] r0[x] < r0.len()
            && r0[r0[x]] == r0[x] by {
            assert(r0[x] == x);
        }
    }
    lemma_sel_count(sort_by_weight(g.edge_seq()), r0, init_size(n));
    assert(kruskal_sel(sort_by_weight(g.edge_seq()), r0, init_size(n)).len() + kruskal_part(
        sort_by_weight(g.edge_seq()),
        r0,
        init_size(n),
    ).to_set().len() == r0.to_set().len());
}

/// A valid move between `x` and `y`: the partition `root` already
/// identifies them, or some edge of `es` joins them.
pub open spec fn step_ok(es: Seq<Edge>, root: Seq<int>, x: int, y: int) -> bool {
    root[x] == root[y] || (exists|j: int| 0 <= j < es.len() && edge_matches(#[trigger] es[j], x, y))
}

/// Whether `s` walks from `a` to `b` through in-range nodes, each
/// consecutive pair a valid move.
pub open spec fn walk_ok(es: Seq<Edge>, root: Seq<int>, s: Seq<int>, a: int, b: int) -> bool {
    &&& s.len() >= 1
    &&& s[0] == a
    &&& s.last() == b
    &&& forall|i: int| 0 <= i < s.len() ==> 0 <= #[trigger] s[i] < root.len()
    &&& forall|i: int| 0 <= i < s.len() - 1 ==> step_ok(es, root, #[trigger] s[i], s[i + 1])
}

/// Whether the partition `root`, coarsened by the edges of `es`, relates
/// `a` to `b`.
pub open spec fn conn(es: Seq<Edge>, root: Seq<int>, a: int, b: int) -> bool {
    exists|s: Seq<int>| #[trigger] walk_ok(es, root, s, a, b)
}

/// Whether nodes `a` and `b` of a graph on `0..n` lie in the same
/// connected component of the edges `es`.
pub open spec fn connected(es: Seq<Edge>, n: int, a: int, b: int) -> bool {
    conn(es, init_root(n), a, b)
}

/// A node is connected to itself.
proof fn lemma_conn_refl(es: Seq<Edge>, root: Seq<int>, a: int)
    requires
        0 <= a < root.len(),
    ensures
        conn(es, root, a, a),
{
    let s = seq![a];
    assert(walk_ok(es, root, s, a, a));
}

/// Connectivity concatenates.
proof fn lemma_conn_trans(es: Seq<Edge>, root: Seq<int>, a: int, b: int, c: int)
    requires
        conn(es, root, a, b),
        conn(es, root, b, c),
    ensures
        conn(es, root, a, c),
{
    let s1 = choose|s: Seq<int>| #[trigger] walk_ok(es, root, s, a, b);
    let s2 = choose|s: Seq<int>| #[trigger] walk_ok(es, root, s, b, c);
    let s = s1 + s2.subrange(1, s2.len() as int);
    assert forall|i: int| 0 <= i < s.len() implies 0 <= #[trigger] s[i] < root.len() by {
        if i < s1.len() {
            assert(s[i] == s1[i]);
        } else {
            assert(s[i] == s2[i - s1.len() + 1]);
        }
    }
    assert forall|i: int| 0 <= i < s.len() - 1 implies step_ok(es, root, #[trigger] s[i], s[i + 1]) by {
        if i < s1.len() - 1 {
            assert(s[i] == s1[i] && s[i + 1] == s1[i + 1]);
            assert(step_ok(es, root, s1[i], s1[i + 1]));
        } else if i == s1.len() - 1 {
            assert(s[i] == s1[s1.len() - 1]);
            assert(s1[s1.len() - 1] == b && s2[0] == b);
            assert(s[i + 1] == s2[1]);
            assert(step_ok(es, root, s2[0], s2[1]));
        } else {
            let t = i - s1.len() + 1;
            assert(s[i] == s2[t] && s[i + 1] == s2[t + 1]);
            assert(step_ok(es, root, s2[t], s2[t + 1]));
        }
    }
    if s2.len() == 1 {
        assert(s =~= s1);
        assert(walk_ok(es, root, s, a, c));
    } else {
        assert(s.last() == s2.last());
        assert(walk_ok(es, root, s, a, c));
    }
}

/// A walk lifts move-by-move: if every valid move of one setting is a
/// connection of another (over the same node range), whole walks follow.
proof fn lemma_walk_lift(
    es1: Seq<Edge>,
    r1: Seq<int>,
    es2: Seq<Edge>,
    r2: Seq<int>,
    s: Seq<int>,
    a: int,
    b: int,
)
    requires
        r1.len() == r2.len(),
        walk_ok(es1, r1, s, a, b),
        forall|x: int, y: int|
            0 <= x < r1.len() && 0 <= y < r1.len() && #[trigger] step_ok(es1, r1, x, y) ==> conn(
                es2,
                r2,
                x,
                y,
            ),
    ensures
        conn(es2, r2, a, b),
    decreases s.len(),
{
    if s.len() == 1 {
        assert(a == b);
        lemma_conn_refl(es2, r2, a);
    } else {
        assert(step_ok(es1, r1, s[0], s[1]));
        assert(conn(es2, r2, a, s[1]));
        let t = s.subrange(1, s.len() as int);
        assert forall|i: int| 0 <= i < t.len() implies 0 <= #[trigger] t[i] < r1.len() by {
            assert(t[i] == s[i + 1]);
        }
        assert forall|i: int| 0 <= i < t.len() - 1 implies step_ok(es1, r1, #[trigger] t[i], t[i + 1]) by {
            assert(t[i] == s[i + 1] && t[i + 1] == s[i + 2]);
            assert(step_ok(es1, r1, s[i + 1], s[i + 2]));
        }
        assert(walk_ok(es1, r1, t, s[1], b));
        lemma_walk_lift(es1, r1, es2, r2, t, s[1], b);
        lemma_conn_trans(es2, r2, a, s[1], b);
    }
}

/// As `lemma_walk_lift`, starting from a connection.
pub(crate) proof fn lemma_conn_lift(es1: Seq<Edge>, r1: Seq<int>, es2: Seq<Edge>, r2: Seq<int>, a: int, b: int)
    requires
        r1.len() == r2.len(),
        conn(es1, r1, a, b),
        forall|x: int, y: int|
            0 <= x < r1.len() && 0 <= y < r1.len() && #[trigger] step_ok(es1, r1, x, y) ==> conn(
                es2,
                r2,
                x,
                y,
            ),
    ensures
        conn(es2, r2, a, b),
{
    let s = choose|s: Seq<int>| #[trigger] walk_ok(es1, r1, s, a, b);
    lemma_walk_lift(es1, r1, es2, r2, s, a, b);
}

/// A single valid move is a connection.
pub(crate) proof fn lemma_step_conn(es: Seq<Edge>, root: Seq<int>, x: int, y: int)
    requires
        0 <= x < root.len(),
        0 <= y < root.len(),
        step_ok(es, root, x, y),
    ensures
        conn(es, root, x, y),
{
    let s = seq![x, y];
    assert(s[0] == x && s.last() == y);
    assert(step_ok(es, root, s[0], s[1]));
    assert(walk_ok(es, root, s, x, y));
}

/// With no edges, a walk only strings together identifications, so its
/// ends share a representative.
pub(crate) proof fn lemma_walk_roots(root: Seq<int>, s: Seq<int>, a: int, b: int)
    requires
        walk_ok(Seq::<Edge>::empty(), root, s, a, b),
    ensures
        root[a] == root[b],
    decreases s.len(),
{
    if s.len() > 1 {
        assert(step_ok(Seq::<Edge>::empty(), root, s[0], s[1]));
        assert(root[s[0]] == root[s[1]]);
        let t = s.subrange(1, s.len() as int);
        assert forall|i: int| 0 <= i < t.len() implies 0 <= #[trigger] t[i] < root.len() by {
            assert(t[i] == s[i + 1]);
        }
        assert forall|i: int|
            0 <= i < t.len() - 1 implies step_ok(Seq::<Edge>::empty(), root, #[trigger] t[i], t[i + 1]) by {
            assert(t[i] == s[i + 1] && t[i + 1] == s[i + 2]);
            assert(step_ok(Seq::<Edge>::empty(), root, s[i + 1], s[i + 2]));
        }
        assert(walk_ok(Seq::<Edge>::empty(), root, t, s[1], b));
        lemma_walk_roots(root, t, s[1], b);
    }
}

/// Kruskal's remaining partition relates two nodes exactly when the
/// scanned edges, on top of the starting partition, connect them.
#[verifier::rlimit(100)]
pub(crate) proof fn lemma_part_conn(edges: Seq<Edge>, root: Seq<int>, size: Seq<usize>, a: int, b: int)
    requires
        roots_idem(root),
        forall|k: int|
            0 <= k < edges.len() ==> (#[trigger] edges[k]).u.0 < root.len() && edges[k].v.0
                < root.len(),
        0 <= a < root.len(),
        0 <= b < root.len(),
    ensures
        kruskal_part(edges, root, size)[a] == kruskal_part(edges, root, size)[b] <==> conn(
            edges,
            root,
            a,
            b,
        ),
    decreases edges.len(),
{
    if edges.len() == 0 {
        if conn(edges, root, a, b) {
            let s = choose|s: Seq<int>| #[trigger] walk_ok(edges, root, s, a, b);
            assert(s.len() >= 1);
            assert forall|i: int| 0 <= i < s.len() - 1 implies step_ok(
                Seq::<Edge>::empty(),
                root,
                #[trigger] s[i],
                s[i + 1],
            ) by {
                assert(step_ok(edges, root, s[i], s[i + 1]));
            }
            assert(edges =~= Seq::<Edge>::empty());
            assert(walk_ok(Seq::<Edge>::empty(), root, s, a, b));
            lemma_walk_roots(root, s, a, b);
        }
        if root[a] == root[b] {
            lemma_step_conn(edges, root, a, b);
        }
    } else {
        let tail = edges.subrange(1, edges.len() as int);
        assert forall|k: int|
            0 <= k < tail.len() implies (#[trigger] tail[k]).u.0 < root.len() && tail[k].v.0
            < root.len() by {
            assert(tail[k] == edges[k + 1]);
        }
        let e = edges[0];
        let ru = root[e.u.0 as int];
        let rv = root[e.v.0 as int];
        // a tail edge is an edge; an edge move within one class is an
        // identification
        assert forall|x: int, y: int|
            0 <= x < root.len() && 0 <= y < root.len() && #[trigger] step_ok(tail, root, x, y)
                implies step_ok(edges, root, x, y) by {
            if root[x] != root[y] {
                let j = choose|j: int| 0 <= j < tail.len() && edge_matches(#[trigger] tail[j], x, y);
                assert(edges[j + 1] == tail[j]);
                assert(edge_matches(edges[j + 1], x, y));
            }
        }
        if ru == rv {
            lemma_part_conn(tail, root, size, a, b);
            // the scanned edge adds nothing: its endpoints already share
            // a class
            assert forall|x: int, y: int|
                0 <= x < root.len() && 0 <= y < root.len() && #[trigger] step_ok(edges, root, x, y)
                    implies conn(tail, root, x, y) by {
                if root[x] == root[y] {
                    lemma_step_conn(tail, root, x, y);
                } else {
                    let j = choose|j: int|
                        0 <= j < edges.len() && edge_matches(#[trigger] edges[j], x, y);
                    if j == 0 {
                        assert(root[x] == root[y]);
                    } else {
                        assert(tail[j - 1] == edges[j]);
                        assert(edge_matches(tail[j - 1], x, y));
                        lemma_step_conn(tail, root, x, y);
                    }
                }
            }
            assert forall|x: int, y: int|
                0 <= x < root.len() && 0 <= y < root.len() && #[trigger] step_ok(tail, root, x, y)
                    implies conn(edges, root, x, y) by {
                lemma_step_conn(edges, root, x, y);
            }
            if conn(edges, root, a, b) {
                lemma_conn_lift(edges, root, tail, root, a, b);
            }
            if conn(tail, root, a, b) {
                lemma_conn_lift(tail, root, edges, root, a, b);
            }
        } else {
            let win = if size[ru] >= size[rv] {
                ru
            } else {
                rv
            };
            let lose = if size[ru] >= size[rv] {
                rv
            } else {
                ru
            };
            let merged = (if size[ru] + size[rv] > usize::MAX {
                usize::MAX as int
            } else {
                size[ru] + size[rv]
            }) as usize;
            let m = merge_root(root, win, lose);
            assert(root[win] == win && root[lose] == lose);
            assert forall|x: int|
                0 <= x < m.len() implies 0 <= #[trigger] m[x] < m.len() && m[m[x]] == m[x] by {
                if root[x] == lose {
                    assert(m[x] == win && m[win] == win);
                } else {
                    assert(m[x] == root[x] && root[root[x]] == root[x]);
                    assert(m[root[x]] == root[x]);
                }
            }
            lemma_part_conn(tail, m, size.update(win, merged), a, b);
            // a move of the merged setting is a connection of the
            // original: crossing the merge routes through the scanned edge
            let pl = if root[e.u.0 as int] == lose {
                e.u.0 as int
            } else {
                e.v.0 as int
            };
            let pw = if root[e.u.0 as int] == lose {
                e.v.0 as int
            } else {
                e.u.0 as int
            };
            assert(root[pl] == lose && root[pw] == win);
            assert(edge_matches(edges[0], pl, pw));
            assert forall|x: int, y: int|
                0 <= x < m.len() && 0 <= y < m.len() && #[trigger] step_ok(tail, m, x, y) implies conn(
                edges,
                root,
                x,
                y,
            ) by {
                if m[x] == m[y] && root[x] != root[y] {
                    if root[x] == lose {
                        assert(root[y] == win);
                        lemma_step_conn(edges, root, x, pl);
                        assert(step_ok(edges, root, pl, pw));
                        lemma_step_conn(edges, root, pl, pw);
                        lemma_step_conn(edges, root, pw, y);
                        lemma_conn_trans(edges, root, x, pl, pw);
                        lemma_conn_trans(edges, root, x, pw, y);
                    } else {
                        assert(root[x] == win && root[y] == lose);
                        lemma_step_conn(edges, root, x, pw);
                        assert(step_ok(edges, root, pw, pl));
                        lemma_step_conn(edges, root, pw, pl);
                        lemma_step_conn(edges, root, pl, y);
                        lemma_conn_trans(edges, root, x, pw, pl);
                        lemma_conn_trans(edges, root, x, pl, y);
                    }
                } else if m[x] == m[y] {
                    lemma_step_conn(edges, root, x, y);
                } else {
                    let j = choose|j: int|
                        0 <= j < tail.len() && edge_matches(#[trigger] tail[j], x, y);
                    assert(edges[j + 1] == tail[j]);
                    assert(edge_matches(edges[j + 1], x, y));
                    lemma_step_conn(edges, root, x, y);
                }
            }
            // a move of the original is a move of the merged setting:
            // the scanned edge's endpoints are identified by the merge
            assert forall|x: int, y: int|
                0 <= x < root.len() && 0 <= y < root.len() && #[trigger] step_ok(edges, root, x, y)
                    implies conn(tail, m, x, y) by {
                if root[x] == root[y] {
                    assert(m[x] == m[y]);
                    lemma_step_conn(tail, m, x, y);
                } else {
                    let j = choose|j: int|
                        0 <= j < edges.len() && edge_matches(#[trigger] edges[j], x, y);
                    if j == 0 {
                        assert(m[x] == win && m[y] == win);
                        lemma_step_conn(tail, m, x, y);
                    } else {
                        assert(tail[j - 1] == edges[j]);
                        assert(edge_matches(tail[j - 1], x, y));
                        lemma_step_conn(tail, m, x, y);
                    }
                }
            }
            if conn(edges, root, a, b) {
                lemma_conn_lift(edges, root, tail, m, a, b);
            }
            if conn(tail, m, a, b) {
                lemma_conn_lift(tail, m, edges, root, a, b);
            }
        }
    }
}

/// Membership in a pushed sequence.
proof fn lemma_push_contains(s: Seq<Edge>, v: Edge)
    ensures
        forall|x: Edge| #[trigger] s.push(v).contains(x) <==> (s.contains(x) || x == v),
{
    assert forall|x: Edge| #[trigger] s.push(v).contains(x) implies (s.contains(x) || x == v) by {
        let k = choose|k: int| 0 <= k < s.push(v).len() && s.push(v)[k] == x;
        if k < s.len() {
            assert(s[k] == x);
        }
    }
    assert forall|x: Edge| s.contains(x) || x == v implies #[trigger] s.push(v).contains(x) by {
        if s.contains(x) {
            let k = choose|k: int| 0 <= k < s.len() && s[k] == x;
            assert(s.push(v)[k] == x);
        } else {
            assert(s.push(v)[s.len() as int] == x);
        }
    }
}

/// Insertion adds exactly the inserted edge to the members.
proof fn lemma_sorted_insert_contains(s: Seq<Edge>, e: Edge)
    ensures
        forall|x: Edge| #[trigger] sorted_insert(s, e).contains(x) <==> (s.contains(x) || x == e),
    decreases s.len(),
{
    if s.len() == 0 {
        assert forall|x: Edge| #[trigger] sorted_insert(s, e).contains(x) implies (s.contains(x)
            || x == e) by {
            let k = choose|k: int|
                0 <= k < sorted_insert(s, e).len() && sorted_insert(s, e)[k] == x;
            assert(sorted_insert(s, e)[0] == e);
        }
        assert forall|x: Edge| s.contains(x) || x == e implies #[trigger] sorted_insert(
            s,
            e,
        ).contains(x) by {
            assert(sorted_insert(s, e)[0] == e);
        }
    } else if s.last().weight <= e.weight {
        lemma_push_contains(s, e);
    } else {
        let dl = s.drop_last();
        lemma_sorted_insert_contains(dl, e);
        lemma_push_contains(sorted_insert(dl, e), s.last());
        lemma_push_contains(dl, s.last());
        assert(dl.push(s.last()) =~= s);
    }
}

/// Sorting permutes the edge list: it keeps exactly the same members.
proof fn lemma_sort_contains(s: Seq<Edge>)
    ensures
        forall|x: Edge| #[trigger] sort_by_weight(s).contains(x) <==> s.contains(x),
    decreases s.len(),
{
    if s.len() == 0 {
        assert forall|x: Edge| #[trigger] sort_by_weight(s).contains(x) implies s.contains(x) by {
            let k = choose|k: int|
                0 <= k < sort_by_weight(s).len() && sort_by_weight(s)[k] == x;
        }
    } else {
        let dl = s.drop_last();
        lemma_sort_contains(dl);
        lemma_sorted_insert_contains(sort_by_weight(dl), s.last());
        lemma_push_contains(dl, s.last());
        assert(dl.push(s.last()) =~= s);
    }
}

/// The classes of the partition that remains after Kruskal's scan are
/// exactly the connected components of the graph: two nodes keep the
/// same representative exactly when a chain of edges joins them.
/// Together with [`lemma_kruskal_count`], the spanning forest has
/// exactly the node count minus the number of connected components as
/// edges.
pub proof fn lemma_kruskal_components(g: Graph, a: int, b: int)
    requires
        g.wf(),
        0 <= a < g.node_count(),
        0 <= b < g.node_count(),
    ensures
        (kruskal_part(
            sort_by_weight(g.edge_seq()),
            init_root(g.node_count()),
            init_size(g.node_count()),
        )[a] == kruskal_part(
            sort_by_weight(g.edge_seq()),
            init_root(g.node_count()),
            init_size(g.node_count()),
        )[b]) <==> connected(g.edge_seq(), g.node_count(), a, b),
{
    let n = g.node_count();
    let r0 = init_root(n);
    let sorted = sort_by_weight(g.edge_seq());
    lemma_sort_bounds(g.edge_seq(), n);
    assert(roots_idem(r0)) by {
        assert forall|x: int| 0 <= x < r0.len() implies 0 <= #[trigger] r0[x] < r0.len()
            && r0[r0[x]] == r0[x] by {
            assert(r0[x] == x);
        }
    }
    lemma_part_conn(sorted, r0, init_size(n), a, b);
    lemma_sort_contains(g.edge_seq());
    assert forall|x: int, y: int|
        0 <= x < r0.len() && 0 <= y < r0.len() && #[trigger] step_ok(sorted, r0, x, y) implies conn(
        g.edge_seq(),
        r0,
        x,
        y,
    ) by {
        if r0[x] != r0[y] {
            let j = choose|j: int| 0 <= j < sorted.len() && edge_matches(#[trigger] sorted[j], x, y);
            assert(sorted.contains(sorted[j]));
            assert(g.edge_seq().contains(sorted[j]));
            let j2 = choose|j2: int| 0 <= j2 < g.edge_seq().len() && g.edge_seq()[j2] == sorted[j];
            assert(edge_matches(g.edge_seq()[j2], x, y));
        }
        lemma_step_conn(g.edge_seq(), r0, x, y);
    }
    assert forall|x: int, y: int|
        0 <= x < r0.len() && 0 <= y < r0.len() && #[trigger] step_ok(g.edge_seq(), r0, x, y)
            implies conn(sorted, r0, x, y) by {
        if r0[x] != r0[y] {
            let j = choose|j: int|
                0 <= j < g.edge_seq().len() && edge_matches(#[trigger] g.edge_seq()[j], x, y);
            assert(g.edge_seq().contains(g.edge_seq()[j]));
            assert(sorted.contains(g.edge_seq()[j]));
            let j2 = choose|j2: int| 0 <= j2 < sorted.len() && sorted[j2] == g.edge_seq()[j];
            assert(edge_matches(sorted[j2], x, y));
        }
        lemma_step_conn(sorted, r0, x, y);
    }
    if conn(sorted, r0, a, b) {
        lemma_conn_lift(sorted, r0, g.edge_seq(), r0, a, b);
    }
    if conn(g.edge_seq(), r0, a, b) {
        lemma_conn_lift(g.edge_seq(), r0, sorted, r0, a, b);
    }
}

/// Connectivity depends only on which edges are present, not on their
/// order or multiplicity.
proof fn lemma_conn_same_members(es1: Seq<Edge>, es2: Seq<Edge>, n: int, a: int, b: int)
    requires
        forall|e: Edge| es1.contains(e) <==> es2.contains(e),
    ensures
        connected(es1, n, a, b) == connected(es2, n, a, b),
{
    let r0 = init_root(n);
    assert forall|x: int, y: int|
        0 <= x < r0.len() && 0 <= y < r0.len() && #[trigger] step_ok(es1, r0, x, y) implies conn(
        es2,
        r0,
        x,
        y,
    ) by {
        if r0[x] != r0[y] {
            let j = choose|j: int| 0 <= j < es1.len() && edge_matches(#[trigger] es1[j], x, y);
            assert(es1.contains(es1[j]));
            assert(es2.contains(es1[j]));
            let j2 = choose|j2: int| 0 <= j2 < es2.len() && es2[j2] == es1[j];
            assert(edge_matches(es2[j2], x, y));
        }
        lemma_step_conn(es2, r0, x, y);
    }
    assert forall|x: int, y: int|
        0 <= x < r0.len() && 0 <= y < r0.len() && #[trigger] step_ok(es2, r0, x, y) implies conn(
        es1,
        r0,
        x,
        y,
    ) by {
        if r0[x] != r0[y] {
            let j = choose|j: int| 0 <= j < es2.len() && edge_matches(#[trigger] es2[j], x, y);
            assert(es2.contains(es2[j]));
            assert(es1.contains(es2[j]));
            let j2 = choose|j2: int| 0 <= j2 < es1.len() && es1[j2] == es2[j];
            assert(edge_matches(es1[j2], x, y));
        }
        lemma_step_conn(es1, r0, x, y);
    }
    if conn(es1, r0, a, b) {
        lemma_conn_lift(es1, r0, es2, r0, a, b);
    }
    if conn(es2, r0, a, b) {
        lemma_conn_lift(es2, r0, es1, r0, a, b);
    }
}

/// Two sets in bijection have the same cardinality.
proof fn lemma_bij_card(s1: Set<int>, s2: Set<int>, f: spec_fn(int) -> int)
    requires
        s1.finite(),
        forall|x: int| s1.contains(x) ==> s2.contains(#[trigger] f(x)),
        forall|x: int, y: int|
            s1.contains(x) && s1.contains(y) && #[trigger] f(x) == #[trigger] f(y) ==> x == y,
        forall|y: int| #[trigger] s2.contains(y) ==> exists|x: int| s1.contains(x) && f(x) == y,
    ensures
        s1.len() == s2.len(),
    decreases s1.len(),
{
    broadcast use vstd::set::group_set_axioms;

    if s1.len() == 0 {
        assert(s2 =~= Set::<int>::empty()) by {
            assert forall|y: int| !(#[trigger] s2.contains(y)) by {
                if s2.contains(y) {
                    let x = choose|x: int| s1.contains(x) && f(x) == y;
                }
            }
        }
    } else {
        let x0 = s1.choose();
        assert(s1.contains(x0));
        let t1 = s1.remove(x0);
        let t2 = s2.remove(f(x0));
        assert(s2.contains(f(x0)));
        assert(s2.finite()) by {
            assert(s2 =~= s1.map(f)) by {
                assert forall|y: int| s2.contains(y) implies s1.map(f).contains(y) by {
                    let x = choose|x: int| s1.contains(x) && f(x) == y;
                }
                assert forall|y: int| s1.map(f).contains(y) implies s2.contains(y) by {
                    let x = choose|x: int| s1.contains(x) && f(x) == y;
                }
            }
            s1.lemma_map_finite(f);
        }
        assert forall|y: int| t1.contains(y) implies t2.contains(#[trigger] f(y)) by {
            assert(f(y) != f(x0));
        }
        assert forall|y: int| #[trigger] t2.contains(y) implies exists|x: int|
            t1.contains(x) && f(x) == y by {
            let x = choose|x: int| s1.contains(x) && f(x) == y;
            assert(x != x0);
            assert(t1.contains(x) && f(x) == y);
        }
        lemma_bij_card(t1, t2, f);
    }
}

/// The size of the spanning forest ignores the edge order: over the same
/// node count and the same stored edges (in any order), Kruskal selects
/// the same number of edges. The selection itself may differ among
/// equal-weight ties, and the weight sum lives outside this crate's
/// integer model.
pub proof fn lemma_kruskal_count_invariant(g1: Graph, g2: Graph)
    requires
        g1.wf(),
        g2.wf(),
        g1.node_count() == g2.node_count(),
        forall|e: Edge| g1.edge_seq().contains(e) <==> g2.edge_seq().contains(e),
    ensures
        kruskal_spec(g1).len() == kruskal_spec(g2).len(),
{
    broadcast use vstd::set::group_set_axioms;
    broadcast use vstd::seq_lib::seq_to_set_is_finite;

    let n = g1.node_count();
    let p1 = kruskal_part(sort_by_weight(g1.edge_seq()), init_root(n), init_size(n));
    let p2 = kruskal_part(sort_by_weight(g2.edge_seq()), init_root(n), init_size(n));
    lemma_kruskal_count(g1);
    lemma_kruskal_count(g2);
    lemma_sort_bounds(g1.edge_seq(), n);
    lemma_sort_bounds(g2.edge_seq(), n);
    assert(roots_idem(init_root(n))) by {
        let r0 = init_root(n);
        assert forall|x: int| 0 <= x < r0.len() implies 0 <= #[trigger] r0[x] < r0.len()
            && r0[r0[x]] == r0[x] by {
            assert(r0[x] == x);
        }
    }
    lemma_sel_count(sort_by_weight(g1.edge_seq()), init_root(n), init_size(n));
    lemma_sel_count(sort_by_weight(g2.edge_seq()), init_root(n), init_size(n));
    // the two final partitions induce the same equivalence: both mirror
    // connectivity, which depends only on edge membership
    assert forall|a: int, b: int|
        #![trigger p1[a], p1[b]]
        #![trigger p2[a], p2[b]]
        0 <= a < n && 0 <= b < n implies ((p1[a] == p1[b]) <==> (p2[a] == p2[b])) by {
        lemma_kruskal_components(g1, a, b);
        lemma_kruskal_components(g2, a, b);
        lemma_conn_same_members(g1.edge_seq(), g2.edge_seq(), n, a, b);
    }
    // so their class counts agree, via the representative bijection
    let f = |c: int| p2[c];
    assert forall|x: int| p1.to_set().contains(x) implies p2.to_set().contains(#[trigger] f(x)) by {
        let i = choose|i: int| 0 <= i < p1.len() && p1[i] == x;
        assert(p1[p1[i]] == p1[i]);
        assert(p2[x] == p2.index(x));
    }
    assert forall|x: int, y: int|
        p1.to_set().contains(x) && p1.to_set().contains(y) && #[trigger] f(x) == #[trigger] f(
            y,
        ) implies x == y by {
        let i = choose|i: int| 0 <= i < p1.len() && p1[i] == x;
        let j = choose|j: int| 0 <= j < p1.len() && p1[j] == y;
        assert(p1[p1[i]] == p1[i] && p1[p1[j]] == p1[j]);
        assert(p2[x] == p2[y]);
        assert(p1[x] == p1[y]);
    }
    assert forall|y: int| #[trigger] p2.to_set().contains(y) implies exists|x: int|
        p1.to_set().contains(x) && f(x) == y by {
        let i = choose|i: int| 0 <= i < p2.len() && p2[i] == y;
        assert(p1[p1[i]] == p1[i]);
        assert(p2[p1[i]] == p2[i]);
        assert(p1.to_set().contains(p1[i]) && f(p1[i]) == y);
    }
    lemma_bij_card(p1.to_set(), p2.to_set(), f);
}

/// The roots of the partition held by a disjoint-set structure.
pub open spec fn roots_of(ds: DisjointSet, n: int) -> Seq<int> {
    Seq::new(n as nat, |x: int| ds.root_of(x))
}

/// Computes a minimum spanning forest of `g`: edges are scanned in
/// ascending weight order (stable in the input order) and accepted exactly
/// when they join two distinct components. For a disconnected graph the
/// result spans each component independently.
pub fn kruskal(g: &Graph) -> (r: Mst)
    requires
        g.wf(),
    ensures
        r.edges@ == kruskal_spec(*g),
{
    let edges = g.edges();
    let n = g.size();
    let sorted = sort_edges(&edges);
    proof {
        lemma_sort_bounds(edges@, n as int);
    }
    let mut ds = DisjointSet::new(n);
    let mut span: Vec<Edge> = Vec::new();
    let mut i: usize = 0;
    proof {
        assert(roots_of(ds, n as int) =~= init_root(n as int));
        assert(ds.sizes() =~= init_size(n as int));
        assert(sorted@.subrange(0, sorted@.len() as int) =~= sorted@);
    }
    while i < sorted.len()
        invariant
            i <= sorted@.len(),
            ds.wf(),
            ds.len() == n,
            n == g.node_count(),
            sorted@ == sort_by_weight(g.edge_seq()),
            forall|k: int| 0 <= k < sorted@.len() ==> (#[trigger] sorted@[k]).u.0 < n
                && sorted@[k].v.0 < n,
            kruskal_spec(*g) == span@ + kruskal_sel(
                sorted@.subrange(i as int, sorted@.len() as int),
                roots_of(ds, n as int),
                ds.sizes(),
            ),
        decreases sorted@.len() - i,
    {
        let e = sorted[i];
        let ghost pre = ds;
        let ghost rem = sorted@.subrange(i as int, sorted@.len() as int);
        let merged = ds.union(e.u.0 as usize, e.v.0 as usize);
        proof {
            assert(rem[0] == e);
            assert(rem.subrange(1, rem.len() as int) =~= sorted@.subrange(
                i + 1,
                sorted@.len() as int,
            ));
            let ru = pre.root_of(e.u.0 as int);
            let rv = pre.root_of(e.v.0 as int);
            assert(roots_of(pre, n as int)[e.u.0 as int] == ru);
            assert(roots_of(pre, n as int)[e.v.0 as int] == rv);
            if merged {
                let win = if pre.sizes()[ru] >= pre.sizes()[rv] {
                    ru
                } else {
                    rv
                };
                let lose = if pre.sizes()[ru] >= pre.sizes()[rv] {
                    rv
                } else {
                    ru
                };
                assert(roots_of(ds, n as int) =~= merge_root(roots_of(pre, n as int), win, lose));
                assert(ds.sizes() =~= pre.sizes().update(
                    win,
                    (if pre.sizes()[ru] + pre.sizes()[rv] > usize::MAX {
                        usize::MAX as int
                    } else {
                        pre.sizes()[ru] + pre.sizes()[rv]
                    }) as usize,
                ));
                assert(kruskal_sel(rem, roots_of(pre, n as int), pre.sizes()) == seq![e]
                    + kruskal_sel(rem.subrange(1, rem.len() as int), roots_of(ds, n as int),
                ds.sizes()));
            } else {
                assert(roots_of(ds, n as int) =~= roots_of(pre, n as int));
                assert(ds.sizes() =~= pre.sizes());
                assert(kruskal_sel(rem, roots_of(pre, n as int), pre.sizes()) == kruskal_sel(
                    rem.subrange(1, rem.len() as int),
                    roots_of(ds, n as int),
                    ds.sizes(),
                ));
            }
        }
        if merged {
            span.push(e);
            proof {
                assert(span@ + kruskal_sel(
                    sorted@.subrange(i + 1, sorted@.len() as int),
                    roots_of(ds, n as int),
                    ds.sizes(),
                ) =~= kruskal_spec(*g));
            }
        }
        i += 1;
    }
    proof {
        assert(sorted@.subrange(sorted@.len() as int, sorted@.len() as int) =~= Seq::<
            Edge,
        >::empty());
        assert(kruskal_spec(*g) =~= span@);
    }
    Mst { edges: span }
}

} // verus!
