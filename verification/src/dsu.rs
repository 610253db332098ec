//! Disjoint-set forest (union-find) with path compression and union by size.
//!
//! The partition is abstracted by [`DisjointSet::root_of`], the canonical
//! representative of an element's set. Two elements are in the same set
//! exactly when their representatives coincide. A ghost rank sequence,
//! strictly decreasing along parent links, witnesses that the parent
//! forest is acyclic.

use vstd::prelude::*;

verus! {

/// Parent links are in bounds, and a ghost rank strictly decreases along
/// every non-trivial parent link, so every parent chain reaches a root.
pub(crate) open spec fn chain_ok(p: Seq<usize>, r: Seq<nat>) -> bool {
    &&& p.len() == r.len()
    &&& forall|x: int| 0 <= x < p.len() ==> 0 <= #[trigger] p[x] < p.len()
    &&& forall|x: int| 0 <= x < p.len() && p[x] != x ==> r[p[x] as int] < #[trigger] r[x]
}

/// The root reached by following parent links from `x`.
pub(crate) open spec fn root_in(p: Seq<usize>, r: Seq<nat>, x: int) -> int
    decreases r[x],
    when chain_ok(p, r) && 0 <= x < p.len()
{
    if p[x] == x {
        x
    } else {
        root_in(p, r, p[x] as int)
    }
}

/// The root of `x` is a fixed point of the parent map, lies in bounds, and
/// its rank does not exceed the rank of `x`.
proof fn lemma_root_props(p: Seq<usize>, r: Seq<nat>, x: int)
    requires
        chain_ok(p, r),
        0 <= x < p.len(),
    ensures
        0 <= root_in(p, r, x) < p.len(),
        p[root_in(p, r, x)] == root_in(p, r, x),
        r[root_in(p, r, x)] <= r[x],
    decreases r[x],
{
    if p[x] != x {
        lemma_root_props(p, r, p[x] as int);
    }
}

/// Redirecting `x` straight to its root keeps the parent forest acyclic.
proof fn lemma_compress_wf(p: Seq<usize>, r: Seq<nat>, x: int)
    requires
        chain_ok(p, r),
        0 <= x < p.len(),
    ensures
        chain_ok(p.update(x, root_in(p, r, x) as usize), r),
{
    lemma_root_props(p, r, x);
    if p[x] != x {
        lemma_root_props(p, r, p[x] as int);
    }
}

/// Redirecting `x` straight to its root changes no element's root.
proof fn lemma_compress_roots(p: Seq<usize>, r: Seq<nat>, x: int, y: int)
    requires
        chain_ok(p, r),
        0 <= x < p.len(),
        0 <= y < p.len(),
    ensures
        root_in(p.update(x, root_in(p, r, x) as usize), r, y) == root_in(p, r, y),
    decreases r[y],
{
    lemma_compress_wf(p, r, x);
    lemma_root_props(p, r, x);
    let p2 = p.update(x, root_in(p, r, x) as usize);
    if p2[y] == y {
    } else if y == x {
        lemma_root_props(p2, r, root_in(p, r, x));
    } else {
        lemma_compress_roots(p, r, x, p[y] as int);
    }
}

/// The rank assignment that justifies linking root `rb` under root `ra`:
/// every element of `rb`'s tree is lifted above the rank of `ra`.
pub(crate) open spec fn link_rank(p: Seq<usize>, r: Seq<nat>, ra: int, rb: int) -> Seq<nat> {
    Seq::new(r.len(), |y: int| if root_in(p, r, y) == rb {
        (r[y] + r[ra] + 1) as nat
    } else {
        r[y]
    })
}

/// Linking root `rb` under root `ra` keeps the parent forest acyclic,
/// under the lifted rank assignment.
proof fn lemma_link_wf(p: Seq<usize>, r: Seq<nat>, ra: int, rb: int)
    requires
        chain_ok(p, r),
        0 <= ra < p.len(),
        0 <= rb < p.len(),
        p[ra] == ra,
        p[rb] == rb,
        ra != rb,
    ensures
        chain_ok(p.update(rb, ra as usize), link_rank(p, r, ra, rb)),
{
    let p2 = p.update(rb, ra as usize);
    let r2 = link_rank(p, r, ra, rb);
    assert forall|z: int| 0 <= z < p2.len() && p2[z] != z implies r2[p2[z] as int]
        < #[trigger] r2[z] by {
        if z == rb {
            assert(root_in(p, r, ra) == ra);
            assert(root_in(p, r, rb) == rb);
        } else {
            assert(root_in(p, r, z) == root_in(p, r, p[z] as int));
        }
    }
}

/// After linking root `rb` under root `ra`, elements of `rb`'s old tree
/// have root `ra`; every other element keeps its old root.
proof fn lemma_link_roots(p: Seq<usize>, r: Seq<nat>, ra: int, rb: int, y: int)
    requires
        chain_ok(p, r),
        0 <= ra < p.len(),
        0 <= rb < p.len(),
        p[ra] == ra,
        p[rb] == rb,
        ra != rb,
        0 <= y < p.len(),
    ensures
        root_in(p.update(rb, ra as usize), link_rank(p, r, ra, rb), y) == (if root_in(p, r, y)
            == rb {
            ra
        } else {
            root_in(p, r, y)
        }),
    decreases r[y],
{
    lemma_link_wf(p, r, ra, rb);
    let p2 = p.update(rb, ra as usize);
    let r2 = link_rank(p, r, ra, rb);
    assert(root_in(p, r, ra) == ra);
    if p2[y] == y {
    } else if y == rb {
        assert(root_in(p2, r2, ra) == ra);
    } else {
        assert(root_in(p, r, y) == root_in(p, r, p[y] as int));
        lemma_link_roots(p, r, ra, rb, p[y] as int);
    }
}

/// A disjoint-set data structure over the elements `0..n`.
pub struct DisjointSet {
    parent: Vec<usize>,
    size: Vec<usize>,
    rank: Ghost<Seq<nat>>,
}

impl DisjointSet {
    /// The number of elements.
    pub closed spec fn len(self) -> int {
        self.parent@.len() as int
    }

    /// The stored subtree-size counters.
    pub closed spec fn sizes(self) -> Seq<usize> {
        self.size@
    }

    /// Structural invariant: the parent forest is acyclic and the two
    /// backing vectors agree in length.
    pub closed spec fn wf(self) -> bool {
        &&& chain_ok(self.parent@, self.rank@)
        &&& self.size@.len() == self.parent@.len()
    }

    /// The ghost rank of an element; serves as the termination measure of
    /// [`DisjointSet::find`].
    pub closed spec fn rank_of(self, x: int) -> nat {
        self.rank@[x]
    }

    /// The canonical representative of the set containing `x`.
    pub closed spec fn root_of(self, x: int) -> int {
        root_in(self.parent@, self.rank@, x)
    }

    /// Whether `a` and `b` belong to the same set.
    pub open spec fn same_class(self, a: int, b: int) -> bool {
        self.root_of(a) == self.root_of(b)
    }

    /// A canonical representative represents itself: `root_of` is
    /// idempotent, so `find(find(v)) == find(v)`.
    pub proof fn lemma_root_idempotent(self, x: int)
        requires
            self.wf(),
            0 <= x < self.len(),
        ensures
            self.root_of(self.root_of(x)) == self.root_of(x),
            0 <= self.root_of(x) < self.len(),
    {
        lemma_root_props(self.parent@, self.rank@, x);
    }

    /// Creates a new disjoint-set structure with `n` singleton sets.
    pub fn new(n: usize) -> (s: DisjointSet)
        ensures
            s.wf(),
            s.len() == n,
            forall|x: int| 0 <= x < n ==> #[trigger] s.root_of(x) == x,
            s.sizes() == Seq::new(n as nat, |x: int| 1usize),
    {
        let mut parent: Vec<usize> = Vec::new();
        let mut size: Vec<usize> = Vec::new();
        let mut i: usize = 0;
        while i < n
            invariant
                i <= n,
                parent@.len() == i,
                size@.len() == i,
                forall|j: int| 0 <= j < i ==> #[trigger] parent@[j] == j,
                forall|j: int| 0 <= j < i ==> #[trigger] size@[j] == 1usize,
            decreases n - i,
        {
            parent.push(i);
            size.push(1);
            i += 1;
        }
        let s = DisjointSet { parent, size, rank: Ghost(Seq::new(n as nat, |x: int| 0nat)) };
        proof {
            assert(s.sizes() =~= Seq::new(n as nat, |x: int| 1usize));
            assert forall|x: int| 0 <= x < n implies #[trigger] s.root_of(x) == x by {
                assert(s.parent@[x] == x);
            }
        }
        s
    }

    /// Finds the representative (root) of the set containing element `v`,
    /// compressing the path it walks. The partition itself is unchanged:
    /// every element keeps its representative.
    pub fn find(&mut self, v: usize) -> (r: usize)
        requires
            old(self).wf(),
            v < old(self).len(),
        ensures
            final(self).wf(),
            final(self).len() == old(self).len(),
            final(self).sizes() == old(self).sizes(),
            r == old(self).root_of(v as int),
            r < old(self).len(),
            final(self).root_of(r as int) == r,
            forall|x: int|
                0 <= x < old(self).len() ==> #[trigger] final(self).root_of(x) == old(
                    self,
                ).root_of(x),
        decreases old(self).rank_of(v as int),
    {
        proof {
            lemma_root_props(self.parent@, self.rank@, v as int);
        }
        let p = self.parent[v];
        if p == v {
            return v;
        }
        let ghost pre = *self;
        let r = self.find(p);
        let ghost mid = *self;
        proof {
            assert(root_in(pre.parent@, pre.rank@, v as int) == root_in(
                pre.parent@,
                pre.rank@,
                p as int,
            ));
            assert(mid.root_of(v as int) == pre.root_of(v as int));
            assert(r == root_in(mid.parent@, mid.rank@, v as int));
            lemma_compress_wf(mid.parent@, mid.rank@, v as int);
        }
        self.parent.set(v, r);
        proof {
            assert(self.parent@ == mid.parent@.update(
                v as int,
                root_in(mid.parent@, mid.rank@, v as int) as usize,
            ));
            assert forall|x: int| 0 <= x < old(self).len() implies #[trigger] self.root_of(x)
                == old(self).root_of(x) by {
                lemma_compress_roots(mid.parent@, mid.rank@, v as int, x);
                assert(mid.root_of(x) == pre.root_of(x));
            }
        }
        r
    }

    /// Unites the sets containing `a` and `b` by linking the root of the
    /// smaller tree (by stored size) under the root of the larger, ties in
    /// favour of `a`'s root. Returns whether two distinct sets were merged.
    pub fn union(&mut self, a: usize, b: usize) -> (merged: bool)
        requires
            old(self).wf(),
            a < old(self).len(),
            b < old(self).len(),
        ensures
            final(self).wf(),
            final(self).len() == old(self).len(),
            merged == !old(self).same_class(a as int, b as int),
            !merged ==> final(self).sizes() == old(self).sizes() && (forall|x: int|
                0 <= x < old(self).len() ==> #[trigger] final(self).root_of(x) == old(
                    self,
                ).root_of(x)),
            merged ==> ({
                let ra = old(self).root_of(a as int);
                let rb = old(self).root_of(b as int);
                let win = if old(self).sizes()[ra] >= old(self).sizes()[rb] {
                    ra
                } else {
                    rb
                };
                let lose = if old(self).sizes()[ra] >= old(self).sizes()[rb] {
                    rb
                } else {
                    ra
                };
                &&& forall|x: int|
                    0 <= x < old(self).len() ==> #[trigger] final(self).root_of(x) == (if old(
                        self,
                    ).root_of(x) == lose {
                        win
                    } else {
                        old(self).root_of(x)
                    })
                &&& final(self).sizes() == old(self).sizes().update(
                    win,
                    (if old(self).sizes()[ra] + old(self).sizes()[rb] > usize::MAX {
                        usize::MAX as int
                    } else {
                        old(self).sizes()[ra] + old(self).sizes()[rb]
                    }) as usize,
                )
            }),
    {
        let ra = self.find(a);
        let rb = self.find(b);
        let ghost mid = *self;
        proof {
            assert forall|x: int| 0 <= x < old(self).len() implies #[trigger] mid.root_of(x)
                == old(self).root_of(x) by {}
            assert(mid.root_of(a as int) == ra && mid.root_of(b as int) == rb);
            lemma_root_props(mid.parent@, mid.rank@, a as int);
            lemma_root_props(mid.parent@, mid.rank@, b as int);
            assert(mid.parent@[ra as int] == ra && mid.parent@[rb as int] == rb);
        }
        if ra == rb {
            return false;
        }
        let sa = self.size[ra];
        let sb = self.size[rb];
        // stored sizes are bounded by the element count in any state
        // reachable through this interface, so saturation cannot occur
        // there; it is stated so that the update is total
        if sa >= sb {
            self.parent.set(rb, ra);
            self.size.set(ra, sa.saturating_add(sb));
            proof {
                self.rank = Ghost(link_rank(mid.parent@, mid.rank@, ra as int, rb as int));
                lemma_link_wf(mid.parent@, mid.rank@, ra as int, rb as int);
                assert(self.parent@ == mid.parent@.update(rb as int, ra as usize));
                assert forall|x: int| 0 <= x < old(self).len() implies #[trigger] self.root_of(x)
                    == (if old(self).root_of(x) == rb as int {
                    ra as int
                } else {
                    old(self).root_of(x)
                }) by {
                    lemma_link_roots(mid.parent@, mid.rank@, ra as int, rb as int, x);
                    assert(mid.root_of(x) == old(self).root_of(x));
                }
            }
        } else {
            self.parent.set(ra, rb);
            self.size.set(rb, sb.saturating_add(sa));
            proof {
                self.rank = Ghost(link_rank(mid.parent@, mid.rank@, rb as int, ra as int));
                lemma_link_wf(mid.parent@, mid.rank@, rb as int, ra as int);
                assert(self.parent@ == mid.parent@.update(ra as int, rb as usize));
                assert forall|x: int| 0 <= x < old(self).len() implies #[trigger] self.root_of(x)
                    == (if old(self).root_of(x) == ra as int {
                    rb as int
                } else {
                    old(self).root_of(x)
                }) by {
                    lemma_link_roots(mid.parent@, mid.rank@, rb as int, ra as int, x);
                    assert(mid.root_of(x) == old(self).root_of(x));
                }
            }
        }
        true
    }
}

} // verus!
