//! Path-compressed disjoint-set over time-slice indices.
//!
//! The timeline only ever merges a fully consumed slice into the slice to its
//! right, so merges always point towards the element with the larger root.
//! Every parent pointer therefore points upwards (`i <= parent[i]`), which
//! keeps the forest acyclic by construction and gives `find` a simple
//! termination measure.

use vstd::prelude::*;

verus! {

/// Every parent pointer stays inside the structure and never points left.
pub open spec fn parents_wf(p: Seq<usize>) -> bool {
    forall|i: int| 0 <= i < p.len() ==> i <= #[trigger] p[i] < p.len()
}

/// The representative that `i` reaches by following parent pointers in `p`.
pub open spec fn root_of(p: Seq<usize>, i: int) -> int
    recommends
        parents_wf(p),
        0 <= i < p.len(),
    decreases p.len() - i
        when 0 <= i < p.len() && parents_wf(p)
{
    if p[i] == i {
        i
    } else {
        root_of(p, p[i] as int)
    }
}

/// A root is at least its argument and is itself a fixed point of `p`.
pub proof fn lemma_root_of_bounds(p: Seq<usize>, i: int)
    requires
        parents_wf(p),
        0 <= i < p.len(),
    ensures
        i <= root_of(p, i) < p.len(),
        p[root_of(p, i)] == root_of(p, i),
    decreases p.len() - i,
{
    if p[i] != i {
        lemma_root_of_bounds(p, p[i] as int);
    }
}

/// `root_of` is idempotent: the root of a root is itself.
pub proof fn lemma_root_of_idempotent(p: Seq<usize>, i: int)
    requires
        parents_wf(p),
        0 <= i < p.len(),
    ensures
        root_of(p, root_of(p, i)) == root_of(p, i),
{
    lemma_root_of_bounds(p, i);
}

/// An element is a fixed point of `p` exactly when it is its own root.
pub proof fn lemma_root_of_self(p: Seq<usize>, i: int)
    requires
        parents_wf(p),
        0 <= i < p.len(),
    ensures
        root_of(p, i) == i <==> p[i] == i,
{
    if p[i] != i {
        lemma_root_of_bounds(p, p[i] as int);
    }
}

/// Redirecting one element straight to its own root changes no root at all:
/// this is why path compression is invisible to callers.
proof fn lemma_compress_keeps_root(p: Seq<usize>, i: int, r: int, j: int)
    requires
        parents_wf(p),
        0 <= i < p.len(),
        root_of(p, i) == r,
        0 <= j < p.len(),
    ensures
        parents_wf(p.update(i, r as usize)),
        root_of(p.update(i, r as usize), j) == root_of(p, j),
    decreases p.len() - j,
{
    lemma_root_of_bounds(p, i);
    let p2 = p.update(i, r as usize);
    assert(parents_wf(p2));
    if j == i {
        if r != i {
            assert(p2[r] == p[r]);
            assert(root_of(p2, r) == r);
        }
    } else if p[j] != j {
        lemma_compress_keeps_root(p, i, r, p[j] as int);
    }
}

/// Hanging root `a` under a strictly larger root `b` sends everything that
/// pointed to `a` to `b` and leaves every other class alone.
proof fn lemma_union_roots(p: Seq<usize>, a: int, b: int, j: int)
    requires
        parents_wf(p),
        0 <= a < p.len(),
        0 <= b < p.len(),
        a < b,
        p[a] == a,
        p[b] == b,
        0 <= j < p.len(),
    ensures
        parents_wf(p.update(a, b as usize)),
        root_of(p.update(a, b as usize), j) == if root_of(p, j) == a {
            b
        } else {
            root_of(p, j)
        },
    decreases p.len() - j,
{
    let p2 = p.update(a, b as usize);
    assert(parents_wf(p2));
    if j == a {
        assert(root_of(p2, b) == b);
    } else if p[j] != j {
        lemma_union_roots(p, a, b, p[j] as int);
    }
}

/// Classical disjoint-set over slice indices `0..n`, with path compression
/// in `find` and asymmetric `union` (the timeline merges slices in strictly
/// increasing order, so no union-by-rank is needed).
pub struct UnionFind {
    parent: Vec<usize>,
}

impl UnionFind {
    pub closed spec fn wf(self) -> bool {
        parents_wf(self.parent@)
    }

    pub closed spec fn len(self) -> nat {
        self.parent@.len()
    }

    /// The representative of `i`'s class.
    pub closed spec fn root(self, i: int) -> int {
        root_of(self.parent@, i)
    }

    /// `n` singletons: every element is its own root.
    pub fn new(n: usize) -> (uf: UnionFind)
        ensures
            uf.wf(),
            uf.len() == n,
            forall|i: int| 0 <= i < n ==> #[trigger] uf.root(i) == i,
    {
        let mut parent: Vec<usize> = Vec::new();
        let mut i: usize = 0;
        while i < n
            invariant
                i <= n,
                parent@.len() == i,
                forall|j: int| 0 <= j < i ==> #[trigger] parent@[j] == j,
            decreases n - i,
        {
            parent.push(i);
            i = i + 1;
        }
        let uf = UnionFind { parent };
        assert forall|k: int| 0 <= k < n implies #[trigger] uf.root(k) == k by {
            assert(uf.parent@[k] == k);
        }
        uf
    }

    /// Returns the representative of `x`'s class, compressing the path it
    /// walked.  Compression re-shapes the forest but changes no class.
    pub fn find(&mut self, x: usize) -> (r: usize)
        requires
            old(self).wf(),
            x < old(self).len(),
        ensures
            final(self).wf(),
            final(self).len() == old(self).len(),
            forall|j: int| 0 <= j < final(self).len() ==>
                #[trigger] final(self).root(j) == old(self).root(j),
            r == old(self).root(x as int),
            final(self).root(r as int) == r,
            r < final(self).len(),
    {
        proof {
            lemma_root_of_bounds(self.parent@, x as int);
        }
        let ghost p0 = self.parent@;
        // First walk: locate the root without mutating anything.
        let mut r: usize = x;
        while self.parent[r] != r
            invariant
                self.parent@ == p0,
                parents_wf(p0),
                r < p0.len(),
                root_of(p0, r as int) == root_of(p0, x as int),
            decreases p0.len() - r,
        {
            r = self.parent[r];
        }
        assert(r == root_of(p0, x as int));
        // Second walk: point every node on the path straight at the root.
        let mut i: usize = x;
        while self.parent[i] != i
            invariant
                self.wf(),
                self.parent@.len() == p0.len(),
                parents_wf(p0),
                i < p0.len(),
                r < p0.len(),
                self.parent@[r as int] == r,
                root_of(self.parent@, i as int) == r,
                forall|j: int| 0 <= j < p0.len() ==>
                    #[trigger] root_of(self.parent@, j) == root_of(p0, j),
            decreases p0.len() - i,
        {
            let next = self.parent[i];
            proof {
                assert(root_of(self.parent@, next as int) == r);
                assert forall|j: int| 0 <= j < p0.len() implies
                    #[trigger] root_of(self.parent@.update(i as int, r), j)
                        == root_of(self.parent@, j) by {
                    lemma_compress_keeps_root(self.parent@, i as int, r as int, j);
                }
                lemma_compress_keeps_root(self.parent@, i as int, r as int, i as int);
            }
            self.parent.set(i, r);
            i = next;
        }
        r
    }

    /// Merges the class of `x` into the class of `y` by re-parenting `x`'s
    /// root, exactly when the two classes differ.  The timeline always calls
    /// this with the left class rooted below the right one.
    pub fn union(&mut self, x: usize, y: usize) -> (merged: bool)
        requires
            old(self).wf(),
            x < old(self).len(),
            y < old(self).len(),
            old(self).root(x as int) <= old(self).root(y as int),
        ensures
            final(self).wf(),
            final(self).len() == old(self).len(),
            merged == (old(self).root(x as int) != old(self).root(y as int)),
            forall|j: int| 0 <= j < final(self).len() ==>
                #[trigger] final(self).root(j) == if old(self).root(j) == old(self).root(
                    x as int,
                ) && merged {
                    old(self).root(y as int)
                } else {
                    old(self).root(j)
                },
    {
        let root_x = self.find(x);
        let ghost uf1 = *self;
        let root_y = self.find(y);
        let ghost uf2 = *self;
        proof {
            assert(uf1.root(y as int) == old(self).root(y as int));
            assert(uf2.root(root_x as int) == uf1.root(root_x as int));
            assert(uf1.root(root_x as int) == root_x);
            assert(uf2.root(root_y as int) == root_y);
        }
        if root_x == root_y {
            proof {
                assert forall|j: int| 0 <= j < self.len() implies #[trigger] self.root(j)
                    == old(self).root(j) by {
                    assert(uf2.root(j) == uf1.root(j));
                    assert(uf1.root(j) == old(self).root(j));
                }
            }
            return false;
        }
        proof {
            lemma_root_of_self(uf2.parent@, root_x as int);
            lemma_root_of_self(uf2.parent@, root_y as int);
        }
        self.parent.set(root_x, root_y);
        proof {
            lemma_union_roots(uf2.parent@, root_x as int, root_y as int, root_x as int);
            assert(self.parent@ == uf2.parent@.update(root_x as int, root_y));
            assert(self.wf());
            assert forall|j: int| 0 <= j < self.len() implies #[trigger] self.root(j) == (
                if old(self).root(j) == old(self).root(x as int) {
                    old(self).root(y as int)
                } else {
                    old(self).root(j)
                }) by {
                lemma_union_roots(uf2.parent@, root_x as int, root_y as int, j);
                assert(uf2.root(j) == uf1.root(j));
                assert(uf1.root(j) == old(self).root(j));
            }
        }
        true
    }

    /// Total element count.
    pub fn size(&self) -> (n: usize)
        ensures
            n == self.len(),
    {
        self.parent.len()
    }
}

} // verus!
