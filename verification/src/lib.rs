//! A disjoint-set (union-find) structure over a fixed universe of
//! integer-labelled elements.
//!
//! The structure keeps a forest of parent pointers in a flat array: an entry
//! that points to itself is a root, and the root's id is the canonical
//! identifier of the whole set. Lookups apply path halving (every traversed
//! node's parent pointer is advanced to its grandparent), and merges are
//! biased by a per-root weight accumulator to which the absorbed root's id is
//! added.

use vstd::prelude::*;

mod counting;

verus! {

use crate::counting::{
    roots_count, lemma_roots_count_bounds, lemma_roots_count_update,
    lemma_roots_count_at_least_one, lemma_roots_count_identity,
};

/// The single error kind: an element id outside the universe `[0, n)`.
#[derive(Clone, Copy, Debug, PartialEq, Eq, Structural)]
pub enum UnionFindError {
    IndexOutOfRange,
}

/// A disjoint-set forest over elements `0 .. n`.
///
/// `id[k]` is the parent of `k` (a root points to itself) and `sz[k]` is the
/// merge-direction weight, read and written only at roots. The ghost field
/// `rep` names the root of every element's tree, and `dist` is a measure that
/// strictly decreases along parent pointers, which rules out cycles.
pub struct UnionFind {
    id: Vec<usize>,
    sz: Vec<usize>,
    rep: Ghost<Seq<int>>,
    dist: Ghost<Seq<nat>>,
}

impl UnionFind {
    /// Number of elements in the universe.
    pub closed spec fn len(self) -> nat {
        self.id@.len()
    }

    /// The parent pointers; `parents()[k] == k` exactly when `k` is a root.
    pub closed spec fn parents(self) -> Seq<usize> {
        self.id@
    }

    /// The merge-direction weights, one per element.
    pub closed spec fn weights(self) -> Seq<usize> {
        self.sz@
    }

    /// The canonical set identifier of element `k`: the root of its tree.
    pub closed spec fn rep_of(self, k: int) -> int {
        self.rep@[k]
    }

    /// Two elements are in the same set exactly when they share a root.
    pub open spec fn connected(self, p: int, q: int) -> bool {
        self.rep_of(p) == self.rep_of(q)
    }

    /// Well-formedness of the forest: parent pointers stay in range, `rep`
    /// is constant along parent pointers and self-fixed exactly at roots,
    /// `dist` strictly decreases toward the root, and every weight is small
    /// enough that absorbing one more root id cannot overflow.
    pub closed spec fn wf(self) -> bool {
        let n = self.id@.len() as int;
        &&& self.sz@.len() == n
        &&& self.rep@.len() == n
        &&& self.dist@.len() == n
        &&& n * n <= usize::MAX as int
        &&& forall|k: int| 0 <= k < n ==> (#[trigger] self.id@[k]) < n
        &&& forall|k: int| 0 <= k < n ==> 0 <= #[trigger] self.rep@[k] < n
        &&& forall|k: int| 0 <= k < n ==> self.rep@[#[trigger] self.id@[k] as int] == self.rep@[k]
        &&& forall|k: int| 0 <= k < n ==> self.id@[#[trigger] self.rep@[k]] as int == self.rep@[k]
        &&& forall|k: int| 0 <= k < n && #[trigger] self.id@[k] as int == k ==> self.rep@[k] == k
        &&& forall|k: int|
            0 <= k < n && #[trigger] self.id@[k] as int != k
                ==> self.dist@[k] > self.dist@[self.id@[k] as int]
        &&& forall|k: int|
            0 <= k < n ==> #[trigger] self.sz@[k] as int <= (n - roots_count(self.id@, n)) * n
    }

    /// Create a structure in which each of the `n` elements is its own
    /// singleton set: every parent pointer is a self-loop and every weight
    /// is zero. The bound on `n` keeps the weight accumulator within
    /// machine-integer range for any sequence of merges.
    pub fn new(n: usize) -> (r: UnionFind)
        requires
            n * n <= usize::MAX,
        ensures
            r.wf(),
            r.len() == n,
            r.parents().len() == n,
            r.weights().len() == n,
            forall|k: int| 0 <= k < n ==> #[trigger] r.parents()[k] as int == k,
            forall|k: int| 0 <= k < n ==> #[trigger] r.weights()[k] == 0usize,
            forall|k: int| 0 <= k < n ==> #[trigger] r.rep_of(k) == k,
    {
        let mut ids: Vec<usize> = Vec::new();
        let mut k: usize = 0;
        while k < n
            invariant
                k <= n,
                ids@.len() == k,
                forall|j: int| 0 <= j < k ==> #[trigger] ids@[j] as int == j,
            decreases n - k,
        {
            ids.push(k);
            k = k + 1;
        }
        let mut szs: Vec<usize> = Vec::new();
        let mut m: usize = 0;
        while m < n
            invariant
                m <= n,
                szs@.len() == m,
                forall|j: int| 0 <= j < m ==> #[trigger] szs@[j] == 0usize,
            decreases n - m,
        {
            szs.push(0);
            m = m + 1;
        }
        let r = UnionFind {
            id: ids,
            sz: szs,
            rep: Ghost(Seq::new(n as nat, |j: int| j)),
            dist: Ghost(Seq::new(n as nat, |j: int| 0nat)),
        };
        proof {
            lemma_roots_count_identity(r.id@, n as int);
        }
        r
    }

    /// Find the set identifier of `p`: the root of its tree.
    ///
    /// Traversal applies path halving: each visited node's parent pointer is
    /// advanced to its grandparent, so later lookups get shorter. Weights and
    /// the partition itself are untouched; only tree shapes change.
    pub fn find(&mut self, p: usize) -> (r: usize)
        requires
            old(self).wf(),
            p < old(self).len(),
        ensures
            final(self).wf(),
            final(self).len() == old(self).len(),
            final(self).parents().len() == old(self).parents().len(),
            final(self).weights() == old(self).weights(),
            forall|k: int|
                0 <= k < old(self).len() ==> #[trigger] final(self).rep_of(k) == old(self).rep_of(
                    k,
                ),
            r as int == old(self).rep_of(p as int),
            r < old(self).len(),
            final(self).parents()[r as int] == r,
            forall|k: int|
                0 <= k < old(self).len() && old(self).parents()[k] as int == k
                    ==> #[trigger] final(self).parents()[k] as int == k,
    {
        let ghost n: int = self.id@.len() as int;
        let ghost rep0: Seq<int> = self.rep@;
        let ghost dist0: Seq<nat> = self.dist@;
        let ghost sz0: Seq<usize> = self.sz@;
        let mut i: usize = p;
        while self.id[i] != i
            invariant
                self.wf(),
                self.id@.len() == n,
                self.rep@ == rep0,
                self.dist@ == dist0,
                self.sz@ == sz0,
                (i as int) < n,
                self.rep@[i as int] == rep0[p as int],
            decreases self.dist@[i as int],
        {
            let ghost s0: Seq<usize> = self.id@;
            let pi: usize = self.id[i];
            let gpi: usize = self.id[pi];
            proof {
                // `i` is not a root here, so its grandparent sits strictly
                // lower in the `dist` measure than `i` itself.
                assert(self.dist@[i as int] > self.dist@[pi as int]);
                if s0[pi as int] as int != pi as int {
                    assert(self.dist@[pi as int] > self.dist@[gpi as int]);
                }
                assert(self.dist@[gpi as int] < self.dist@[i as int]);
                assert(gpi as int != i as int);
                lemma_roots_count_update(s0, n, i as int, gpi);
            }
            self.id.set(i, gpi);
            proof {
                let s1 = self.id@;
                assert(s1 == s0.update(i as int, gpi));
                // The halved pointer still leads to the same root.
                assert(rep0[gpi as int] == rep0[i as int]);
                // Roots are untouched: a root position never equals `i`.
                assert forall|k: int| 0 <= k < n implies self.id@[#[trigger] self.rep@[k]] as int
                    == self.rep@[k] by {
                    assert(s0[rep0[k]] as int == rep0[k]);
                }
                assert forall|k: int| 0 <= k < n implies self.rep@[#[trigger] self.id@[k] as int]
                    == self.rep@[k] by {
                    if k != i as int {
                        assert(s0[k] == s1[k]);
                    }
                }
                assert forall|k: int|
                    0 <= k < n && #[trigger] self.id@[k] as int != k implies self.dist@[k]
                    > self.dist@[self.id@[k] as int] by {
                    if k != i as int {
                        assert(s0[k] == s1[k]);
                    }
                }
                assert(roots_count(s1, n) == roots_count(s0, n));
                assert(self.wf());
            }
            i = gpi;
        }
        i
    }

    /// Determine whether `p` and `q` are in the same set. Path halving is
    /// applied to both lookup paths, but the partition does not change.
    pub fn cnx(&mut self, p: usize, q: usize) -> (r: bool)
        requires
            old(self).wf(),
            p < old(self).len(),
            q < old(self).len(),
        ensures
            final(self).wf(),
            final(self).len() == old(self).len(),
            final(self).parents().len() == old(self).parents().len(),
            final(self).weights() == old(self).weights(),
            forall|k: int|
                0 <= k < old(self).len() ==> #[trigger] final(self).rep_of(k) == old(self).rep_of(
                    k,
                ),
            r == old(self).connected(p as int, q as int),
    {
        let a = self.find(p);
        let b = self.find(q);
        a == b
    }

    /// Attach the root `l` under the root `w` and add `l` to `w`'s weight.
    fn link(&mut self, l: usize, w: usize)
        requires
            old(self).wf(),
            l < old(self).len(),
            w < old(self).len(),
            l != w,
            old(self).parents()[l as int] as int == l as int,
            old(self).parents()[w as int] as int == w as int,
        ensures
            final(self).wf(),
            final(self).len() == old(self).len(),
            final(self).weights().len() == old(self).weights().len(),
            forall|k: int|
                0 <= k < old(self).len() && k != w ==> #[trigger] final(self).weights()[k] == old(
                    self,
                ).weights()[k],
            final(self).weights()[w as int] as int == old(self).weights()[w as int] as int + l,
            forall|k: int|
                0 <= k < old(self).len() ==> #[trigger] final(self).rep_of(k) == (if old(
                    self,
                ).rep_of(k) == l as int {
                    w as int
                } else {
                    old(self).rep_of(k)
                }),
    {
        let ghost n: int = self.id@.len() as int;
        let ghost s0: Seq<usize> = self.id@;
        let ghost rep0: Seq<int> = self.rep@;
        let ghost dist0: Seq<nat> = self.dist@;
        proof {
            // Both roots are their own representatives.
            assert(rep0[l as int] == l as int);
            assert(rep0[w as int] == w as int);
            // The weight at `w` leaves room for one more id below `n`:
            // with at least one root left, sz[w] <= (n - 1) * n.
            let rc = roots_count(s0, n);
            lemma_roots_count_at_least_one(s0, n, w as int);
            lemma_roots_count_bounds(s0, n);
            assert((n - rc) * n <= (n - 1) * n) by (nonlinear_arith)
                requires
                    1 <= rc,
                    0 <= n,
            ;
            assert((n - 1) * n + n == n * n) by (nonlinear_arith);
        }
        let nw: usize = self.sz[w] + l;
        self.sz.set(w, nw);
        self.id.set(l, w);
        self.rep = Ghost(
            Seq::new(n as nat, |k: int| if rep0[k] == l as int { w as int } else { rep0[k] }),
        );
        self.dist = Ghost(
            Seq::new(
                n as nat,
                |k: int|
                    if rep0[k] == l as int {
                        (dist0[k] + dist0[w as int] + 1) as nat
                    } else {
                        dist0[k]
                    },
            ),
        );
        proof {
            let s1 = self.id@;
            let rep1 = self.rep@;
            let dist1 = self.dist@;
            assert(s1 == s0.update(l as int, w));
            // `rep` stays constant along every surviving parent pointer.
            assert forall|k: int| 0 <= k < n implies rep1[#[trigger] s1[k] as int] == rep1[k] by {
                if k != l as int {
                    assert(s1[k] == s0[k]);
                    assert(rep0[s0[k] as int] == rep0[k]);
                }
            }
            // Every representative still names a root.
            assert forall|k: int| 0 <= k < n implies s1[#[trigger] rep1[k]] as int == rep1[k] by {
                assert(s0[rep0[k]] as int == rep0[k]);
            }
            // The `dist` measure still strictly decreases toward the root.
            assert forall|k: int| 0 <= k < n && #[trigger] s1[k] as int != k implies dist1[k]
                > dist1[s1[k] as int] by {
                if k != l as int {
                    assert(s1[k] == s0[k]);
                    assert(rep0[s0[k] as int] == rep0[k]);
                    assert(dist0[k] > dist0[s0[k] as int]);
                }
            }
            // Exactly one root was consumed, which keeps the weight bound.
            lemma_roots_count_update(s0, n, l as int, w);
            let rc0 = roots_count(s0, n);
            let rc1 = roots_count(s1, n);
            assert(rc1 == rc0 - 1);
            assert forall|k: int| 0 <= k < n implies #[trigger] self.sz@[k] as int <= (n - rc1)
                * n by {
                assert((n - rc0) * n + n == (n - rc0 + 1) * n) by (nonlinear_arith);
                if k != w as int {
                    assert(self.sz@[k] == old(self).sz@[k]);
                    assert(0 <= n ==> (n - rc0) * n <= (n - rc0 + 1) * n) by (nonlinear_arith);
                }
            }
            assert(self.wf());
        }
    }

    /// Merge the sets of `p` and `q`.
    ///
    /// If the two elements already share a root nothing changes. Otherwise
    /// the root with the smaller weight is attached under the other (ties
    /// keep `p`'s root on top), and the absorbed root's id — not a size or a
    /// rank — is added to the surviving root's weight.
    pub fn union(&mut self, p: usize, q: usize)
        requires
            old(self).wf(),
            p < old(self).len(),
            q < old(self).len(),
        ensures
            union_post(*old(self), *final(self), p as int, q as int),
    {
        let i = self.find(p);
        let j = self.find(q);
        if i == j {
            return;
        }
        proof {
            // `i` and `j` are still roots: representatives are untouched by
            // `find`, and a representative position is always a root.
            assert(i as int == old(self).rep@[p as int]);
            assert(old(self).id@[old(self).rep@[p as int]] as int == old(self).rep@[p as int]);
            assert(old(self).rep@[i as int] == i as int);
            assert(self.rep_of(i as int) == old(self).rep_of(i as int));
            assert(self.rep@[i as int] == i as int);
            assert(self.id@[self.rep@[i as int]] as int == self.rep@[i as int]);
            assert(j as int == old(self).rep@[q as int]);
            assert(old(self).id@[old(self).rep@[q as int]] as int == old(self).rep@[q as int]);
            assert(old(self).rep@[j as int] == j as int);
            assert(self.rep_of(j as int) == old(self).rep_of(j as int));
            assert(self.rep@[j as int] == j as int);
            assert(self.id@[self.rep@[j as int]] as int == self.rep@[j as int]);
        }
        if self.sz[i] < self.sz[j] {
            self.link(i, j);
        } else {
            self.link(j, i);
        }
    }

    /// The parent pointer of `k`, as stored; `k` is a root when this is `k`.
    pub fn parent(&self, k: usize) -> (r: usize)
        requires
            k < self.len(),
        ensures
            r == self.parents()[k as int],
    {
        self.id[k]
    }

    /// The merge-direction weight currently stored for `k`.
    pub fn weight(&self, k: usize) -> (r: usize)
        requires
            self.wf(),
            k < self.len(),
        ensures
            r == self.weights()[k as int],
    {
        self.sz[k]
    }

    /// `find`, with the element id checked: an id outside `[0, n)` yields
    /// `IndexOutOfRange` and leaves the structure untouched.
    pub fn try_find(&mut self, p: usize) -> (r: Result<usize, UnionFindError>)
        requires
            old(self).wf(),
        ensures
            final(self).wf(),
            final(self).len() == old(self).len(),
            final(self).weights() == old(self).weights(),
            forall|k: int|
                0 <= k < old(self).len() ==> #[trigger] final(self).rep_of(k) == old(self).rep_of(
                    k,
                ),
            p < old(self).len() ==> (r matches Ok(x) && x as int == old(self).rep_of(p as int)),
            p >= old(self).len() ==> r == Err::<usize, UnionFindError>(
                UnionFindError::IndexOutOfRange,
            ) && final(self).parents() == old(self).parents(),
    {
        if p < self.id.len() {
            Ok(self.find(p))
        } else {
            Err(UnionFindError::IndexOutOfRange)
        }
    }

    /// `cnx`, with both element ids checked: any id outside `[0, n)` yields
    /// `IndexOutOfRange` and leaves the structure untouched.
    pub fn try_cnx(&mut self, p: usize, q: usize) -> (r: Result<bool, UnionFindError>)
        requires
            old(self).wf(),
        ensures
            final(self).wf(),
            final(self).len() == old(self).len(),
            final(self).weights() == old(self).weights(),
            forall|k: int|
                0 <= k < old(self).len() ==> #[trigger] final(self).rep_of(k) == old(self).rep_of(
                    k,
                ),
            p < old(self).len() && q < old(self).len() ==> (r matches Ok(c) && c == old(
                self,
            ).connected(p as int, q as int)),
            !(p < old(self).len() && q < old(self).len()) ==> r == Err::<bool, UnionFindError>(
                UnionFindError::IndexOutOfRange,
            ) && final(self).parents() == old(self).parents(),
    {
        if p < self.id.len() && q < self.id.len() {
            Ok(self.cnx(p, q))
        } else {
            Err(UnionFindError::IndexOutOfRange)
        }
    }

    /// `union`, with both element ids checked up front: any id outside
    /// `[0, n)` yields `IndexOutOfRange` before anything is mutated.
    pub fn try_union(&mut self, p: usize, q: usize) -> (r: Result<(), UnionFindError>)
        requires
            old(self).wf(),
        ensures
            final(self).wf(),
            final(self).len() == old(self).len(),
            p < old(self).len() && q < old(self).len() ==> r is Ok && union_post(
                *old(self),
                *final(self),
                p as int,
                q as int,
            ),
            !(p < old(self).len() && q < old(self).len()) ==> r == Err::<(), UnionFindError>(
                UnionFindError::IndexOutOfRange,
            ) && final(self).parents() == old(self).parents() && final(self).weights() == old(
                self,
            ).weights() && forall|k: int|
                0 <= k < old(self).len() ==> #[trigger] final(self).rep_of(k) == old(self).rep_of(
                    k,
                ),
    {
        if p < self.id.len() && q < self.id.len() {
            self.union(p, q);
            Ok(())
        } else {
            Err(UnionFindError::IndexOutOfRange)
        }
    }
}

/// The exact effect of `union(p, q)` on a well-formed structure `pre`,
/// relating it to the resulting structure `post`.
///
/// When `p` and `q` already share a root, weights and representatives are
/// unchanged. Otherwise the root of smaller weight (`p`'s root on a tie is
/// kept on top) is absorbed: every element of the losing class is
/// re-represented by the winning root, and the loser's id is added to the
/// winner's weight. Lookup paths may be rewritten by the embedded `find`
/// calls, so parent pointers themselves are not part of this relation.
pub open spec fn union_post(pre: UnionFind, post: UnionFind, p: int, q: int) -> bool {
    let i = pre.rep_of(p);
    let j = pre.rep_of(q);
    &&& post.wf()
    &&& post.len() == pre.len()
    &&& post.weights().len() == pre.weights().len()
    &&& (i == j ==> {
        &&& post.weights() == pre.weights()
        &&& forall|k: int| 0 <= k < pre.len() ==> #[trigger] post.rep_of(k) == pre.rep_of(k)
    })
    &&& (i != j && pre.weights()[i] < pre.weights()[j] ==> {
        &&& forall|k: int|
            0 <= k < pre.len() && k != j ==> #[trigger] post.weights()[k] == pre.weights()[k]
        &&& post.weights()[j] as int == pre.weights()[j] as int + i
        &&& forall|k: int|
            0 <= k < pre.len() ==> #[trigger] post.rep_of(k) == (if pre.rep_of(k) == i {
                j
            } else {
                pre.rep_of(k)
            })
    })
    &&& (i != j && !(pre.weights()[i] < pre.weights()[j]) ==> {
        &&& forall|k: int|
            0 <= k < pre.len() && k != i ==> #[trigger] post.weights()[k] == pre.weights()[k]
        &&& post.weights()[i] as int == pre.weights()[i] as int + j
        &&& forall|k: int|
            0 <= k < pre.len() ==> #[trigger] post.rep_of(k) == (if pre.rep_of(k) == j {
                i
            } else {
                pre.rep_of(k)
            })
    })
}

/// Connectivity is reflexive: every valid element is connected to itself.
pub proof fn lemma_connected_reflexive(u: UnionFind, p: int)
    requires
        u.wf(),
        0 <= p < u.len(),
    ensures
        u.connected(p, p),
{
}

/// Connectivity is symmetric: the two lookup orders agree.
pub proof fn lemma_connected_symmetric(u: UnionFind, p: int, q: int)
    requires
        u.wf(),
        0 <= p < u.len(),
        0 <= q < u.len(),
    ensures
        u.connected(p, q) == u.connected(q, p),
{
}

/// After `union(p, q)`, two elements are connected exactly when they already
/// were, or one was connected to `p` and the other to `q`.
pub proof fn lemma_union_connectivity(
    pre: UnionFind,
    post: UnionFind,
    p: int,
    q: int,
    a: int,
    b: int,
)
    requires
        pre.wf(),
        0 <= p < pre.len(),
        0 <= q < pre.len(),
        0 <= a < pre.len(),
        0 <= b < pre.len(),
        union_post(pre, post, p, q),
    ensures
        post.connected(a, b) == (pre.connected(a, b) || (pre.connected(a, p) && pre.connected(
            b,
            q,
        )) || (pre.connected(a, q) && pre.connected(b, p))),
{
}

/// Merging is commutative in effect: `union(p, q)` and `union(q, p)` applied
/// to the same structure yield the same connectivity relation, though the
/// surviving root may differ.
pub proof fn lemma_union_commutative(
    pre: UnionFind,
    post_pq: UnionFind,
    post_qp: UnionFind,
    p: int,
    q: int,
    a: int,
    b: int,
)
    requires
        pre.wf(),
        0 <= p < pre.len(),
        0 <= q < pre.len(),
        0 <= a < pre.len(),
        0 <= b < pre.len(),
        union_post(pre, post_pq, p, q),
        union_post(pre, post_qp, q, p),
    ensures
        post_pq.connected(a, b) == post_qp.connected(a, b),
{
    lemma_union_connectivity(pre, post_pq, p, q, a, b);
    lemma_union_connectivity(pre, post_qp, q, p, a, b);
}

/// Merging is idempotent in effect: a second `union(p, q)` right after a
/// first one leaves the connectivity relation as it was.
pub proof fn lemma_union_idempotent(
    s0: UnionFind,
    s1: UnionFind,
    s2: UnionFind,
    p: int,
    q: int,
    a: int,
    b: int,
)
    requires
        s0.wf(),
        0 <= p < s0.len(),
        0 <= q < s0.len(),
        0 <= a < s0.len(),
        0 <= b < s0.len(),
        union_post(s0, s1, p, q),
        union_post(s1, s2, p, q),
    ensures
        s2.connected(a, b) == s1.connected(a, b),
{
    lemma_union_connectivity(s0, s1, p, q, p, q);
    assert(s1.connected(p, q));
}

/// After `union(a, b)` followed by `union(b, c)`, elements `a` and `c` are
/// connected.
pub proof fn lemma_union_chain_transitive(
    s0: UnionFind,
    s1: UnionFind,
    s2: UnionFind,
    a: int,
    b: int,
    c: int,
)
    requires
        s0.wf(),
        0 <= a < s0.len(),
        0 <= b < s0.len(),
        0 <= c < s0.len(),
        union_post(s0, s1, a, b),
        union_post(s1, s2, b, c),
    ensures
        s2.connected(a, c),
{
    lemma_union_connectivity(s0, s1, a, b, a, b);
    assert(s1.connected(a, b));
    lemma_union_connectivity(s1, s2, b, c, a, c);
}

/// Connectivity is monotone: a merge never disconnects two elements that
/// were already connected.
pub proof fn lemma_union_monotone(
    pre: UnionFind,
    post: UnionFind,
    p: int,
    q: int,
    a: int,
    b: int,
)
    requires
        pre.wf(),
        0 <= p < pre.len(),
        0 <= q < pre.len(),
        0 <= a < pre.len(),
        0 <= b < pre.len(),
        union_post(pre, post, p, q),
        pre.connected(a, b),
    ensures
        post.connected(a, b),
{
    lemma_union_connectivity(pre, post, p, q, a, b);
}

} // verus!
