use vstd::prelude::*;

verus! {

/// Number of roots (self-parented entries) among the first `k` positions of a
/// parent-pointer sequence.
pub open spec fn roots_count(s: Seq<usize>, k: int) -> int
    decreases k,
{
    if k <= 0 {
        0
    } else {
        roots_count(s, k - 1) + if s[k - 1] as int == k - 1 {
            1int
        } else {
            0int
        }
    }
}

/// The root count over `k` positions lies between 0 and `k`.
pub proof fn lemma_roots_count_bounds(s: Seq<usize>, k: int)
    ensures
        0 <= roots_count(s, k),
        k >= 0 ==> roots_count(s, k) <= k,
    decreases k,
{
    if k > 0 {
        lemma_roots_count_bounds(s, k - 1);
    }
}

/// Updating one entry changes the root count exactly by whether a root was
/// created or destroyed at that position.
pub proof fn lemma_roots_count_update(s: Seq<usize>, k: int, i: int, v: usize)
    requires
        0 <= i < s.len(),
        k <= s.len(),
    ensures
        roots_count(s.update(i, v), k) == roots_count(s, k) + if i < k {
            (if v as int == i { 1int } else { 0int }) - (if s[i] as int == i { 1int } else { 0int })
        } else {
            0int
        },
    decreases k,
{
    if k > 0 {
        lemma_roots_count_update(s, k - 1, i, v);
    }
}

/// A sequence with a root at position `w` has at least one root among the
/// first `k > w` positions.
pub proof fn lemma_roots_count_at_least_one(s: Seq<usize>, k: int, w: int)
    requires
        0 <= w < k,
        k <= s.len(),
        s[w] as int == w,
    ensures
        roots_count(s, k) >= 1,
    decreases k,
{
    lemma_roots_count_bounds(s, k - 1);
    if w < k - 1 {
        lemma_roots_count_at_least_one(s, k - 1, w);
    }
}

/// In a fully self-parented prefix every position is a root.
pub proof fn lemma_roots_count_identity(s: Seq<usize>, k: int)
    requires
        0 <= k <= s.len(),
        forall|j: int| 0 <= j < k ==> #[trigger] s[j] as int == j,
    ensures
        roots_count(s, k) == k,
    decreases k,
{
    if k > 0 {
        lemma_roots_count_identity(s, k - 1);
    }
}

} // verus!
