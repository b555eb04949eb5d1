//! Counting the dominators of a solution in a set of dominance edges.
//!
//! An edge `(p, q)` says that solution `p` dominates solution `q`. The sorter
//! keeps, for every solution, the number of edges that still point at it.

use vstd::prelude::*;

verus! {

/// The number of `p` in `0..k` with an edge `(p, q)` in `live`.
pub open spec fn indegree(live: Set<(int, int)>, q: int, k: nat) -> nat
    decreases k,
{
    if k == 0 {
        0
    } else {
        indegree(live, q, (k - 1) as nat) + if live.contains((k - 1, q)) {
            1nat
        } else {
            0nat
        }
    }
}

/// The edges of `edges` whose source is not in `placed`.
pub open spec fn live_edges(edges: Set<(int, int)>, placed: Set<int>) -> Set<(int, int)> {
    Set::new(|e: (int, int)| edges.contains(e) && !placed.contains(e.0))
}

/// No more edges point at `q` from `0..k` than there are indices in `0..k`.
pub proof fn lemma_indegree_bound(live: Set<(int, int)>, q: int, k: nat)
    ensures
        indegree(live, q, k) <= k,
    decreases k,
{
    if k > 0 {
        lemma_indegree_bound(live, q, (k - 1) as nat);
    }
}

/// Two edge sets that agree on the edges into `q` from `0..k` give `q` the same
/// count.
pub proof fn lemma_indegree_agree(a: Set<(int, int)>, b: Set<(int, int)>, q: int, k: nat)
    requires
        forall|p: int| 0 <= p < k ==> a.contains((p, q)) == b.contains((p, q)),
    ensures
        indegree(a, q, k) == indegree(b, q, k),
    decreases k,
{
    if k > 0 {
        lemma_indegree_agree(a, b, q, (k - 1) as nat);
    }
}

/// The count is zero exactly when no edge from `0..k` points at `q`.
pub proof fn lemma_indegree_zero(live: Set<(int, int)>, q: int, k: nat)
    ensures
        indegree(live, q, k) == 0 <==> forall|p: int| 0 <= p < k ==> !live.contains((p, q)),
    decreases k,
{
    if k > 0 {
        lemma_indegree_zero(live, q, (k - 1) as nat);
        if indegree(live, q, k) == 0 {
            assert forall|p: int| 0 <= p < k implies !live.contains((p, q)) by {
                if p < k - 1 {
                }
            }
        }
    }
}

/// An edge from `0..k` into `q` makes the count positive.
pub proof fn lemma_indegree_positive(live: Set<(int, int)>, p: int, q: int, k: nat)
    requires
        0 <= p < k,
        live.contains((p, q)),
    ensures
        indegree(live, q, k) > 0,
{
    lemma_indegree_zero(live, q, k);
}

/// Taking the edge `(p, q)` away lowers the count of `q` by one.
pub proof fn lemma_indegree_remove(live: Set<(int, int)>, p: int, q: int, k: nat)
    requires
        0 <= p < k,
        live.contains((p, q)),
    ensures
        indegree(live.remove((p, q)), q, k) == indegree(live, q, k) - 1,
    decreases k,
{
    let less = live.remove((p, q));
    if p == k - 1 {
        lemma_indegree_agree(live, less, q, (k - 1) as nat);
    } else {
        lemma_indegree_remove(live, p, q, (k - 1) as nat);
    }
}

/// Adding the edge `(p, q)` raises the count of `q` by one.
pub proof fn lemma_indegree_insert(live: Set<(int, int)>, p: int, q: int, k: nat)
    requires
        0 <= p < k,
        !live.contains((p, q)),
    ensures
        indegree(live.insert((p, q)), q, k) == indegree(live, q, k) + 1,
    decreases k,
{
    let more = live.insert((p, q));
    if p == k - 1 {
        lemma_indegree_agree(live, more, q, (k - 1) as nat);
    } else {
        lemma_indegree_insert(live, p, q, (k - 1) as nat);
    }
}

} // verus!
