//! Sizes and counts in lists of lists.

use crate::stable_sort::{count_of, has_key, lemma_count_one, lemma_count_two};
use vstd::prelude::*;

verus! {

/// What each of the lists holds.
pub open spec fn contents<T>(groups: Seq<Vec<T>>) -> Seq<Seq<T>> {
    Seq::new(groups.len(), |g: int| groups[g]@)
}

/// The number of entries in the first `k` groups.
pub open spec fn size_upto<T>(groups: Seq<Seq<T>>, k: nat) -> nat
    decreases k,
{
    if k == 0 {
        0
    } else {
        size_upto(groups, (k - 1) as nat) + groups[k - 1].len()
    }
}

/// Changing or adding a group from `k` on leaves the sizes of the groups
/// before `k` as they were.
pub proof fn lemma_size_agree<T>(a: Seq<Seq<T>>, b: Seq<Seq<T>>, k: nat)
    requires
        k <= a.len(),
        k <= b.len(),
        forall|t: int| 0 <= t < k ==> #[trigger] a[t] == b[t],
    ensures
        size_upto(a, k) == size_upto(b, k),
    decreases k,
{
    if k > 0 {
        lemma_size_agree(a, b, (k - 1) as nat);
    }
}

/// A group that grows by one entry makes the groups grow by one entry.
pub proof fn lemma_size_update<T>(groups: Seq<Seq<T>>, g: int, e: T, k: nat)
    requires
        0 <= g < groups.len(),
        k <= groups.len(),
    ensures
        size_upto(groups.update(g, groups[g].push(e)), k) == size_upto(groups, k) + if g < k {
            1nat
        } else {
            0nat
        },
    decreases k,
{
    if k > 0 {
        lemma_size_update(groups, g, e, (k - 1) as nat);
    }
}

/// Groups of the same sizes, one for one, have the same size in all.
pub proof fn lemma_same_sizes<T, U>(a: Seq<Seq<T>>, b: Seq<Seq<U>>, k: nat)
    requires
        k <= a.len(),
        k <= b.len(),
        forall|t: int| 0 <= t < k ==> (#[trigger] a[t]).len() == b[t].len(),
    ensures
        size_upto(a, k) == size_upto(b, k),
    decreases k,
{
    if k > 0 {
        lemma_same_sizes(a, b, (k - 1) as nat);
    }
}

/// The size of the whole is the size of its parts.
pub proof fn lemma_size_concat<T>(a: Seq<Seq<T>>, b: Seq<Seq<T>>, k: nat)
    requires
        k <= b.len(),
    ensures
        size_upto(a + b, a.len() + k) == size_upto(a, a.len()) + size_upto(b, k),
    decreases k,
{
    if k == 0 {
        lemma_size_agree(a, a + b, a.len());
    } else {
        lemma_size_concat(a, b, (k - 1) as nat);
        assert((a + b)[a.len() + k - 1] == b[k - 1]);
    }
}

/// The number of items in the first `k` groups that satisfy `pred`.
pub open spec fn count_in<T>(groups: Seq<Seq<T>>, pred: spec_fn(T) -> bool, k: nat) -> nat
    decreases k,
{
    if k == 0 {
        0
    } else {
        count_in(groups, pred, (k - 1) as nat) + count_of(groups[k - 1], pred)
    }
}

/// No two items of the groups have the same key, whether they stand in one
/// group or in two.
pub open spec fn all_distinct<T>(groups: Seq<Seq<T>>, key: spec_fn(T) -> int) -> bool {
    forall|g: int, i: int, h: int, j: int|
        0 <= g < groups.len() && 0 <= i < groups[g].len() && 0 <= h < groups.len() && 0 <= j
            < groups[h].len() && (g != h || i != j) ==> key(#[trigger] groups[g][i]) != key(
            #[trigger] groups[h][j],
        )
}

/// Every key is the key of at most one item of the groups.
pub open spec fn at_most_once<T>(groups: Seq<Seq<T>>, key: spec_fn(T) -> int) -> bool {
    forall|p: int| #[trigger] count_in(groups, has_key(key, p), groups.len()) <= 1
}

/// Groups that count the same, one for one, count the same in all.
pub proof fn lemma_count_in_agree<T, U>(
    a: Seq<Seq<T>>,
    b: Seq<Seq<U>>,
    pred: spec_fn(T) -> bool,
    other: spec_fn(U) -> bool,
    k: nat,
)
    requires
        k <= a.len(),
        k <= b.len(),
        forall|t: int| 0 <= t < k ==> count_of(#[trigger] a[t], pred) == count_of(b[t], other),
    ensures
        count_in(a, pred, k) == count_in(b, other, k),
    decreases k,
{
    if k > 0 {
        lemma_count_in_agree(a, b, pred, other, (k - 1) as nat);
        assert(count_of(a[k - 1], pred) == count_of(b[k - 1], other));
    }
}

/// An item that joins a group is counted once more if it satisfies `pred`.
pub proof fn lemma_count_in_grow<T>(groups: Seq<Seq<T>>, g: int, e: T, pred: spec_fn(T) -> bool, k: nat)
    requires
        0 <= g < groups.len(),
        k <= groups.len(),
    ensures
        count_in(groups.update(g, groups[g].push(e)), pred, k) == count_in(groups, pred, k) + if g
            < k && pred(e) {
            1nat
        } else {
            0nat
        },
    decreases k,
{
    if k > 0 {
        lemma_count_in_grow(groups, g, e, pred, (k - 1) as nat);
        if g == k - 1 {
            assert(groups[g].push(e).drop_last() =~= groups[g]);
        }
    }
}

/// A new group of one item is counted once if the item satisfies `pred`.
pub proof fn lemma_count_in_open<T>(groups: Seq<Seq<T>>, e: T, pred: spec_fn(T) -> bool)
    ensures
        count_in(groups.push(seq![e]), pred, groups.len() + 1) == count_in(
            groups,
            pred,
            groups.len(),
        ) + if pred(e) {
            1nat
        } else {
            0nat
        },
{
    let more = groups.push(seq![e]);
    assert forall|t: int| 0 <= t < groups.len() implies count_of(#[trigger] groups[t], pred)
        == count_of(more[t], pred) by {
        assert(more[t] == groups[t]);
    }
    lemma_count_in_agree(groups, more, pred, pred, groups.len());
    let single = seq![e];
    assert(more[groups.len() as int] == single);
    assert(single.drop_last() =~= Seq::<T>::empty());
    assert(single.last() == e);
    assert(count_of(Seq::<T>::empty(), pred) == 0);
    assert(count_of(single, pred) == if pred(e) {
        1nat
    } else {
        0nat
    });
}

/// The count in all groups is at least the count in any one of them.
pub proof fn lemma_count_in_one<T>(groups: Seq<Seq<T>>, pred: spec_fn(T) -> bool, g: int, k: nat)
    requires
        0 <= g < k <= groups.len(),
    ensures
        count_in(groups, pred, k) >= count_of(groups[g], pred),
    decreases k,
{
    if g < k - 1 {
        lemma_count_in_one(groups, pred, g, (k - 1) as nat);
    }
}

/// The count in all groups is at least the count in any two of them together.
pub proof fn lemma_count_in_pair<T>(groups: Seq<Seq<T>>, pred: spec_fn(T) -> bool, g: int, h: int, k: nat)
    requires
        0 <= g < h < k <= groups.len(),
    ensures
        count_in(groups, pred, k) >= count_of(groups[g], pred) + count_of(groups[h], pred),
    decreases k,
{
    if h < k - 1 {
        lemma_count_in_pair(groups, pred, g, h, (k - 1) as nat);
    } else {
        lemma_count_in_one(groups, pred, g, (k - 1) as nat);
    }
}

/// Where some item of the first `k` groups is counted, some item of them
/// satisfies the predicate.
pub proof fn lemma_count_in_witness<T>(groups: Seq<Seq<T>>, pred: spec_fn(T) -> bool, k: nat) -> (at: (
    int,
    int,
))
    requires
        k <= groups.len(),
        count_in(groups, pred, k) >= 1,
    ensures
        0 <= at.0 < k,
        0 <= at.1 < groups[at.0].len(),
        pred(groups[at.0][at.1]),
    decreases k,
{
    if count_of(groups[k - 1], pred) >= 1 {
        let i = crate::stable_sort::lemma_count_witness(groups[k - 1], pred);
        (k - 1, i)
    } else {
        lemma_count_in_witness(groups, pred, (k - 1) as nat)
    }
}

/// Where every key is the key of at most one item, no two items have the same
/// key.
pub proof fn lemma_once_distinct<T>(groups: Seq<Seq<T>>, key: spec_fn(T) -> int)
    requires
        at_most_once(groups, key),
    ensures
        all_distinct(groups, key),
{
    assert forall|g: int, i: int, h: int, j: int|
        0 <= g < groups.len() && 0 <= i < groups[g].len() && 0 <= h < groups.len() && 0 <= j
            < groups[h].len() && (g != h || i != j) implies key(#[trigger] groups[g][i]) != key(
        #[trigger] groups[h][j],
    ) by {
        let p = key(groups[g][i]);
        let pred = has_key(key, p);
        if key(groups[h][j]) == p {
            assert(count_in(groups, pred, groups.len()) <= 1);
            if g == h {
                if i < j {
                    lemma_count_two(groups[g], pred, i, j);
                } else {
                    lemma_count_two(groups[g], pred, j, i);
                }
                lemma_count_in_one(groups, pred, g, groups.len());
            } else {
                lemma_count_one(groups[g], pred, i);
                lemma_count_one(groups[h], pred, j);
                if g < h {
                    lemma_count_in_pair(groups, pred, g, h, groups.len());
                } else {
                    lemma_count_in_pair(groups, pred, h, g, groups.len());
                }
            }
        }
    }
}

} // verus!
