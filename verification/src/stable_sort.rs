//! A stable insertion sort, and what it computes.
//!
//! The order is given by a relation `gt`, read as "must come after". Nothing is
//! asked of the relation: the result is defined for every `gt`, and it is the
//! stable sorted arrangement whenever `gt` is the strict part of a total
//! preorder.

use vstd::prelude::*;

verus! {

/// `sorted` with `x` put in from the right end: `x` moves past every item that
/// must come after it and stops at the first one that need not.
pub open spec fn insert<T>(sorted: Seq<T>, x: T, gt: spec_fn(T, T) -> bool) -> Seq<T>
    decreases sorted.len(),
{
    if sorted.len() > 0 && gt(sorted.last(), x) {
        insert(sorted.drop_last(), x, gt).push(sorted.last())
    } else {
        sorted.push(x)
    }
}

/// The items of `s`, put in one after the other from the first to the last.
pub open spec fn sorted_by<T>(s: Seq<T>, gt: spec_fn(T, T) -> bool) -> Seq<T>
    decreases s.len(),
{
    if s.len() == 0 {
        Seq::empty()
    } else {
        insert(sorted_by(s.drop_last(), gt), s.last(), gt)
    }
}

/// The number of items of `s` that satisfy `pred`.
pub open spec fn count_of<T>(s: Seq<T>, pred: spec_fn(T) -> bool) -> nat
    decreases s.len(),
{
    if s.len() == 0 {
        0
    } else {
        count_of(s.drop_last(), pred) + if pred(s.last()) {
            1nat
        } else {
            0nat
        }
    }
}

/// The place that `x` takes when it is put into `sorted`: behind the last item
/// that it need not come before.
pub open spec fn slot<T>(sorted: Seq<T>, x: T, gt: spec_fn(T, T) -> bool) -> nat
    decreases sorted.len(),
{
    if sorted.len() > 0 && gt(sorted.last(), x) {
        slot(sorted.drop_last(), x, gt)
    } else {
        sorted.len()
    }
}

/// Putting `x` in leaves the items before its place where they were and moves
/// the others one place on. The item just before `x`, if there is one, need
/// not come after it.
pub proof fn lemma_insert_shape<T>(sorted: Seq<T>, x: T, gt: spec_fn(T, T) -> bool)
    ensures
        slot(sorted, x, gt) <= sorted.len(),
        insert(sorted, x, gt).len() == sorted.len() + 1,
        insert(sorted, x, gt)[slot(sorted, x, gt) as int] == x,
        forall|i: int|
            0 <= i < slot(sorted, x, gt) ==> #[trigger] insert(sorted, x, gt)[i] == sorted[i],
        forall|i: int|
            slot(sorted, x, gt) <= i < sorted.len() ==> #[trigger] insert(sorted, x, gt)[i + 1]
                == sorted[i],
        slot(sorted, x, gt) > 0 ==> !gt(sorted[slot(sorted, x, gt) - 1], x),
        forall|i: int| slot(sorted, x, gt) <= i < sorted.len() ==> gt(#[trigger] sorted[i], x),
    decreases sorted.len(),
{
    if sorted.len() > 0 && gt(sorted.last(), x) {
        let rest = sorted.drop_last();
        lemma_insert_shape(rest, x, gt);
        let inner = insert(rest, x, gt);
        let whole = inner.push(sorted.last());
        let p = slot(rest, x, gt) as int;
        assert forall|i: int| 0 <= i < p implies #[trigger] whole[i] == sorted[i] by {
            assert(whole[i] == inner[i]);
            assert(rest[i] == sorted[i]);
        }
        assert forall|i: int| p <= i < sorted.len() implies #[trigger] whole[i + 1]
            == sorted[i] by {
            if i < rest.len() {
                assert(whole[i + 1] == inner[i + 1]);
                assert(rest[i] == sorted[i]);
            }
        }
        assert forall|i: int| p <= i < sorted.len() implies gt(#[trigger] sorted[i], x) by {
            if i < rest.len() {
                assert(rest[i] == sorted[i]);
            }
        }
        assert(whole[p] == inner[p]);
        if p > 0 {
            assert(rest[p - 1] == sorted[p - 1]);
        }
    }
}

/// The sort is stable: an item that stands before another in the input, and
/// need not come after it, stands before it in the sorted list. This holds
/// whatever the relation is.
pub proof fn lemma_sorted_stable<T>(s: Seq<T>, gt: spec_fn(T, T) -> bool, i: int, j: int) -> (at: (
    int,
    int,
))
    requires
        0 <= i < j < s.len(),
        !gt(s[i], s[j]),
    ensures
        0 <= at.0 < at.1 < sorted_by(s, gt).len(),
        sorted_by(s, gt)[at.0] == s[i],
        sorted_by(s, gt)[at.1] == s[j],
    decreases s.len(),
{
    let rest = s.drop_last();
    let sorted = sorted_by(rest, gt);
    let x = s.last();
    lemma_insert_shape(sorted, x, gt);
    let p = slot(sorted, x, gt) as int;
    assert(rest[i] == s[i]);
    if j < s.len() - 1 {
        assert(rest[j] == s[j]);
        let (a, b) = lemma_sorted_stable(rest, gt, i, j);
        let a1 = if a < p {
            a
        } else {
            a + 1
        };
        let b1 = if b < p {
            b
        } else {
            b + 1
        };
        (a1, b1)
    } else {
        let a = lemma_sorted_holds(rest, gt, i);
        // `x` cannot have moved past an item that it need not come before.
        if a >= p {
            assert(gt(sorted[a], x));
        }
        (a, p)
    }
}

/// Every item of the input stands somewhere in the sorted list.
pub proof fn lemma_sorted_holds<T>(s: Seq<T>, gt: spec_fn(T, T) -> bool, i: int) -> (at: int)
    requires
        0 <= i < s.len(),
    ensures
        0 <= at < sorted_by(s, gt).len(),
        sorted_by(s, gt)[at] == s[i],
    decreases s.len(),
{
    let rest = s.drop_last();
    let sorted = sorted_by(rest, gt);
    let x = s.last();
    lemma_insert_shape(sorted, x, gt);
    let p = slot(sorted, x, gt) as int;
    if i < s.len() - 1 {
        assert(rest[i] == s[i]);
        let a = lemma_sorted_holds(rest, gt, i);
        if a < p {
            a
        } else {
            a + 1
        }
    } else {
        p
    }
}

/// The sum of the weights of the items of `s`.
pub open spec fn sum_of<T>(s: Seq<T>, weight: spec_fn(T) -> nat) -> nat
    decreases s.len(),
{
    if s.len() == 0 {
        0
    } else {
        sum_of(s.drop_last(), weight) + weight(s.last())
    }
}

/// Putting an item in adds its weight.
pub proof fn lemma_insert_sum<T>(sorted: Seq<T>, x: T, gt: spec_fn(T, T) -> bool, weight: spec_fn(T) -> nat)
    ensures
        sum_of(insert(sorted, x, gt), weight) == sum_of(sorted, weight) + weight(x),
    decreases sorted.len(),
{
    if sorted.len() > 0 && gt(sorted.last(), x) {
        lemma_insert_sum(sorted.drop_last(), x, gt, weight);
        let inner = insert(sorted.drop_last(), x, gt);
        assert(inner.push(sorted.last()).drop_last() =~= inner);
    } else {
        assert(sorted.push(x).drop_last() =~= sorted);
    }
}

/// Sorting keeps the sum of the weights.
pub proof fn lemma_sorted_sum<T>(s: Seq<T>, gt: spec_fn(T, T) -> bool, weight: spec_fn(T) -> nat)
    ensures
        sum_of(sorted_by(s, gt), weight) == sum_of(s, weight),
    decreases s.len(),
{
    if s.len() > 0 {
        lemma_sorted_sum(s.drop_last(), gt, weight);
        lemma_insert_sum(sorted_by(s.drop_last(), gt), s.last(), gt, weight);
    }
}

/// An item that satisfies `pred` is counted.
pub proof fn lemma_count_one<T>(s: Seq<T>, pred: spec_fn(T) -> bool, i: int)
    requires
        0 <= i < s.len(),
        pred(s[i]),
    ensures
        count_of(s, pred) >= 1,
    decreases s.len(),
{
    if i < s.len() - 1 {
        assert(s.drop_last()[i] == s[i]);
        lemma_count_one(s.drop_last(), pred, i);
    }
}

/// Two items at different places that satisfy `pred` are counted twice.
pub proof fn lemma_count_two<T>(s: Seq<T>, pred: spec_fn(T) -> bool, i: int, j: int)
    requires
        0 <= i < j < s.len(),
        pred(s[i]),
        pred(s[j]),
    ensures
        count_of(s, pred) >= 2,
    decreases s.len(),
{
    assert(s.drop_last()[i] == s[i]);
    if j < s.len() - 1 {
        assert(s.drop_last()[j] == s[j]);
        lemma_count_two(s.drop_last(), pred, i, j);
    } else {
        lemma_count_one(s.drop_last(), pred, i);
    }
}

/// Putting an item in keeps the length and the items.
pub proof fn lemma_insert_keeps<T>(sorted: Seq<T>, x: T, gt: spec_fn(T, T) -> bool, pred: spec_fn(T) -> bool)
    ensures
        insert(sorted, x, gt).len() == sorted.len() + 1,
        count_of(insert(sorted, x, gt), pred) == count_of(sorted, pred) + if pred(x) {
            1nat
        } else {
            0nat
        },
    decreases sorted.len(),
{
    if sorted.len() > 0 && gt(sorted.last(), x) {
        lemma_insert_keeps(sorted.drop_last(), x, gt, pred);
        let inner = insert(sorted.drop_last(), x, gt);
        assert(inner.push(sorted.last()).drop_last() =~= inner);
    } else {
        assert(sorted.push(x).drop_last() =~= sorted);
    }
}

/// Sorting keeps the length, and how many items satisfy any predicate: the
/// result is a rearrangement of the input.
pub proof fn lemma_sorted_keeps<T>(s: Seq<T>, gt: spec_fn(T, T) -> bool, pred: spec_fn(T) -> bool)
    ensures
        sorted_by(s, gt).len() == s.len(),
        count_of(sorted_by(s, gt), pred) == count_of(s, pred),
    decreases s.len(),
{
    if s.len() > 0 {
        lemma_sorted_keeps(s.drop_last(), gt, pred);
        lemma_insert_keeps(sorted_by(s.drop_last(), gt), s.last(), gt, pred);
    }
}

/// Every item of the sorted list satisfies what every item of the input does.
pub proof fn lemma_sorted_all<T>(s: Seq<T>, gt: spec_fn(T, T) -> bool, pred: spec_fn(T) -> bool)
    requires
        forall|i: int| 0 <= i < s.len() ==> pred(#[trigger] s[i]),
    ensures
        forall|i: int| 0 <= i < sorted_by(s, gt).len() ==> pred(#[trigger] sorted_by(s, gt)[i]),
    decreases s.len(),
{
    if s.len() > 0 {
        assert forall|i: int| 0 <= i < s.drop_last().len() implies pred(#[trigger] s.drop_last()[i]) by {
            assert(s.drop_last()[i] == s[i]);
        }
        lemma_sorted_all(s.drop_last(), gt, pred);
        lemma_insert_all(sorted_by(s.drop_last(), gt), s.last(), gt, pred);
    }
}

/// Every item of the list with `x` put in satisfies what `x` and every item of
/// the list do.
pub proof fn lemma_insert_all<T>(sorted: Seq<T>, x: T, gt: spec_fn(T, T) -> bool, pred: spec_fn(T) -> bool)
    requires
        pred(x),
        forall|i: int| 0 <= i < sorted.len() ==> pred(#[trigger] sorted[i]),
    ensures
        forall|i: int|
            0 <= i < insert(sorted, x, gt).len() ==> pred(#[trigger] insert(sorted, x, gt)[i]),
    decreases sorted.len(),
{
    if sorted.len() > 0 && gt(sorted.last(), x) {
        assert forall|i: int| 0 <= i < sorted.drop_last().len() implies pred(
            #[trigger] sorted.drop_last()[i],
        ) by {
            assert(sorted.drop_last()[i] == sorted[i]);
        }
        lemma_insert_all(sorted.drop_last(), x, gt, pred);
        let inner = insert(sorted.drop_last(), x, gt);
        let whole = inner.push(sorted.last());
        assert forall|i: int| 0 <= i < whole.len() implies pred(#[trigger] whole[i]) by {
            if i < inner.len() {
                assert(whole[i] == inner[i]);
            } else {
                assert(whole[i] == sorted[sorted.len() - 1]);
            }
        }
    } else {
        let whole = sorted.push(x);
        assert forall|i: int| 0 <= i < whole.len() implies pred(#[trigger] whole[i]) by {
            if i < sorted.len() {
                assert(whole[i] == sorted[i]);
            }
        }
    }
}

/// Never both: `a` must come after `b`, and `b` after `a`.
pub open spec fn asymmetric<T>(gt: spec_fn(T, T) -> bool) -> bool {
    forall|a: T, b: T| #[trigger] gt(a, b) ==> !gt(b, a)
}

/// Where `a` need not come after `b`, nor `b` after `c`, `a` need not come
/// after `c`.
pub open spec fn negatively_transitive<T>(gt: spec_fn(T, T) -> bool) -> bool {
    forall|a: T, b: T, c: T| #![trigger gt(a, b), gt(b, c)] !gt(a, b) && !gt(b, c) ==> !gt(a, c)
}

/// No item stands before one that it must come after.
pub open spec fn in_order<T>(s: Seq<T>, gt: spec_fn(T, T) -> bool) -> bool {
    forall|i: int, j: int| 0 <= i < j < s.len() ==> !gt(#[trigger] s[i], #[trigger] s[j])
}

/// No two items have the same key.
pub open spec fn distinct_by<T>(s: Seq<T>, key: spec_fn(T) -> int) -> bool {
    forall|i: int, j: int| 0 <= i < j < s.len() ==> key(#[trigger] s[i]) != key(#[trigger] s[j])
}

/// Putting an item into a list that is in order leaves it in order, where
/// `gt` is the strict part of a total preorder.
pub proof fn lemma_insert_in_order<T>(sorted: Seq<T>, x: T, gt: spec_fn(T, T) -> bool)
    requires
        asymmetric(gt),
        negatively_transitive(gt),
        in_order(sorted, gt),
    ensures
        in_order(insert(sorted, x, gt), gt),
    decreases sorted.len(),
{
    if sorted.len() > 0 && gt(sorted.last(), x) {
        let rest = sorted.drop_last();
        let last = sorted.last();
        assert forall|i: int, j: int| 0 <= i < j < rest.len() implies !gt(
            #[trigger] rest[i],
            #[trigger] rest[j],
        ) by {
            assert(rest[i] == sorted[i] && rest[j] == sorted[j]);
        }
        lemma_insert_in_order(rest, x, gt);
        let inner = insert(rest, x, gt);
        let before_last = |e: T| !gt(e, last);
        assert forall|i: int| 0 <= i < rest.len() implies before_last(#[trigger] rest[i]) by {
            assert(rest[i] == sorted[i]);
            assert(!gt(sorted[i], sorted[sorted.len() - 1]));
        }
        lemma_insert_all(rest, x, gt, before_last);
        let whole = inner.push(last);
        assert forall|i: int, j: int| 0 <= i < j < whole.len() implies !gt(
            #[trigger] whole[i],
            #[trigger] whole[j],
        ) by {
            if j < inner.len() {
                assert(whole[i] == inner[i] && whole[j] == inner[j]);
            } else {
                assert(whole[i] == inner[i]);
                assert(before_last(inner[i]));
            }
        }
    } else {
        let whole = sorted.push(x);
        assert forall|i: int, j: int| 0 <= i < j < whole.len() implies !gt(
            #[trigger] whole[i],
            #[trigger] whole[j],
        ) by {
            if j < sorted.len() {
                assert(whole[i] == sorted[i] && whole[j] == sorted[j]);
            } else {
                assert(whole[i] == sorted[i]);
                let last = sorted[sorted.len() - 1];
                if i < sorted.len() - 1 {
                    assert(!gt(sorted[i], last));
                    assert(!gt(last, x));
                }
            }
        }
    }
}

/// The sorted list is in order, where `gt` is the strict part of a total
/// preorder. With the way items are put in, this makes the sort stable: items
/// of which neither must come after the other keep the order they had.
pub proof fn lemma_sorted_in_order<T>(s: Seq<T>, gt: spec_fn(T, T) -> bool)
    requires
        asymmetric(gt),
        negatively_transitive(gt),
    ensures
        in_order(sorted_by(s, gt), gt),
    decreases s.len(),
{
    if s.len() > 0 {
        lemma_sorted_in_order(s.drop_last(), gt);
        lemma_insert_in_order(sorted_by(s.drop_last(), gt), s.last(), gt);
    }
}

/// Where some item is counted, some item satisfies the predicate.
pub proof fn lemma_count_witness<T>(s: Seq<T>, pred: spec_fn(T) -> bool) -> (i: int)
    requires
        count_of(s, pred) >= 1,
    ensures
        0 <= i < s.len(),
        pred(s[i]),
    decreases s.len(),
{
    if pred(s.last()) {
        s.len() - 1
    } else {
        let i = lemma_count_witness(s.drop_last(), pred);
        assert(s.drop_last()[i] == s[i]);
        i
    }
}

/// The items whose key is `p`.
pub open spec fn has_key<T>(key: spec_fn(T) -> int, p: int) -> spec_fn(T) -> bool {
    |e: T| key(e) == p
}

/// In a list of distinct keys, at most one item has a given key.
pub proof fn lemma_distinct_counts<T>(s: Seq<T>, key: spec_fn(T) -> int, p: int)
    requires
        distinct_by(s, key),
    ensures
        count_of(s, has_key(key, p)) <= 1,
    decreases s.len(),
{
    let has = has_key(key, p);
    if s.len() > 0 {
        let rest = s.drop_last();
        assert forall|i: int, j: int| 0 <= i < j < rest.len() implies key(#[trigger] rest[i])
            != key(#[trigger] rest[j]) by {
            assert(rest[i] == s[i] && rest[j] == s[j]);
        }
        lemma_distinct_counts(rest, key, p);
        if has(s.last()) && count_of(rest, has) >= 1 {
            let i = lemma_count_witness(rest, has);
            assert(rest[i] == s[i]);
            assert(key(s[i]) != key(s[s.len() - 1]));
        }
    }
}

/// Sorting a list of distinct keys gives a list of distinct keys.
pub proof fn lemma_sorted_distinct<T>(s: Seq<T>, gt: spec_fn(T, T) -> bool, key: spec_fn(T) -> int)
    requires
        distinct_by(s, key),
    ensures
        distinct_by(sorted_by(s, gt), key),
{
    let sorted = sorted_by(s, gt);
    assert forall|i: int, j: int| 0 <= i < j < sorted.len() implies key(#[trigger] sorted[i])
        != key(#[trigger] sorted[j]) by {
        let p = key(sorted[i]);
        let has = has_key(key, p);
        if key(sorted[j]) == p {
            lemma_count_two(sorted, has, i, j);
            lemma_sorted_keeps(s, gt, has);
            lemma_distinct_counts(s, key, p);
        }
    }
}

/// Sorts `v` in place with a stable insertion sort. `greater(a, b)` says
/// whether `a` must come after `b`; `gt` is what it computes.
pub(crate) fn sort_by<T: Copy, F: Fn(&T, &T) -> bool>(
    v: &mut Vec<T>,
    greater: &F,
    Ghost(gt): Ghost<spec_fn(T, T) -> bool>,
    Ghost(valid): Ghost<spec_fn(T) -> bool>,
)
    requires
        forall|i: int| 0 <= i < old(v)@.len() ==> valid(#[trigger] old(v)@[i]),
        forall|a: T, b: T| valid(a) && valid(b) ==> call_requires(*greater, (&a, &b)),
        forall|a: T, b: T, r: bool|
            valid(a) && valid(b) && call_ensures(*greater, (&a, &b), r) ==> r == gt(a, b),
    ensures
        final(v)@ == sorted_by(old(v)@, gt),
{
    let ghost input = v@;
    let n = v.len();
    let mut i: usize = 0;
    proof {
        assert(input.take(0) =~= Seq::<T>::empty());
        assert(v@.take(0) =~= Seq::<T>::empty());
    }
    while i < n
        invariant
            i <= n,
            n == input.len(),
            v@.len() == n,
            v@.take(i as int) == sorted_by(input.take(i as int), gt),
            v@.skip(i as int) == input.skip(i as int),
            forall|t: int| 0 <= t < input.len() ==> valid(#[trigger] input[t]),
            forall|t: int| 0 <= t < v@.len() ==> valid(#[trigger] v@[t]),
            forall|a: T, b: T| valid(a) && valid(b) ==> call_requires(*greater, (&a, &b)),
            forall|a: T, b: T, r: bool|
                valid(a) && valid(b) && call_ensures(*greater, (&a, &b), r) ==> r == gt(a, b),
        decreases n - i,
    {
        let x = v[i];
        let ghost prefix = v@.take(i as int);
        let ghost rest = v@.skip(i as int + 1);
        proof {
            assert(x == input[i as int]) by {
                assert(v@.skip(i as int)[0] == input.skip(i as int)[0]);
            }
            assert(prefix.take(i as int) =~= prefix);
            assert(prefix.skip(i as int) =~= Seq::<T>::empty());
        }
        let mut j: usize = i;
        let mut moving = true;
        while moving
            invariant
                j <= i < n,
                v@.len() == n,
                prefix.len() == i,
                valid(x),
                forall|t: int| 0 <= t < prefix.len() ==> valid(#[trigger] prefix[t]),
                forall|t: int| 0 <= t < v@.len() ==> valid(#[trigger] v@[t]),
                forall|a: T, b: T| valid(a) && valid(b) ==> call_requires(*greater, (&a, &b)),
                forall|a: T, b: T, r: bool|
                    valid(a) && valid(b) && call_ensures(*greater, (&a, &b), r) ==> r == gt(a, b),
                v@.take(j as int) == prefix.take(j as int),
                v@.subrange(j as int + 1, i as int + 1) == prefix.skip(j as int),
                v@.skip(i as int + 1) == rest,
                insert(prefix, x, gt) == insert(prefix.take(j as int), x, gt) + prefix.skip(
                    j as int,
                ),
                !moving ==> insert(prefix.take(j as int), x, gt) == prefix.take(j as int).push(x),
            decreases j + if moving { 1nat } else { 0nat },
        {
            if j == 0 {
                moving = false;
            } else {
                let y = v[j - 1];
                proof {
                    assert(y == prefix[j - 1]) by {
                        assert(v@.take(j as int)[j - 1] == prefix.take(j as int)[j - 1]);
                    }
                    assert(prefix.take(j as int).last() == y);
                    assert(prefix.take(j as int).drop_last() =~= prefix.take(j - 1));
                }
                if greater(&y, &x) {
                    let ghost before = v@;
                    v.set(j, y);
                    proof {
                        assert(gt(y, x));
                        assert(insert(prefix.take(j as int), x, gt) == insert(
                            prefix.take(j - 1),
                            x,
                            gt,
                        ).push(y));
                        assert(insert(prefix.take(j - 1), x, gt).push(y) + prefix.skip(j as int)
                            =~= insert(prefix.take(j - 1), x, gt) + prefix.skip(j - 1));
                        assert(v@.take(j - 1) =~= prefix.take(j - 1)) by {
                            assert forall|t: int| 0 <= t < j - 1 implies v@[t] == prefix[t] by {
                                assert(before.take(j as int)[t] == prefix.take(j as int)[t]);
                            }
                        }
                        assert(v@.subrange(j as int, i as int + 1) =~= prefix.skip(j - 1)) by {
                            let lhs = v@.subrange(j as int, i as int + 1);
                            let rhs = prefix.skip(j - 1);
                            assert forall|t: int| 0 <= t < i + 1 - j implies #[trigger] lhs[t]
                                == rhs[t] by {
                                if t > 0 {
                                    assert(before.subrange(j as int + 1, i as int + 1)[t - 1]
                                        == prefix.skip(j as int)[t - 1]);
                                }
                            }
                        }
                        assert(v@.skip(i as int + 1) =~= before.skip(i as int + 1));
                    }
                    j = j - 1;
                } else {
                    proof {
                        assert(!gt(y, x));
                    }
                    moving = false;
                }
            }
        }
        let ghost before = v@;
        v.set(j, x);
        proof {
            let placed = prefix.take(j as int).push(x) + prefix.skip(j as int);
            assert(insert(prefix, x, gt) == placed);
            assert(v@.take(i as int + 1) =~= placed) by {
                let lhs = v@.take(i as int + 1);
                assert forall|t: int| 0 <= t < i + 1 implies #[trigger] lhs[t] == placed[t] by {
                    if t < j {
                        assert(before.take(j as int)[t] == prefix.take(j as int)[t]);
                    } else if t > j {
                        assert(before.subrange(j as int + 1, i as int + 1)[t - j - 1]
                            == prefix.skip(j as int)[t - j - 1]);
                    }
                }
            }
            assert(input.take(i as int + 1).drop_last() =~= input.take(i as int));
            assert(input.take(i as int + 1).last() == x);
            assert(v@.skip(i as int + 1) =~= input.skip(i as int + 1)) by {
                let lhs = v@.skip(i as int + 1);
                assert forall|t: int| 0 <= t < n - i - 1 implies #[trigger] lhs[t] == input.skip(
                    i as int + 1,
                )[t] by {
                    assert(rest[t] == input.skip(i as int)[t + 1]);
                }
            }
            assert forall|t: int| 0 <= t < v@.len() implies valid(#[trigger] v@[t]) by {
                if t != j {
                    assert(valid(before[t]));
                }
            }
        }
        i = i + 1;
    }
    proof {
        assert(v@.take(n as int) =~= v@);
        assert(input.take(n as int) =~= input);
    }
}

} // verus!
