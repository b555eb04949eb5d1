//! The pools that survivors are drawn from: the groups of a front, put in
//! order.
//!
//! All members of a group share one crowding distance, the mean of their own.
//! Where there is a first objective, every group is sorted by it, and the
//! groups come in the order of their best solutions under it.

use crate::crowding_distance::{place, Crowding, Entry, CROWDING_MAX};
use crate::fronts::members;
use crate::grouping::{entry_ok, groups_ok};
use crate::groups::{
    all_distinct, at_most_once, contents, count_in, lemma_count_in_agree, lemma_once_distinct,
    lemma_same_sizes, lemma_size_agree, size_upto,
};
use crate::multi_objective::MultiObjective;
use crate::non_dominated_sort::indices;
use crate::stable_sort::{
    count_of, has_key, lemma_sorted_all, lemma_sorted_keeps, lemma_sorted_sum, sort_by, sorted_by,
    sum_of,
};
use crate::verdict::Verdict;
use vstd::arithmetic::div_mod::{lemma_fundamental_div_mod, lemma_hoist_over_denominator};
use vstd::prelude::*;

verus! {

/// A solution that stands for selection: its index among all solutions, the
/// rank of its front, the crowding distance of its group and the size of its
/// group.
#[derive(Clone, Copy, Debug, PartialEq, Eq, Structural)]
pub struct Member {
    pub index: usize,
    pub rank: usize,
    pub distance: Crowding,
    pub crowd: usize,
}

/// The index of a member, as a key.
pub open spec fn member_key() -> spec_fn(Member) -> int {
    |m: Member| m.index as int
}

/// The sum of the finite crowding distances of the first `k` entries.
pub open spec fn total_of(entries: Seq<Entry>, k: nat) -> int
    decreases k,
{
    if k == 0 {
        0
    } else {
        total_of(entries, (k - 1) as nat) + match entries[k - 1].distance {
            Crowding::Finite(v) => v as int,
            Crowding::Infinite => 0,
        }
    }
}

/// One of the first `k` entries has an infinite crowding distance.
pub open spec fn some_infinite(entries: Seq<Entry>, k: nat) -> bool {
    exists|i: int| 0 <= i < k && (#[trigger] entries[i]).distance == Crowding::Infinite
}

/// The mean of the crowding distances of the entries, rounded down: infinite
/// if one of them is.
pub open spec fn mean_of(entries: Seq<Entry>) -> Crowding {
    if some_infinite(entries, entries.len()) {
        Crowding::Infinite
    } else {
        Crowding::Finite((total_of(entries, entries.len()) / (entries.len() as int)) as u128)
    }
}

/// Returns the mean of the crowding distances of the entries of a group.
pub fn mean(group: &Vec<Entry>) -> (m: Crowding)
    requires
        group@.len() > 0,
        forall|i: int|
            0 <= i < group@.len() ==> (#[trigger] group@[i]).distance.within(CROWDING_MAX as int),
    ensures
        m == mean_of(group@),
        m.within(CROWDING_MAX as int),
{
    let len = group.len();
    let mut quotients: u128 = 0;
    let mut remainders: u128 = 0;
    let mut infinite = false;
    let mut i: usize = 0;
    while i < len
        invariant
            i <= len,
            len == group@.len(),
            len > 0,
            forall|t: int|
                0 <= t < group@.len() ==> (#[trigger] group@[t]).distance.within(CROWDING_MAX as int),
            infinite == some_infinite(group@, i as nat),
            len * quotients + remainders == total_of(group@, i as nat),
            0 <= total_of(group@, i as nat) <= i * CROWDING_MAX,
            remainders <= i * (len - 1),
        decreases len - i,
    {
        match group[i].distance {
            Crowding::Infinite => {
                infinite = true;
            },
            Crowding::Finite(v) => {
                proof {
                    assert(group@[i as int].distance.within(CROWDING_MAX as int));
                    let vi = v as int;
                    let li = len as int;
                    lemma_fundamental_div_mod(vi, li);
                    assert(0 <= vi % li < li);
                    assert(quotients <= CROWDING_MAX) by (nonlinear_arith)
                        requires
                            len * quotients <= i * CROWDING_MAX,
                            i < len,
                            len > 0,
                            CROWDING_MAX >= 0,
                            quotients >= 0,
                    ;
                    assert(0 <= vi / li <= vi) by (nonlinear_arith)
                        requires
                            vi >= 0,
                            li > 0,
                    ;
                    assert((i + 1) * (len - 1) <= 0xffff_ffff_ffff_ffff * 0xffff_ffff_ffff_ffff)
                        by (nonlinear_arith)
                        requires
                            0 <= i < len <= 0xffff_ffff_ffff_ffff,
                    ;
                    assert(i * (len - 1) + (len - 1) == (i + 1) * (len - 1)) by (nonlinear_arith);
                    assert(li * (quotients + vi / li) == li * quotients + li * (vi / li))
                        by (nonlinear_arith);
                    assert((i + 1) * CROWDING_MAX == i * CROWDING_MAX + CROWDING_MAX)
                        by (nonlinear_arith);
                }
                quotients = quotients + v / (len as u128);
                remainders = remainders + v % (len as u128);
            },
        }
        proof {
            if group@[i as int].distance == Crowding::Infinite {
                assert(some_infinite(group@, (i + 1) as nat));
                assert((i + 1) * CROWDING_MAX == i * CROWDING_MAX + CROWDING_MAX)
                    by (nonlinear_arith);
                assert(i * (len - 1) <= (i + 1) * (len - 1)) by (nonlinear_arith)
                    requires
                        len >= 1,
                        i >= 0,
                ;
            } else {
                if some_infinite(group@, (i + 1) as nat) {
                    let t = choose|t: int|
                        0 <= t < i + 1 && (#[trigger] group@[t]).distance == Crowding::Infinite;
                    assert(t < i);
                }
            }
        }
        i = i + 1;
    }
    if infinite {
        Crowding::Infinite
    } else {
        proof {
            lemma_hoist_over_denominator(remainders as int, quotients as int, len as nat);
            assert(quotients * len == len * quotients) by (nonlinear_arith);
            let total = total_of(group@, len as nat);
            assert(total / (len as int) <= CROWDING_MAX) by (nonlinear_arith)
                requires
                    0 <= total <= len * CROWDING_MAX,
                    len > 0,
            ;
            assert(len * (len - 1) <= 0xffff_ffff_ffff_ffff * 0xffff_ffff_ffff_ffff)
                by (nonlinear_arith)
                requires
                    0 < len <= 0xffff_ffff_ffff_ffff,
            ;
            let ri = remainders as int;
            let li = len as int;
            assert(ri / li >= 0) by (nonlinear_arith)
                requires
                    ri >= 0,
                    li > 0,
            ;
        }
        Crowding::Finite(quotients + remainders / (len as u128))
    }
}

/// The numbers below `n`, in order.
pub open spec fn counting(n: nat) -> Seq<usize> {
    Seq::new(n, |k: int| k as usize)
}

/// The members that the entries of a group stand for, each with the crowding
/// distance `distance` and the size of the group.
pub open spec fn pool_of<S>(front: Seq<(usize, &S)>, rank: usize, group: Seq<Entry>, distance: Crowding) -> Seq<
    Member,
> {
    Seq::new(
        group.len(),
        |i: int|
            Member {
                index: front[group[i].position as int].0,
                rank,
                distance,
                crowd: group.len() as usize,
            },
    )
}

/// The size of group `g`, as a weight.
pub open spec fn size_in<T>(groups: Seq<Seq<T>>) -> spec_fn(usize) -> nat {
    |g: usize| groups[g as int].len()
}

/// The number of entries of group `g` that satisfy `pred`, as a weight.
pub open spec fn count_weight(groups: Seq<Seq<Entry>>, pred: spec_fn(Entry) -> bool) -> spec_fn(
    usize,
) -> nat {
    |g: usize| count_of(groups[g as int], pred)
}

/// The groups in the order `order`.
pub open spec fn arranged_by(groups: Seq<Seq<Entry>>, order: Seq<usize>) -> Seq<Seq<Entry>> {
    Seq::new(order.len(), |k: int| groups[order[k] as int])
}

impl<'a, S> MultiObjective<'a, S, i64> {
    /// The entries of a group sorted by the first objective, if there is one.
    pub open spec fn tidy(&self, front: Seq<(usize, &S)>, group: Seq<Entry>) -> Seq<Entry> {
        if self.count() > 0 {
            sorted_by(group, self.comes_after(0, front))
        } else {
            group
        }
    }

    /// Every group sorted by the first objective.
    pub open spec fn tidied(&self, front: Seq<(usize, &S)>, groups: Seq<Seq<Entry>>) -> Seq<Seq<Entry>> {
        Seq::new(groups.len(), |k: int| self.tidy(front, groups[k]))
    }

    /// Group `a` must come after group `b`: under the first objective its
    /// first solution is worse.
    pub open spec fn heads_after(&self, front: Seq<(usize, &S)>, groups: Seq<Seq<Entry>>) -> spec_fn(
        usize,
        usize,
    ) -> bool {
        |a: usize, b: usize|
            self.order_at(
                0,
                front[groups[a as int][0].position as int].1,
                front[groups[b as int][0].position as int].1,
            ) == Verdict::Greater
    }

    /// The order of the groups: by their first solution under the first
    /// objective, if there is one.
    pub open spec fn group_order(&self, front: Seq<(usize, &S)>, groups: Seq<Seq<Entry>>) -> Seq<usize> {
        if self.count() > 0 {
            sorted_by(counting(groups.len()), self.heads_after(front, groups))
        } else {
            counting(groups.len())
        }
    }

    /// The pools of one front: its groups, each sorted by the first objective
    /// and all its members given the mean crowding distance of the group, in
    /// the order of their best solutions under the first objective.
    pub open spec fn front_pools(&self, front: Seq<(usize, &S)>, rank: usize, groups: Seq<Seq<Entry>>) -> Seq<
        Seq<Member>,
    > {
        let tidied = self.tidied(front, groups);
        let order = self.group_order(front, tidied);
        Seq::new(
            groups.len(),
            |k: int|
                pool_of(front, rank, tidied[order[k] as int], mean_of(groups[order[k] as int])),
        )
    }
}

/// Counted through in order, the sizes of the groups add up to the size of the
/// whole.
pub proof fn lemma_counting_sum<T>(groups: Seq<Seq<T>>, k: nat)
    requires
        k <= groups.len(),
        groups.len() <= usize::MAX,
    ensures
        sum_of(counting(k), size_in(groups)) == size_upto(groups, k),
    decreases k,
{
    if k > 0 {
        lemma_counting_sum(groups, (k - 1) as nat);
        assert(counting(k).drop_last() =~= counting((k - 1) as nat));
        assert(counting(k).last() == (k - 1) as usize);
    }
}

/// Counted through in order, the counts of the groups add up to the count of
/// the whole.
pub proof fn lemma_counting_count(groups: Seq<Seq<Entry>>, pred: spec_fn(Entry) -> bool, k: nat)
    requires
        k <= groups.len(),
        groups.len() <= usize::MAX,
    ensures
        sum_of(counting(k), count_weight(groups, pred)) == count_in(groups, pred, k),
    decreases k,
{
    if k > 0 {
        lemma_counting_count(groups, pred, (k - 1) as nat);
        assert(counting(k).drop_last() =~= counting((k - 1) as nat));
        assert(counting(k).last() == (k - 1) as usize);
    }
}

/// The count of the first `k` groups in the order `order` is the sum of the
/// counts of the groups that `order` names.
pub proof fn lemma_arranged_count(
    groups: Seq<Seq<Entry>>,
    order: Seq<usize>,
    pred: spec_fn(Entry) -> bool,
    k: nat,
)
    requires
        k <= order.len(),
    ensures
        count_in(arranged_by(groups, order), pred, k) == sum_of(
            order.take(k as int),
            count_weight(groups, pred),
        ),
    decreases k,
{
    if k > 0 {
        lemma_arranged_count(groups, order, pred, (k - 1) as nat);
        assert(order.take(k as int).drop_last() =~= order.take(k - 1));
        assert(order.take(k as int).last() == order[k - 1]);
    }
}

/// A copy of the entries.
pub fn copy_of(entries: &Vec<Entry>) -> (copy: Vec<Entry>)
    ensures
        copy@ == entries@,
{
    let mut copy: Vec<Entry> = Vec::new();
    let mut i: usize = 0;
    while i < entries.len()
        invariant
            i <= entries@.len(),
            copy@ == entries@.take(i as int),
        decreases entries@.len() - i,
    {
        copy.push(entries[i]);
        proof {
            assert(copy@ =~= entries@.take(i + 1));
        }
        i = i + 1;
    }
    proof {
        assert(entries@.take(entries@.len() as int) =~= entries@);
    }
    copy
}

impl<'a, S> MultiObjective<'a, S, i64> {
    /// Sorts every group by the first objective, if there is one, and finds
    /// the mean crowding distance of every group.
    pub fn tidy_groups(&self, front: &[(usize, &S)], groups: &Vec<Vec<Entry>>) -> (out: (
        Vec<Vec<Entry>>,
        Vec<Crowding>,
    ))
        requires
            groups_ok(contents(groups@), front@.len()),
        ensures
            contents(out.0@) == self.tidied(front@, contents(groups@)),
            groups_ok(contents(out.0@), front@.len()),
            at_most_once(contents(groups@), place()) ==> at_most_once(contents(out.0@), place()),
            out.0@.len() == groups@.len(),
            out.1@.len() == groups@.len(),
            forall|k: int| 0 <= k < groups@.len() ==> (#[trigger] out.0@[k])@.len() == groups@[k]@.len(),
            forall|k: int| 0 <= k < groups@.len() ==> #[trigger] out.1@[k] == mean_of(groups@[k]@),
    {
        let mut tidied: Vec<Vec<Entry>> = Vec::new();
        let mut means: Vec<Crowding> = Vec::new();
        let ghost len = front@.len();
        let ghost valid = |e: Entry| entry_ok(e, len);
        let mut k: usize = 0;
        while k < groups.len()
            invariant
                k <= groups@.len(),
                len == front@.len(),
                valid == |e: Entry| entry_ok(e, len),
                groups_ok(contents(groups@), len),
                tidied@.len() == k,
                means@.len() == k,
                forall|t: int| 0 <= t < k ==> (#[trigger] tidied@[t])@ == self.tidy(front@, groups@[t]@),
                forall|t: int| 0 <= t < k ==> (#[trigger] tidied@[t])@.len() == groups@[t]@.len(),
                forall|t: int, i: int|
                    0 <= t < k && 0 <= i < tidied@[t]@.len() ==> entry_ok(
                        #[trigger] tidied@[t]@[i],
                        len,
                    ),
                forall|t: int| 0 <= t < k ==> #[trigger] means@[t] == mean_of(groups@[t]@),
            decreases groups@.len() - k,
        {
            let ghost group = groups@[k as int]@;
            proof {
                assert(contents(groups@)[k as int] == group);
                assert(group.len() > 0);
                assert forall|i: int| 0 <= i < group.len() implies valid(#[trigger] group[i]) by {
                    assert(entry_ok(contents(groups@)[k as int][i], len));
                }
                assert forall|i: int| 0 <= i < group.len() implies (
                #[trigger] group[i]).distance.within(CROWDING_MAX as int) by {
                    assert(valid(group[i]));
                }
            }
            let distance = mean(&groups[k]);
            let mut copy = copy_of(&groups[k]);
            if self.len() > 0 {
                let after = |x: &Entry, y: &Entry| -> (r: bool)
                    requires
                        x.position < front@.len(),
                        y.position < front@.len(),
                    ensures
                        r == (self.order_at(
                            0,
                            front@[x.position as int].1,
                            front@[y.position as int].1,
                        ) == Verdict::Greater),
                    { self.order(0, front[x.position].1, front[y.position].1) == Verdict::Greater };
                sort_by(&mut copy, &after, Ghost(self.comes_after(0, front@)), Ghost(valid));
                proof {
                    lemma_sorted_keeps(group, self.comes_after(0, front@), valid);
                    lemma_sorted_all(group, self.comes_after(0, front@), valid);
                }
            }
            proof {
                assert(copy@ == self.tidy(front@, group));
                assert forall|i: int| 0 <= i < copy@.len() implies entry_ok(
                    #[trigger] copy@[i],
                    len,
                ) by {
                    assert(valid(copy@[i]));
                }
            }
            tidied.push(copy);
            means.push(distance);
            k = k + 1;
        }
        proof {
            assert(contents(tidied@) =~= self.tidied(front@, contents(groups@)));
            assert forall|t: int| 0 <= t < contents(tidied@).len() implies (#[trigger] contents(
                tidied@,
            )[t]).len() > 0 by {
                assert(contents(groups@)[t].len() > 0);
            }
            if at_most_once(contents(groups@), place()) {
                assert forall|p: int| #[trigger]
                    count_in(contents(tidied@), has_key(place(), p), tidied@.len()) <= 1 by {
                    let pred = has_key(place(), p);
                    assert forall|t: int| 0 <= t < groups@.len() implies count_of(
                        #[trigger] contents(groups@)[t],
                        pred,
                    ) == count_of(contents(tidied@)[t], pred) by {
                        lemma_sorted_keeps(
                            contents(groups@)[t],
                            self.comes_after(0, front@),
                            pred,
                        );
                    }
                    lemma_count_in_agree(
                        contents(groups@),
                        contents(tidied@),
                        pred,
                        pred,
                        groups@.len(),
                    );
                    assert(count_in(contents(groups@), pred, groups@.len()) <= 1);
                }
            }
        }
        (tidied, means)
    }

    /// Orders the groups by their first solution under the first objective,
    /// if there is one.
    pub fn order_groups(&self, front: &[(usize, &S)], groups: &Vec<Vec<Entry>>) -> (order: Vec<usize>)
        requires
            groups_ok(contents(groups@), front@.len()),
        ensures
            order@ == self.group_order(front@, contents(groups@)),
            order@.len() == groups@.len(),
            forall|k: int| 0 <= k < order@.len() ==> #[trigger] order@[k] < groups@.len(),
            sum_of(order@, size_in(contents(groups@))) == size_upto(contents(groups@), groups@.len()),
    {
        let n = groups.len();
        let mut order: Vec<usize> = Vec::new();
        let mut k: usize = 0;
        while k < n
            invariant
                k <= n,
                order@.len() == k,
                forall|t: int| 0 <= t < k ==> #[trigger] order@[t] == t,
            decreases n - k,
        {
            order.push(k);
            k = k + 1;
        }
        let ghost inside = |g: usize| g < n;
        let ghost gt = self.heads_after(front@, contents(groups@));
        proof {
            assert(order@ =~= counting(n as nat));
            lemma_counting_sum(contents(groups@), n as nat);
        }
        if self.len() > 0 {
            let after = |a: &usize, b: &usize| -> (r: bool)
                requires
                    *a < groups@.len(),
                    *b < groups@.len(),
                    groups_ok(contents(groups@), front@.len()),
                ensures
                    r == (self.order_at(
                        0,
                        front@[contents(groups@)[*a as int][0].position as int].1,
                        front@[contents(groups@)[*b as int][0].position as int].1,
                    ) == Verdict::Greater),
                {
                    proof {
                        assert(contents(groups@)[*a as int].len() > 0);
                        assert(contents(groups@)[*b as int].len() > 0);
                        assert(entry_ok(contents(groups@)[*a as int][0], front@.len()));
                        assert(entry_ok(contents(groups@)[*b as int][0], front@.len()));
                    }
                    let x = groups[*a][0];
                    let y = groups[*b][0];
                    self.order(0, front[x.position].1, front[y.position].1) == Verdict::Greater
                };
            sort_by(&mut order, &after, Ghost(gt), Ghost(inside));
            proof {
                lemma_sorted_keeps(counting(n as nat), gt, inside);
                lemma_sorted_all(counting(n as nat), gt, inside);
                lemma_sorted_sum(counting(n as nat), gt, size_in(contents(groups@)));
                assert forall|t: int| 0 <= t < order@.len() implies #[trigger] order@[t] < n by {
                    assert(inside(order@[t]));
                }
            }
        }
        order
    }
}

/// Builds the members that the entries of a group stand for.
pub fn make_pool<S>(front: &[(usize, &S)], rank: usize, group: &Vec<Entry>, distance: Crowding) -> (pool:
    Vec<Member>)
    requires
        forall|i: int| 0 <= i < group@.len() ==> (#[trigger] group@[i]).position < front@.len(),
    ensures
        pool@ == pool_of(front@, rank, group@, distance),
        pool@.len() == group@.len(),
{
    let crowd = group.len();
    let mut pool: Vec<Member> = Vec::new();
    let mut i: usize = 0;
    while i < group.len()
        invariant
            i <= group@.len(),
            crowd == group@.len(),
            pool@.len() == i,
            forall|t: int| 0 <= t < group@.len() ==> (#[trigger] group@[t]).position < front@.len(),
            forall|t: int|
                0 <= t < i ==> #[trigger] pool@[t] == pool_of(front@, rank, group@, distance)[t],
        decreases group@.len() - i,
    {
        let entry = group[i];
        pool.push(Member { index: front[entry.position].0, rank, distance, crowd });
        i = i + 1;
    }
    proof {
        assert(pool@ =~= pool_of(front@, rank, group@, distance));
    }
    pool
}

/// The members of pools that stand for entries of distinct places of a front
/// are distinct solutions of that front.
pub proof fn lemma_pools_distinct<S>(
    front: Seq<(usize, &S)>,
    rank: usize,
    groups: Seq<Seq<Entry>>,
    distances: Seq<Crowding>,
    pools: Seq<Seq<Member>>,
)
    requires
        pools.len() == groups.len(),
        distances.len() == groups.len(),
        forall|k: int|
            0 <= k < pools.len() ==> #[trigger] pools[k] == pool_of(
                front,
                rank,
                groups[k],
                distances[k],
            ),
        groups_ok(groups, front.len()),
        all_distinct(groups, place()),
        indices(front).no_duplicates(),
    ensures
        all_distinct(pools, member_key()),
        forall|g: int, i: int|
            0 <= g < pools.len() && 0 <= i < pools[g].len() ==> crate::fronts::members(
                indices(front),
            ).contains((#[trigger] pools[g][i]).index as int),
{
    assert forall|g: int, i: int| 0 <= g < pools.len() && 0 <= i < pools[g].len() implies (
    #[trigger] pools[g][i]).index == indices(front)[groups[g][i].position as int]
        && groups[g][i].position < front.len() by {
        assert(pools[g] == pool_of(front, rank, groups[g], distances[g]));
        assert(entry_ok(groups[g][i], front.len()));
    }
    assert forall|g: int, i: int, h: int, j: int|
        0 <= g < pools.len() && 0 <= i < pools[g].len() && 0 <= h < pools.len() && 0 <= j
            < pools[h].len() && (g != h || i != j) implies member_key()(#[trigger] pools[g][i])
        != member_key()(#[trigger] pools[h][j]) by {
        assert(pools[g] == pool_of(front, rank, groups[g], distances[g]));
        assert(pools[h] == pool_of(front, rank, groups[h], distances[h]));
        assert(place()(groups[g][i]) != place()(groups[h][j]));
        assert(pools[g][i].index == indices(front)[groups[g][i].position as int]);
        assert(pools[h][j].index == indices(front)[groups[h][j].position as int]);
    }
    assert forall|g: int, i: int| 0 <= g < pools.len() && 0 <= i < pools[g].len() implies crate::fronts::members(
        indices(front),
    ).contains((#[trigger] pools[g][i]).index as int) by {
        let at = groups[g][i].position as int;
        assert(pools[g][i].index == indices(front)[at]);
        assert(crate::fronts::in_prefix(
            indices(front),
            indices(front).len() as int,
            indices(front)[at] as int,
        ));
    }
}

impl<'a, S> MultiObjective<'a, S, i64> {
    /// Builds the pools of one front from its groups.
    pub fn pools_of_front(&self, front: &[(usize, &S)], rank: usize, groups: &Vec<Vec<Entry>>) -> (pools:
        Vec<Vec<Member>>)
        requires
            groups_ok(contents(groups@), front@.len()),
            at_most_once(contents(groups@), place()),
            indices(front@).no_duplicates(),
        ensures
            contents(pools@) == self.front_pools(front@, rank, contents(groups@)),
            pools@.len() == groups@.len(),
            forall|k: int| 0 <= k < pools@.len() ==> (#[trigger] pools@[k])@.len() > 0,
            size_upto(contents(pools@), pools@.len()) == size_upto(contents(groups@), groups@.len()),
            all_distinct(contents(pools@), member_key()),
            forall|g: int, i: int|
                0 <= g < pools@.len() && 0 <= i < pools@[g]@.len() ==> crate::fronts::members(
                    indices(front@),
                ).contains((#[trigger] contents(pools@)[g][i]).index as int),
    {
        let (tidied, means) = self.tidy_groups(front, groups);
        let order = self.order_groups(front, &tidied);
        proof {
            assert(tidied.len() == tidied@.len());
        }
        let ghost weight = size_in(contents(tidied@));
        let mut pools: Vec<Vec<Member>> = Vec::new();
        let mut k: usize = 0;
        while k < order.len()
            invariant
                k <= order@.len(),
                order@.len() == groups@.len(),
                tidied@.len() == groups@.len(),
                means@.len() == groups@.len(),
                weight == size_in(contents(tidied@)),
                groups_ok(contents(tidied@), front@.len()),
                forall|t: int| 0 <= t < order@.len() ==> #[trigger] order@[t] < groups@.len(),
                forall|t: int| 0 <= t < groups@.len() ==> #[trigger] means@[t] == mean_of(groups@[t]@),
                pools@.len() == k,
                forall|t: int|
                    0 <= t < k ==> (#[trigger] pools@[t])@ == pool_of(
                        front@,
                        rank,
                        tidied@[order@[t] as int]@,
                        mean_of(groups@[order@[t] as int]@),
                    ),
                forall|t: int| 0 <= t < k ==> (#[trigger] pools@[t])@.len() > 0,
                size_upto(contents(pools@), k as nat) == sum_of(order@.take(k as int), weight),
            decreases order@.len() - k,
        {
            let g = order[k];
            let ghost before = contents(pools@);
            proof {
                assert(contents(tidied@)[g as int] == tidied@[g as int]@);
                assert(contents(tidied@)[g as int].len() > 0);
                assert forall|i: int| 0 <= i < tidied@[g as int]@.len() implies (
                #[trigger] tidied@[g as int]@[i]).position < front@.len() by {
                    assert(entry_ok(contents(tidied@)[g as int][i], front@.len()));
                }
            }
            let pool = make_pool(front, rank, &tidied[g], means[g]);
            pools.push(pool);
            proof {
                let after = contents(pools@);
                lemma_size_agree(before, after, k as nat);
                assert(after[k as int].len() == weight(g));
                assert(order@.take(k + 1).drop_last() =~= order@.take(k as int));
                assert(order@.take(k + 1).last() == g);
            }
            k = k + 1;
        }
        proof {
            assert(order@.take(order@.len() as int) =~= order@);
            lemma_same_sizes(contents(tidied@), contents(groups@), groups@.len());
            assert(contents(pools@) =~= self.front_pools(front@, rank, contents(groups@)));
            self.lemma_arranged_once(front@, contents(tidied@), order@);
            let arranged = arranged_by(contents(tidied@), order@);
            let distances = Seq::new(
                groups@.len(),
                |k: int| mean_of(groups@[order@[k] as int]@),
            );
            assert forall|k: int| 0 <= k < pools@.len() implies #[trigger] contents(pools@)[k]
                == pool_of(front@, rank, arranged[k], distances[k]) by {
                assert(contents(pools@)[k] == pools@[k]@);
                assert(arranged[k] == tidied@[order@[k] as int]@);
            }
            assert forall|k: int, i: int|
                0 <= k < arranged.len() && 0 <= i < arranged[k].len() implies entry_ok(
                #[trigger] arranged[k][i],
                front@.len(),
            ) by {
                assert(entry_ok(contents(tidied@)[order@[k] as int][i], front@.len()));
            }
            assert forall|k: int| 0 <= k < arranged.len() implies (#[trigger] arranged[k]).len()
                > 0 by {
                assert(contents(tidied@)[order@[k] as int].len() > 0);
            }
            lemma_once_distinct(arranged, place());
            lemma_pools_distinct(front@, rank, arranged, distances, contents(pools@));
            assert forall|g: int, i: int|
                0 <= g < pools@.len() && 0 <= i < pools@[g]@.len() implies crate::fronts::members(
                indices(front@),
            ).contains((#[trigger] contents(pools@)[g][i]).index as int) by {
                assert(contents(pools@)[g] == pools@[g]@);
            }
        }
        pools
    }

    /// Groups that hold every place at most once still do when they are put
    /// in the order of their best solutions.
    pub proof fn lemma_arranged_once(&self, front: Seq<(usize, &S)>, groups: Seq<Seq<Entry>>, order: Seq<usize>)
        requires
            at_most_once(groups, place()),
            groups.len() <= usize::MAX,
            order == self.group_order(front, groups),
        ensures
            at_most_once(arranged_by(groups, order), place()),
            order.len() == groups.len(),
    {
        let gt = self.heads_after(front, groups);
        lemma_sorted_keeps(counting(groups.len()), gt, |g: usize| true);
        assert forall|p: int| #[trigger]
            count_in(arranged_by(groups, order), has_key(place(), p), order.len()) <= 1 by {
            let pred = has_key(place(), p);
            lemma_arranged_count(groups, order, pred, order.len());
            assert(order.take(order.len() as int) =~= order);
            lemma_sorted_sum(counting(groups.len()), gt, count_weight(groups, pred));
            lemma_counting_count(groups, pred, groups.len());
            assert(count_in(groups, pred, groups.len()) <= 1);
        }
    }
}

} // verus!
