//! Groups of similar solutions within a front.
//!
//! Two solutions are similar when they lie close to each other under every
//! objective, measured against the spread of the front. The solutions of a
//! front are put into groups one after the other: each joins the first group
//! whose first solution it is similar to, or opens a group of its own.

use crate::crowding_distance::{magnitude, magnitude_of, place, Entry, ObjectiveStat, CROWDING_MAX};
use crate::groups::{
    at_most_once, contents, count_in, lemma_count_in_grow, lemma_count_in_open, lemma_size_agree,
    lemma_size_update, size_upto,
};
use crate::multi_objective::MultiObjective;
use crate::stable_sort::{count_of, distinct_by, has_key, lemma_distinct_counts};
use vstd::prelude::*;

verus! {

/// How close two solutions of a front must lie to count as similar: under
/// every objective their distance, divided by the spread of the front, must
/// be less than `numerator / denominator`.
#[derive(Clone, Copy, Debug)]
pub struct Tolerance {
    pub numerator: u64,
    pub denominator: u64,
}

/// Two solutions that are `gap` apart under an objective, in a front of
/// spread `spread`, are near each other: the gap is less than the tolerated
/// part of the spread, or, where the front has no spread, there is no gap.
pub open spec fn near(tolerance: Tolerance, gap: int, spread: int) -> bool {
    if spread > 0 {
        gap * tolerance.denominator < tolerance.numerator * spread
    } else {
        gap == 0
    }
}

/// Are two solutions that are `gap` apart near each other?
pub fn is_near(tolerance: Tolerance, gap: u64, spread: u64) -> (r: bool)
    ensures
        r == near(tolerance, gap as int, spread as int),
{
    if spread > 0 {
        proof {
            assert(0 <= gap * tolerance.denominator <= 0xffff_ffff_ffff_ffff * 0xffff_ffff_ffff_ffff)
                by (nonlinear_arith)
                requires
                    0 <= gap <= 0xffff_ffff_ffff_ffff,
                    0 <= tolerance.denominator <= 0xffff_ffff_ffff_ffff,
            ;
            assert(0 <= tolerance.numerator * spread <= 0xffff_ffff_ffff_ffff
                * 0xffff_ffff_ffff_ffff) by (nonlinear_arith)
                requires
                    0 <= spread <= 0xffff_ffff_ffff_ffff,
                    0 <= tolerance.numerator <= 0xffff_ffff_ffff_ffff,
            ;
        }
        (gap as u128) * (tolerance.denominator as u128) < (tolerance.numerator as u128) * (
        spread as u128)
    } else {
        gap == 0
    }
}

impl<'a, S> MultiObjective<'a, S, i64> {
    /// The solutions at the places of `x` and `y` are similar: near each other
    /// under every objective, in a front with the spreads `spreads`.
    pub open spec fn alike(
        &self,
        front: Seq<(usize, &S)>,
        spreads: Seq<ObjectiveStat>,
        tolerance: Tolerance,
    ) -> spec_fn(Entry, Entry) -> bool {
        |x: Entry, y: Entry|
            forall|m: int|
                0 <= m < self.count() ==> near(
                    tolerance,
                    magnitude_of(
                        #[trigger] self.gap_at(
                            m,
                            front[x.position as int].1,
                            front[y.position as int].1,
                        ),
                    ),
                    spreads[m].spread as int,
                )
    }

    /// Are the solutions at the places of `x` and `y` similar?
    pub fn is_alike(
        &self,
        front: &[(usize, &S)],
        spreads: &Vec<ObjectiveStat>,
        tolerance: Tolerance,
        x: &Entry,
        y: &Entry,
    ) -> (r: bool)
        requires
            spreads@.len() == self.count(),
            x.position < front@.len(),
            y.position < front@.len(),
        ensures
            r == self.alike(front@, spreads@, tolerance)(*x, *y),
    {
        let a = front[x.position].1;
        let b = front[y.position].1;
        let mut m: usize = 0;
        while m < self.len()
            invariant
                m <= self.count(),
                spreads@.len() == self.count(),
                a == front@[x.position as int].1,
                b == front@[y.position as int].1,
                forall|t: int|
                    0 <= t < m ==> near(
                        tolerance,
                        magnitude_of(#[trigger] self.gap_at(t, a, b)),
                        spreads@[t].spread as int,
                    ),
            decreases self.count() - m,
        {
            if !is_near(tolerance, magnitude(self.gap(m, a, b)), spreads[m].spread) {
                proof {
                    assert(!near(
                        tolerance,
                        magnitude_of(self.gap_at(m as int, a, b)),
                        spreads@[m as int].spread as int,
                    ));
                }
                return false;
            }
            m = m + 1;
        }
        true
    }
}

/// The first group from `k` on whose first entry `e` is like, or the number
/// of groups if there is none.
pub open spec fn fit(
    groups: Seq<Seq<Entry>>,
    e: Entry,
    like: spec_fn(Entry, Entry) -> bool,
    k: nat,
) -> nat
    decreases groups.len() - k,
{
    if k >= groups.len() {
        groups.len()
    } else if like(groups[k as int][0], e) {
        k
    } else {
        fit(groups, e, like, k + 1)
    }
}

/// The groups with `e` put in: into the first group whose first entry it is
/// like, or into a new group of its own.
pub open spec fn join(groups: Seq<Seq<Entry>>, e: Entry, like: spec_fn(Entry, Entry) -> bool) -> Seq<
    Seq<Entry>,
> {
    let k = fit(groups, e, like, 0) as int;
    if k < groups.len() {
        groups.update(k, groups[k].push(e))
    } else {
        groups.push(seq![e])
    }
}

/// The entries divided into groups, each entry put in after those before it.
pub open spec fn grouped(entries: Seq<Entry>, like: spec_fn(Entry, Entry) -> bool) -> Seq<Seq<Entry>>
    decreases entries.len(),
{
    if entries.len() == 0 {
        Seq::empty()
    } else {
        join(grouped(entries.drop_last(), like), entries.last(), like)
    }
}

/// Every group holds an entry, and every entry stands for a place below
/// `len` and has a crowding distance within range.
pub open spec fn groups_ok(groups: Seq<Seq<Entry>>, len: nat) -> bool {
    &&& forall|k: int| 0 <= k < groups.len() ==> (#[trigger] groups[k]).len() > 0
    &&& forall|k: int, i: int|
        0 <= k < groups.len() && 0 <= i < groups[k].len() ==> entry_ok(
            #[trigger] groups[k][i],
            len,
        )
}

/// The entry stands for a place below `len` and has a crowding distance
/// within range.
pub open spec fn entry_ok(e: Entry, len: nat) -> bool {
    e.position < len && e.distance.within(CROWDING_MAX as int)
}

/// The search for a fit may start at `k` if no group before `k` fits.
pub proof fn lemma_fit_skips(
    groups: Seq<Seq<Entry>>,
    e: Entry,
    like: spec_fn(Entry, Entry) -> bool,
    j: nat,
    k: nat,
)
    requires
        j <= k <= groups.len(),
        forall|t: int| j <= t < k ==> !like((#[trigger] groups[t])[0], e),
    ensures
        fit(groups, e, like, j) == fit(groups, e, like, k),
    decreases k - j,
{
    if j < k {
        assert(!like(groups[j as int][0], e));
        lemma_fit_skips(groups, e, like, j + 1, k);
    }
}

/// The fit lies between the start of the search and the number of groups.
pub proof fn lemma_fit_range(
    groups: Seq<Seq<Entry>>,
    e: Entry,
    like: spec_fn(Entry, Entry) -> bool,
    k: nat,
)
    requires
        k <= groups.len(),
    ensures
        k <= fit(groups, e, like, k) <= groups.len(),
    decreases groups.len() - k,
{
    if k < groups.len() && !like(groups[k as int][0], e) {
        lemma_fit_range(groups, e, like, k + 1);
    }
}

/// Putting an entry in makes the groups grow by one entry, and keeps them in
/// good shape.
pub proof fn lemma_join(groups: Seq<Seq<Entry>>, e: Entry, like: spec_fn(Entry, Entry) -> bool, len: nat)
    requires
        groups_ok(groups, len),
        entry_ok(e, len),
    ensures
        groups_ok(join(groups, e, like), len),
        size_upto(join(groups, e, like), join(groups, e, like).len()) == size_upto(
            groups,
            groups.len(),
        ) + 1,
        join(groups, e, like).len() >= groups.len(),
        join(groups, e, like).len() > 0,
{
    let k = fit(groups, e, like, 0) as int;
    let joined = join(groups, e, like);
    lemma_fit_range(groups, e, like, 0);
    if k < groups.len() {
        lemma_size_update(groups, k, e, groups.len());
        assert forall|t: int, i: int|
            0 <= t < joined.len() && 0 <= i < joined[t].len() implies entry_ok(
            #[trigger] joined[t][i],
            len,
        ) by {
            if t == k {
                if i < groups[k].len() {
                    assert(joined[t][i] == groups[k][i]);
                }
            } else {
                assert(joined[t][i] == groups[t][i]);
            }
        }
    } else {
        lemma_size_agree(groups, joined, groups.len());
        assert forall|t: int, i: int|
            0 <= t < joined.len() && 0 <= i < joined[t].len() implies entry_ok(
            #[trigger] joined[t][i],
            len,
        ) by {
            if t < groups.len() {
                assert(joined[t][i] == groups[t][i]);
            }
        }
    }
}

/// Putting an entry in raises the count of the entries that satisfy `pred` by
/// one if the entry does.
pub proof fn lemma_join_counts(
    groups: Seq<Seq<Entry>>,
    e: Entry,
    like: spec_fn(Entry, Entry) -> bool,
    pred: spec_fn(Entry) -> bool,
)
    ensures
        count_in(join(groups, e, like), pred, join(groups, e, like).len()) == count_in(
            groups,
            pred,
            groups.len(),
        ) + if pred(e) {
            1nat
        } else {
            0nat
        },
{
    let k = fit(groups, e, like, 0) as int;
    lemma_fit_range(groups, e, like, 0);
    if k < groups.len() {
        lemma_count_in_grow(groups, k, e, pred, groups.len());
    } else {
        lemma_count_in_open(groups, e, pred);
    }
}

/// The groups that the entries are divided into are in good shape, and hold
/// what the entries hold.
pub proof fn lemma_grouped(
    entries: Seq<Entry>,
    like: spec_fn(Entry, Entry) -> bool,
    len: nat,
    pred: spec_fn(Entry) -> bool,
)
    requires
        forall|i: int| 0 <= i < entries.len() ==> entry_ok(#[trigger] entries[i], len),
    ensures
        groups_ok(grouped(entries, like), len),
        count_in(grouped(entries, like), pred, grouped(entries, like).len()) == count_of(
            entries,
            pred,
        ),
        grouped(entries, like).len() <= entries.len(),
    decreases entries.len(),
{
    if entries.len() > 0 {
        let rest = entries.drop_last();
        assert forall|i: int| 0 <= i < rest.len() implies entry_ok(#[trigger] rest[i], len) by {
            assert(rest[i] == entries[i]);
        }
        lemma_grouped(rest, like, len, pred);
        let groups = grouped(rest, like);
        assert(entry_ok(entries[entries.len() - 1], len));
        lemma_join(groups, entries.last(), like, len);
        lemma_join_counts(groups, entries.last(), like, pred);
        lemma_fit_range(groups, entries.last(), like, 0);
    }
}

impl<'a, S> MultiObjective<'a, S, i64> {
    /// Divides the entries of a front into groups of similar solutions. Every
    /// entry, in order, joins the first group whose first solution it is
    /// similar to, or opens a new group.
    pub fn group_entries(
        &self,
        front: &[(usize, &S)],
        entries: &Vec<Entry>,
        spreads: &Vec<ObjectiveStat>,
        tolerance: Tolerance,
    ) -> (groups: Vec<Vec<Entry>>)
        requires
            spreads@.len() == self.count(),
            forall|i: int| 0 <= i < entries@.len() ==> entry_ok(#[trigger] entries@[i], front@.len()),
            distinct_by(entries@, place()),
        ensures
            contents(groups@) == grouped(entries@, self.alike(front@, spreads@, tolerance)),
            groups_ok(contents(groups@), front@.len()),
            at_most_once(contents(groups@), place()),
            size_upto(contents(groups@), groups@.len()) == entries@.len(),
            entries@.len() > 0 ==> groups@.len() > 0,
    {
        let ghost like = self.alike(front@, spreads@, tolerance);
        let mut groups: Vec<Vec<Entry>> = Vec::new();
        let mut i: usize = 0;
        proof {
            assert(contents(groups@) =~= grouped(entries@.take(0), like));
            assert forall|p: int| #[trigger]
                count_in(contents(groups@), has_key(place(), p), groups@.len()) == count_of(
                    entries@.take(0),
                    has_key(place(), p),
                ) by {}
        }
        while i < entries.len()
            invariant
                i <= entries@.len(),
                forall|p: int| #[trigger]
                    count_in(contents(groups@), has_key(place(), p), groups@.len()) == count_of(
                        entries@.take(i as int),
                        has_key(place(), p),
                    ),
                spreads@.len() == self.count(),
                like == self.alike(front@, spreads@, tolerance),
                forall|t: int|
                    0 <= t < entries@.len() ==> entry_ok(#[trigger] entries@[t], front@.len()),
                contents(groups@) == grouped(entries@.take(i as int), like),
                groups_ok(contents(groups@), front@.len()),
                size_upto(contents(groups@), groups@.len()) == i,
                i > 0 ==> groups@.len() > 0,
            decreases entries@.len() - i,
        {
            let entry = entries[i];
            proof {
                assert(entry_ok(entries@[i as int], front@.len()));
            }
            let ghost before = contents(groups@);
            let mut k: usize = 0;
            let mut found = false;
            while k < groups.len() && !found
                invariant
                    k <= groups@.len(),
                    before == contents(groups@),
                    groups_ok(before, front@.len()),
                    spreads@.len() == self.count(),
                    like == self.alike(front@, spreads@, tolerance),
                    entry.position < front@.len(),
                    forall|t: int| 0 <= t < k ==> !like((#[trigger] before[t])[0], entry),
                    found ==> k < groups@.len() && like(before[k as int][0], entry),
                decreases groups@.len() - k + if found { 0nat } else { 1nat },
            {
                proof {
                    assert(before[k as int].len() > 0);
                    assert(entry_ok(before[k as int][0], front@.len()));
                    assert(groups@[k as int]@ == before[k as int]);
                }
                let head = groups[k][0];
                if self.is_alike(front, spreads, tolerance, &head, &entry) {
                    found = true;
                } else {
                    k = k + 1;
                }
            }
            let ghost before_len = groups@.len();
            proof {
                lemma_fit_skips(before, entry, like, 0, k as nat);
                lemma_join(before, entry, like, front@.len());
                assert(entries@.take(i + 1).drop_last() =~= entries@.take(i as int));
                assert(entries@.take(i + 1).last() == entry);
                assert forall|p: int| #[trigger]
                    count_in(
                        join(before, entry, like),
                        has_key(place(), p),
                        join(before, entry, like).len(),
                    ) == count_of(entries@.take(i + 1), has_key(place(), p)) by {
                    lemma_join_counts(before, entry, like, has_key(place(), p));
                    assert(count_in(before, has_key(place(), p), before_len as nat) == count_of(
                        entries@.take(i as int),
                        has_key(place(), p),
                    ));
                }
            }
            if found {
                groups[k].push(entry);
                proof {
                    assert(contents(groups@) =~= before.update(k as int, before[k as int].push(entry)));
                }
            } else {
                let mut group: Vec<Entry> = Vec::new();
                group.push(entry);
                groups.push(group);
                proof {
                    assert(contents(groups@) =~= before.push(seq![entry]));
                }
            }
            i = i + 1;
        }
        proof {
            assert(entries@.take(entries@.len() as int) =~= entries@);
            assert forall|p: int| #[trigger]
                count_in(contents(groups@), has_key(place(), p), groups@.len()) <= 1 by {
                lemma_distinct_counts(entries@, place(), p);
            }
        }
        groups
    }
}

} // verus!
