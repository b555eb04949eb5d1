//! The crowding distance of the solutions of one front.
//!
//! For every objective the front is sorted by that objective. The two extremes
//! get an infinite distance. Every other solution gets the distance between
//! its two neighbours, divided by the spread of the front under that objective
//! and by the number of objectives. The crowding distance of a solution is the
//! sum of what the objectives give it.
//!
//! Distances are exact: they are counted in units of 2^-32 and every quotient
//! is rounded down.

use crate::multi_objective::MultiObjective;
use crate::stable_sort::{count_of, distinct_by, has_key, sort_by, sorted_by};
use crate::verdict::Verdict;
use vstd::prelude::*;

verus! {

/// The number of units in a crowding distance of one.
pub const CROWDING_UNIT: u128 = 0x1_0000_0000;

/// A crowding distance: a number of units, or infinity for the extremes of a
/// front. A larger distance is better, and infinity is larger than every
/// number.
#[derive(Clone, Copy, Debug, PartialEq, Eq, Structural)]
pub enum Crowding {
    Finite(u128),
    Infinite,
}

impl Crowding {
    /// `self` is a larger distance than `other`.
    pub open spec fn exceeds(self, other: Crowding) -> bool {
        match (self, other) {
            (Crowding::Finite(a), Crowding::Finite(b)) => a > b,
            (Crowding::Infinite, Crowding::Finite(_)) => true,
            (_, Crowding::Infinite) => false,
        }
    }

    /// The distance with `units` added; infinity stays infinity.
    pub open spec fn plus(self, units: int) -> Crowding {
        match self {
            Crowding::Finite(a) => Crowding::Finite((a + units) as u128),
            Crowding::Infinite => Crowding::Infinite,
        }
    }

    /// The distance is a number of at most `bound` units, or infinity.
    pub open spec fn within(self, bound: int) -> bool {
        match self {
            Crowding::Finite(a) => a <= bound,
            Crowding::Infinite => true,
        }
    }

    /// Is `self` a larger distance than `other`?
    pub fn is_larger_than(&self, other: &Crowding) -> (r: bool)
        ensures
            r == self.exceeds(*other),
    {
        match (self, other) {
            (Crowding::Finite(a), Crowding::Finite(b)) => *a > *b,
            (Crowding::Infinite, Crowding::Finite(_)) => true,
            (_, Crowding::Infinite) => false,
        }
    }

    /// Is the distance infinite?
    pub fn is_infinite(&self) -> (r: bool)
        ensures
            r == (*self == Crowding::Infinite),
    {
        match self {
            Crowding::Infinite => true,
            Crowding::Finite(_) => false,
        }
    }
}

/// The magnitude of a signed distance.
pub open spec fn magnitude_of(d: i64) -> int {
    if d < 0 {
        -d
    } else {
        d as int
    }
}

/// What one objective adds to the crowding distance of a solution whose
/// neighbours are `gap` apart, in a front of spread `spread`, with `k`
/// objectives in all.
pub open spec fn share_of(gap: int, spread: int, k: int) -> int {
    (gap * CROWDING_UNIT) / (k * spread)
}

/// Returns the magnitude of a signed distance.
pub fn magnitude(d: i64) -> (m: u64)
    ensures
        m == magnitude_of(d),
{
    if d >= 0 {
        d as u64
    } else {
        ((-(d + 1)) as u64) + 1
    }
}

/// Returns what one objective adds to the crowding distance of a solution
/// whose neighbours are `gap` apart.
pub fn share(gap: u64, spread: u64, k: usize) -> (units: u128)
    requires
        spread > 0,
        k > 0,
    ensures
        units == share_of(gap as int, spread as int, k as int),
        units * k <= 0x1_0000_0000_0000_0000_0000_0000,
{
    let numerator: u128 = (gap as u128) * CROWDING_UNIT;
    proof {
        assert(gap * CROWDING_UNIT <= 0x1_0000_0000_0000_0000_0000_0000) by (nonlinear_arith)
            requires
                gap <= 0xffff_ffff_ffff_ffff,
                CROWDING_UNIT == 0x1_0000_0000,
        ;
        assert(0 < k * spread <= 0xffff_ffff_ffff_ffff * 0xffff_ffff_ffff_ffff) by (nonlinear_arith)
            requires
                0 < k <= 0xffff_ffff_ffff_ffff,
                0 < spread <= 0xffff_ffff_ffff_ffff,
        ;
    }
    let denominator: u128 = (k as u128) * (spread as u128);
    let units = numerator / denominator;
    proof {
        let n = numerator as int;
        let d = denominator as int;
        let q = units as int;
        assert(q * d <= n) by (nonlinear_arith)
            requires
                q == n / d,
                d > 0,
                n >= 0,
        ;
        assert(q * k <= q * d) by (nonlinear_arith)
            requires
                d == k * spread,
                spread >= 1,
                q >= 0,
                k > 0,
        ;
    }
    units
}

/// A solution of a front together with its rank and crowding distance.
pub struct AssignedCrowdingDistance<'a, S> {
    /// The index of the solution among all solutions.
    pub index: usize,
    pub solution: &'a S,
    /// The number of the front that holds the solution; 0 is the best front.
    pub rank: usize,
    pub crowding_distance: Crowding,
}

/// What one objective finds about a front.
pub struct ObjectiveStat {
    /// The distance between the best and the worst solution of the front.
    pub spread: u64,
}

/// A place in a front and the crowding distance gathered for it so far.
#[derive(Clone, Copy)]
pub struct Entry {
    pub position: usize,
    pub distance: Crowding,
}

impl<'a, S> MultiObjective<'a, S, i64> {
    /// Under objective `m`, the solution at `x` must come after the one at `y`.
    pub open spec fn comes_after(&self, m: int, front: Seq<(usize, &S)>) -> spec_fn(
        Entry,
        Entry,
    ) -> bool {
        |x: Entry, y: Entry|
            self.order_at(m, front[x.position as int].1, front[y.position as int].1)
                == Verdict::Greater
    }

    /// The entries sorted by objective `m`.
    pub open spec fn arranged(&self, m: int, front: Seq<(usize, &S)>, entries: Seq<Entry>) -> Seq<
        Entry,
    > {
        sorted_by(entries, self.comes_after(m, front))
    }

    /// The spread under objective `m` of a front arranged by it: the magnitude
    /// of the distance between its first and its last solution.
    pub open spec fn spread_in(&self, m: int, front: Seq<(usize, &S)>, sorted: Seq<Entry>) -> int {
        magnitude_of(
            self.gap_at(
                m,
                front[sorted[0].position as int].1,
                front[sorted[sorted.len() - 1].position as int].1,
            ),
        )
    }

    /// The distance of the entry at place `i` of a front arranged by objective
    /// `m`, once that objective has been taken into account.
    pub open spec fn updated(&self, m: int, front: Seq<(usize, &S)>, sorted: Seq<Entry>, i: int) -> Crowding {
        let spread = self.spread_in(m, front, sorted);
        if i == 0 || i == sorted.len() - 1 {
            Crowding::Infinite
        } else if spread > 0 {
            sorted[i].distance.plus(
                share_of(
                    magnitude_of(
                        self.gap_at(
                            m,
                            front[sorted[i + 1].position as int].1,
                            front[sorted[i - 1].position as int].1,
                        ),
                    ),
                    spread,
                    self.count() as int,
                ),
            )
        } else {
            sorted[i].distance
        }
    }

    /// The entries once objective `m` has been taken into account: arranged by
    /// it, each with its distance updated.
    pub open spec fn step(&self, m: int, front: Seq<(usize, &S)>, entries: Seq<Entry>) -> Seq<Entry> {
        let sorted = self.arranged(m, front, entries);
        Seq::new(
            sorted.len(),
            |i: int|
                Entry {
                    position: sorted[i].position,
                    distance: self.updated(m, front, sorted, i),
                },
        )
    }

    /// The entries once the first `m` objectives have been taken into account.
    /// At the start every place of the front has distance zero, in the order of
    /// the front.
    pub open spec fn entries_after(&self, m: nat, front: Seq<(usize, &S)>) -> Seq<Entry>
        decreases m,
    {
        if m == 0 {
            Seq::new(
                front.len(),
                |i: int| Entry { position: i as usize, distance: Crowding::Finite(0) },
            )
        } else {
            self.step(m - 1, front, self.entries_after((m - 1) as nat, front))
        }
    }

    /// The spread of the front under objective `m`.
    pub open spec fn spread_of(&self, m: int, front: Seq<(usize, &S)>) -> int {
        self.spread_in(m, front, self.arranged(m, front, self.entries_after(m as nat, front)))
    }
}

/// The largest number of units that a finite crowding distance can reach.
pub const CROWDING_MAX: u128 = 0x1_0000_0000_0000_0000_0000_0000;

/// The distance is a number of units that, taken `k` times, is at most
/// `m` times the largest share, or infinity.
pub open spec fn bounded_by(distance: Crowding, m: int, k: int) -> bool {
    match distance {
        Crowding::Finite(a) => a * k <= m * CROWDING_MAX,
        Crowding::Infinite => true,
    }
}

/// Computes, for every place of `front`, the crowding distance under all
/// objectives, and for every objective the spread of the front. The entries
/// come in the order that the last objective leaves them in.
pub fn crowding_entries<S>(front: &[(usize, &S)], multi_objective: &MultiObjective<S, i64>) -> (out: (
    Vec<Entry>,
    Vec<ObjectiveStat>,
))
    requires
        front@.len() > 0,
    ensures
        out.0@ == multi_objective.entries_after(multi_objective.count(), front@),
        out.0@.len() == front@.len(),
        forall|i: int|
            0 <= i < out.0@.len() ==> (#[trigger] out.0@[i]).position < front@.len()
                && out.0@[i].distance.within(CROWDING_MAX as int),
        out.1@.len() == multi_objective.count(),
        forall|m: int|
            0 <= m < out.1@.len() ==> (#[trigger] out.1@[m]).spread == multi_objective.spread_of(
                m,
                front@,
            ),
        multi_objective.count() > 0 ==> out.0@[0].distance == Crowding::Infinite
            && out.0@[front@.len() - 1].distance == Crowding::Infinite,
{
    let len = front.len();
    let k = multi_objective.len();
    let mut entries: Vec<Entry> = Vec::new();
    let mut stats: Vec<ObjectiveStat> = Vec::new();
    let mut i: usize = 0;
    while i < len
        invariant
            i <= len,
            len == front@.len(),
            entries@.len() == i,
            forall|t: int|
                0 <= t < i ==> #[trigger] entries@[t] == (Entry {
                    position: t as usize,
                    distance: Crowding::Finite(0),
                }),
        decreases len - i,
    {
        entries.push(Entry { position: i, distance: Crowding::Finite(0) });
        i = i + 1;
    }
    proof {
        assert(entries@ =~= multi_objective.entries_after(0, front@));
        assert forall|t: int| 0 <= t < entries@.len() implies (#[trigger] entries@[t]).position
            < len && bounded_by(entries@[t].distance, 0, k as int) by {
            assert(entries@[t].distance == Crowding::Finite(0));
            assert(0 * k <= 0 * CROWDING_MAX) by (nonlinear_arith);
        }
    }
    let mut m: usize = 0;
    while m < k
        invariant
            m <= k,
            k == multi_objective.count(),
            len == front@.len(),
            len > 0,
            entries@ == multi_objective.entries_after(m as nat, front@),
            entries@.len() == len,
            forall|t: int|
                0 <= t < entries@.len() ==> (#[trigger] entries@[t]).position < len && bounded_by(
                    entries@[t].distance,
                    m as int,
                    k as int,
                ),
            stats@.len() == m,
            forall|t: int|
                0 <= t < m ==> (#[trigger] stats@[t]).spread == multi_objective.spread_of(t, front@),
            m > 0 ==> entries@[0].distance == Crowding::Infinite && entries@[len - 1].distance
                == Crowding::Infinite,
        decreases k - m,
    {
        let ghost before = entries@;
        let ghost gt = multi_objective.comes_after(m as int, front@);
        let ghost valid = |e: Entry| e.position < len && bounded_by(e.distance, m as int, k as int);
        let greater = |x: &Entry, y: &Entry| -> (r: bool)
            requires
                x.position < front@.len(),
                y.position < front@.len(),
            ensures
                r == (multi_objective.order_at(
                    m as int,
                    front@[x.position as int].1,
                    front@[y.position as int].1,
                ) == Verdict::Greater),
            {
                multi_objective.order(m, front[x.position].1, front[y.position].1)
                    == Verdict::Greater
            };
        sort_by(&mut entries, &greater, Ghost(gt), Ghost(valid));
        let ghost sorted = entries@;
        proof {
            crate::stable_sort::lemma_sorted_keeps(before, gt, valid);
            crate::stable_sort::lemma_sorted_all(before, gt, valid);
            assert(sorted == multi_objective.arranged(m as int, front@, before));
            assert forall|t: int| 0 <= t < sorted.len() implies valid(#[trigger] sorted[t]) by {}
        }
        let first = front[entries[0].position].1;
        let last = front[entries[len - 1].position].1;
        let spread = magnitude(multi_objective.gap(m, first, last));
        proof {
            assert(spread == multi_objective.spread_in(m as int, front@, sorted));
        }
        let mut i: usize = 0;
        while i < len
            invariant
                i <= len,
                m < k,
                k == multi_objective.count(),
                len == front@.len(),
                len > 0,
                entries@.len() == len,
                sorted.len() == len,
                spread == multi_objective.spread_in(m as int, front@, sorted),
                forall|t: int|
                    0 <= t < sorted.len() ==> (#[trigger] sorted[t]).position < len && bounded_by(
                        sorted[t].distance,
                        m as int,
                        k as int,
                    ),
                forall|t: int| i <= t < len ==> #[trigger] entries@[t] == sorted[t],
                forall|t: int|
                    0 <= t < i ==> #[trigger] entries@[t] == (Entry {
                        position: sorted[t].position,
                        distance: multi_objective.updated(m as int, front@, sorted, t),
                    }) && bounded_by(entries@[t].distance, m + 1, k as int),
            decreases len - i,
        {
            let entry = entries[i];
            let distance = if i == 0 || i == len - 1 {
                Crowding::Infinite
            } else if spread > 0 {
                let next = front[entries[i + 1].position].1;
                let ghost checked = sorted[i - 1];
                proof {
                    assert(entries@[i - 1].position == checked.position);
                }
                let prev = front[entries[i - 1].position].1;
                let units = share(magnitude(multi_objective.gap(m, next, prev)), spread, k);
                match entry.distance {
                    Crowding::Finite(a) => {
                        proof {
                            assert(bounded_by(sorted[i as int].distance, m as int, k as int));
                            assert(a + units <= CROWDING_MAX) by (nonlinear_arith)
                                requires
                                    a * k <= m * CROWDING_MAX,
                                    units * k <= CROWDING_MAX,
                                    0 <= m < k,
                                    a >= 0,
                                    units >= 0,
                                    CROWDING_MAX == 0x1_0000_0000_0000_0000_0000_0000,
                            ;
                            assert((a + units) * k <= (m + 1) * CROWDING_MAX) by (nonlinear_arith)
                                requires
                                    a * k <= m * CROWDING_MAX,
                                    units * k <= CROWDING_MAX,
                            ;
                        }
                        Crowding::Finite(a + units)
                    },
                    Crowding::Infinite => Crowding::Infinite,
                }
            } else {
                proof {
                    let a = entry.distance;
                    assert(bounded_by(sorted[i as int].distance, m as int, k as int));
                    assert(bounded_by(a, m + 1, k as int)) by {
                        if let Crowding::Finite(v) = a {
                            assert(v * k <= (m + 1) * CROWDING_MAX) by (nonlinear_arith)
                                requires
                                    v * k <= m * CROWDING_MAX,
                                    CROWDING_MAX >= 0,
                            ;
                        }
                    }
                }
                entry.distance
            };
            entries.set(i, Entry { position: entry.position, distance });
            i = i + 1;
        }
        stats.push(ObjectiveStat { spread });
        proof {
            assert(entries@ =~= multi_objective.step(m as int, front@, before));
            assert(entries@[0].distance == multi_objective.updated(m as int, front@, sorted, 0));
            assert(entries@[len - 1].distance == multi_objective.updated(
                m as int,
                front@,
                sorted,
                len - 1,
            ));
        }
        m = m + 1;
    }
    proof {
        assert forall|t: int| 0 <= t < entries@.len() implies (#[trigger] entries@[t]).distance.within(
            CROWDING_MAX as int,
        ) by {
            if let Crowding::Finite(v) = entries@[t].distance {
                assert(bounded_by(entries@[t].distance, k as int, k as int));
                if k > 0 {
                    assert(v <= CROWDING_MAX) by (nonlinear_arith)
                        requires
                            v * k <= k * CROWDING_MAX,
                            k > 0,
                    ;
                } else {
                    assert(entries@[t] == Entry {
                        position: t as usize,
                        distance: Crowding::Finite(0),
                    });
                }
            }
        }
    }
    (entries, stats)
}

/// Assigns a crowding distance to each solution in `front`, which is front
/// number `rank`. Returns the solutions in the order that the last objective
/// leaves them in, and for every objective what it found about the front.
pub fn assign_crowding_distance<'a, S>(
    front: &[(usize, &'a S)],
    rank: usize,
    multi_objective: &MultiObjective<S, i64>,
) -> (out: (Vec<AssignedCrowdingDistance<'a, S>>, Vec<ObjectiveStat>))
    requires
        front@.len() > 0,
    ensures
        out.0@.len() == front@.len(),
        forall|i: int|
            0 <= i < out.0@.len() ==> describes(
                #[trigger] out.0@[i],
                front@,
                rank,
                multi_objective.entries_after(multi_objective.count(), front@)[i],
            ),
        out.1@.len() == multi_objective.count(),
        forall|m: int|
            0 <= m < out.1@.len() ==> (#[trigger] out.1@[m]).spread == multi_objective.spread_of(
                m,
                front@,
            ),
        multi_objective.count() > 0 ==> out.0@[0].crowding_distance == Crowding::Infinite
            && out.0@[front@.len() - 1].crowding_distance == Crowding::Infinite,
{
    let (entries, stats) = crowding_entries(front, multi_objective);
    let mut assigned: Vec<AssignedCrowdingDistance<'a, S>> = Vec::new();
    let mut i: usize = 0;
    while i < entries.len()
        invariant
            i <= entries@.len(),
            assigned@.len() == i,
            forall|t: int|
                0 <= t < entries@.len() ==> (#[trigger] entries@[t]).position < front@.len()
                    && entries@[t].distance.within(CROWDING_MAX as int),
            forall|t: int| 0 <= t < i ==> describes(#[trigger] assigned@[t], front@, rank, entries@[t]),
        decreases entries@.len() - i,
    {
        let entry = entries[i];
        let (index, solution) = front[entry.position];
        assigned.push(
            AssignedCrowdingDistance { index, solution, rank, crowding_distance: entry.distance },
        );
        i = i + 1;
    }
    (assigned, stats)
}

/// In a front of two or more solutions, judged by at least one objective, at
/// least two solutions have an infinite crowding distance.
pub proof fn lemma_crowding_extremes<'a, S>(
    multi_objective: MultiObjective<'a, S, i64>,
    front: Seq<(usize, &S)>,
)
    requires
        front.len() >= 2,
        multi_objective.count() >= 1,
    ensures
        count_of(
            multi_objective.entries_after(multi_objective.count(), front),
            |e: Entry| e.distance == Crowding::Infinite,
        ) >= 2,
{
    let k = multi_objective.count();
    let infinite = |e: Entry| e.distance == Crowding::Infinite;
    lemma_entries_len(multi_objective, (k - 1) as nat, front);
    let before = multi_objective.entries_after((k - 1) as nat, front);
    let sorted = multi_objective.arranged(k - 1, front, before);
    crate::stable_sort::lemma_sorted_keeps(
        before,
        multi_objective.comes_after(k - 1, front),
        infinite,
    );
    let after = multi_objective.entries_after(k, front);
    assert(after == multi_objective.step(k - 1, front, before));
    assert(infinite(after[0]));
    assert(infinite(after[after.len() - 1]));
    crate::stable_sort::lemma_count_two(after, infinite, 0, after.len() - 1);
}

/// The place of an entry, as a key.
pub open spec fn place() -> spec_fn(Entry) -> int {
    |e: Entry| e.position as int
}

/// Whatever objectives have been taken into account, the entries stand for
/// the places of the front, each place once.
pub proof fn lemma_entries_places<'a, S>(
    multi_objective: MultiObjective<'a, S, i64>,
    m: nat,
    front: Seq<(usize, &S)>,
)
    requires
        front.len() <= usize::MAX,
    ensures
        multi_objective.entries_after(m, front).len() == front.len(),
        distinct_by(multi_objective.entries_after(m, front), place()),
        forall|i: int|
            0 <= i < front.len() ==> (#[trigger] multi_objective.entries_after(
                m,
                front,
            )[i]).position < front.len(),
    decreases m,
{
    let entries = multi_objective.entries_after(m, front);
    if m > 0 {
        lemma_entries_places(multi_objective, (m - 1) as nat, front);
        let before = multi_objective.entries_after((m - 1) as nat, front);
        let gt = multi_objective.comes_after(m - 1, front);
        let sorted = multi_objective.arranged(m - 1, front, before);
        let inside = |e: Entry| e.position < front.len();
        crate::stable_sort::lemma_sorted_keeps(before, gt, inside);
        crate::stable_sort::lemma_sorted_all(before, gt, inside);
        crate::stable_sort::lemma_sorted_distinct(before, gt, place());
        assert forall|i: int, j: int| 0 <= i < j < entries.len() implies place()(
            #[trigger] entries[i],
        ) != place()(#[trigger] entries[j]) by {
            assert(entries[i].position == sorted[i].position);
            assert(entries[j].position == sorted[j].position);
            assert(place()(sorted[i]) != place()(sorted[j]));
        }
        assert forall|i: int| 0 <= i < front.len() implies (#[trigger] entries[i]).position
            < front.len() by {
            assert(inside(sorted[i]));
        }
    }
}

/// Whatever objectives have been taken into account, every finite crowding
/// distance is within range.
pub proof fn lemma_entries_within<'a, S>(
    multi_objective: MultiObjective<'a, S, i64>,
    m: nat,
    front: Seq<(usize, &S)>,
)
    requires
        m <= multi_objective.count(),
        front.len() <= usize::MAX,
    ensures
        forall|i: int|
            0 <= i < multi_objective.entries_after(m, front).len() ==> bounded_by(
                (#[trigger] multi_objective.entries_after(m, front)[i]).distance,
                m as int,
                multi_objective.count() as int,
            ),
        m == multi_objective.count() ==> forall|i: int|
            0 <= i < multi_objective.entries_after(m, front).len() ==> (
            #[trigger] multi_objective.entries_after(m, front)[i]).distance.within(
                CROWDING_MAX as int,
            ),
    decreases m,
{
    let k = multi_objective.count() as int;
    let entries = multi_objective.entries_after(m, front);
    if m == 0 {
        assert forall|i: int| 0 <= i < entries.len() implies bounded_by(
            (#[trigger] entries[i]).distance,
            0,
            k,
        ) by {
            assert(0 * k <= 0 * CROWDING_MAX) by (nonlinear_arith);
        }
    } else {
        lemma_entries_within(multi_objective, (m - 1) as nat, front);
        lemma_entries_len(multi_objective, (m - 1) as nat, front);
        let before = multi_objective.entries_after((m - 1) as nat, front);
        let gt = multi_objective.comes_after(m - 1, front);
        let sorted = multi_objective.arranged(m - 1, front, before);
        let bounded = |e: Entry| bounded_by(e.distance, m - 1, k);
        crate::stable_sort::lemma_sorted_keeps(before, gt, bounded);
        crate::stable_sort::lemma_sorted_all(before, gt, bounded);
        let spread = multi_objective.spread_in(m - 1, front, sorted);
        assert forall|i: int| 0 <= i < entries.len() implies bounded_by(
            (#[trigger] entries[i]).distance,
            m as int,
            k,
        ) by {
            assert(bounded(sorted[i]));
            assert(entries[i].distance == multi_objective.updated(m - 1, front, sorted, i));
            match sorted[i].distance {
                Crowding::Finite(a) => {
                    if i == 0 || i == sorted.len() - 1 {
                    } else if spread > 0 {
                        let gap = magnitude_of(
                            multi_objective.gap_at(
                                m - 1,
                                front[sorted[i + 1].position as int].1,
                                front[sorted[i - 1].position as int].1,
                            ),
                        );
                        let units = share_of(gap, spread, k);
                        lemma_share(gap, spread, k);
                        assert(a + units <= CROWDING_MAX) by (nonlinear_arith)
                            requires
                                a * k <= (m - 1) * CROWDING_MAX,
                                units * k <= CROWDING_MAX,
                                0 <= m - 1 < k,
                                a >= 0,
                                units >= 0,
                                CROWDING_MAX == 0x1_0000_0000_0000_0000_0000_0000,
                        ;
                        assert((a + units) * k <= m * CROWDING_MAX) by (nonlinear_arith)
                            requires
                                a * k <= (m - 1) * CROWDING_MAX,
                                units * k <= CROWDING_MAX,
                        ;
                    } else {
                        assert(a * k <= m * CROWDING_MAX) by (nonlinear_arith)
                            requires
                                a * k <= (m - 1) * CROWDING_MAX,
                                CROWDING_MAX >= 0,
                        ;
                    }
                },
                Crowding::Infinite => {},
            }
        }
    }
    if m == multi_objective.count() {
        assert forall|i: int| 0 <= i < entries.len() implies (#[trigger] entries[i]).distance.within(
            CROWDING_MAX as int,
        ) by {
            assert(bounded_by(entries[i].distance, m as int, k));
            if let Crowding::Finite(v) = entries[i].distance {
                if k > 0 {
                    assert(v <= CROWDING_MAX) by (nonlinear_arith)
                        requires
                            v * k <= k * CROWDING_MAX,
                            k > 0,
                    ;
                }
            }
        }
    }
}

/// What one objective adds, taken as many times as there are objectives, is at
/// most the largest share.
pub proof fn lemma_share(gap: int, spread: int, k: int)
    requires
        0 <= gap <= 0xffff_ffff_ffff_ffff,
        spread > 0,
        k > 0,
    ensures
        0 <= share_of(gap, spread, k),
        share_of(gap, spread, k) * k <= CROWDING_MAX,
{
    let n = gap * CROWDING_UNIT;
    let d = k * spread;
    let q = n / d;
    assert(0 <= n <= CROWDING_MAX) by (nonlinear_arith)
        requires
            0 <= gap <= 0xffff_ffff_ffff_ffff,
            n == gap * CROWDING_UNIT,
            CROWDING_UNIT == 0x1_0000_0000,
            CROWDING_MAX == 0x1_0000_0000_0000_0000_0000_0000,
    ;
    assert(d > 0) by (nonlinear_arith)
        requires
            d == k * spread,
            k > 0,
            spread > 0,
    ;
    assert(0 <= q && q * d <= n) by (nonlinear_arith)
        requires
            q == n / d,
            d > 0,
            n >= 0,
    ;
    assert(q * k <= q * d) by (nonlinear_arith)
        requires
            d == k * spread,
            spread >= 1,
            q >= 0,
            k > 0,
    ;
}

/// Whatever objectives have been taken into account, every place of the front
/// has an entry.
pub proof fn lemma_entries_every_place<'a, S>(
    multi_objective: MultiObjective<'a, S, i64>,
    m: nat,
    front: Seq<(usize, &S)>,
    p: int,
)
    requires
        0 <= p < front.len() <= usize::MAX,
    ensures
        count_of(multi_objective.entries_after(m, front), has_key(place(), p)) >= 1,
    decreases m,
{
    let entries = multi_objective.entries_after(m, front);
    let pred = has_key(place(), p);
    if m == 0 {
        assert(pred(entries[p]));
        crate::stable_sort::lemma_count_one(entries, pred, p);
    } else {
        lemma_entries_every_place(multi_objective, (m - 1) as nat, front, p);
        let before = multi_objective.entries_after((m - 1) as nat, front);
        let gt = multi_objective.comes_after(m - 1, front);
        let sorted = multi_objective.arranged(m - 1, front, before);
        crate::stable_sort::lemma_sorted_keeps(before, gt, pred);
        let i = crate::stable_sort::lemma_count_witness(sorted, pred);
        assert(entries[i].position == sorted[i].position);
        assert(pred(entries[i]));
        crate::stable_sort::lemma_count_one(entries, pred, i);
    }
}

/// Taking objectives into account keeps the number of entries.
pub proof fn lemma_entries_len<'a, S>(
    multi_objective: MultiObjective<'a, S, i64>,
    m: nat,
    front: Seq<(usize, &S)>,
)
    ensures
        multi_objective.entries_after(m, front).len() == front.len(),
    decreases m,
{
    if m > 0 {
        lemma_entries_len(multi_objective, (m - 1) as nat, front);
        let before = multi_objective.entries_after((m - 1) as nat, front);
        crate::stable_sort::lemma_sorted_keeps(
            before,
            multi_objective.comes_after(m - 1, front),
            |e: Entry| true,
        );
    }
}

/// `assigned` is the solution at the place of `entry` in `front`, with rank
/// `rank` and the distance of `entry`, which is infinite or within range.
pub open spec fn describes<S>(
    assigned: AssignedCrowdingDistance<S>,
    front: Seq<(usize, &S)>,
    rank: usize,
    entry: Entry,
) -> bool {
    &&& entry.position < front.len()
    &&& assigned.index == front[entry.position as int].0
    &&& assigned.solution == front[entry.position as int].1
    &&& assigned.rank == rank
    &&& assigned.crowding_distance == entry.distance
    &&& entry.distance.within(CROWDING_MAX as int)
}

} // verus!
