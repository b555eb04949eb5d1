//! The selection of survivors by front rank and crowding distance.
//!
//! The solutions are sorted into Pareto fronts. Whole fronts survive, best
//! front first, as long as they fit. Of the first front that does not fit, the
//! solutions with the largest crowding distances survive.

use crate::crowding_distance::{crowding_entries, AssignedCrowdingDistance, Entry};
use crate::fronts::{
    ascending, follows, is_front_chain, lemma_chain_push, lemma_nothing_left, lemma_unplaced_none,
    placed_upto, stops_at, total_upto, well_founded,
};
use crate::multi_objective::MultiObjective;
use crate::non_dominated_sort::{index_lists, indices, refers_to, NonDominatedSorter};
use crate::stable_sort::{distinct_by, sort_by, sorted_by};
use vstd::prelude::*;

verus! {

/// The number of survivors when `n` are asked for out of `len`.
pub open spec fn capped(n: nat, len: nat) -> nat {
    if n <= len {
        n
    } else {
        len
    }
}

/// Entry `x` must come after entry `y`: `y` has the larger crowding distance.
pub open spec fn less_crowded() -> spec_fn(Entry, Entry) -> bool {
    |x: Entry, y: Entry| y.distance.exceeds(x.distance)
}

/// The solutions that the entries stand for, each with rank `rank` and the
/// distance of its entry.
pub open spec fn assigned_of<'a, S>(front: Seq<(usize, &'a S)>, rank: usize, entries: Seq<Entry>) -> Seq<
    AssignedCrowdingDistance<'a, S>,
> {
    Seq::new(
        entries.len(),
        |i: int|
            AssignedCrowdingDistance {
                index: front[entries[i].position as int].0,
                solution: front[entries[i].position as int].1,
                rank,
                crowding_distance: entries[i].distance,
            },
    )
}

impl<'a, S> MultiObjective<'a, S, i64> {
    /// The survivors of one front when `room` places are left. A front that
    /// fits survives whole, in the order that the crowding distances were
    /// computed in. Of a front that does not fit, the `room` solutions with the
    /// largest crowding distances survive, the largest first, solutions of
    /// equal distance in the order just named.
    #[verifier::opaque]
    pub open spec fn survivors<'b>(&self, front: Seq<(usize, &'b S)>, rank: usize, room: nat) -> Seq<
        AssignedCrowdingDistance<'b, S>,
    > {
        let entries = self.entries_after(self.count(), front);
        if front.len() <= room {
            assigned_of(front, rank, entries)
        } else {
            assigned_of(front, rank, sorted_by(entries, less_crowded()).take(room as int))
        }
    }

    /// The survivors of the first `r` fronts when `cap` places are to be
    /// filled.
    #[verifier::opaque]
    pub open spec fn selection<'b>(&self, fronts: Seq<Seq<(usize, &'b S)>>, cap: nat, r: nat) -> Seq<
        AssignedCrowdingDistance<'b, S>,
    >
        decreases r,
    {
        if r == 0 {
            Seq::empty()
        } else {
            let before = self.selection(fronts, cap, (r - 1) as nat);
            before + self.survivors(
                fronts[r - 1],
                (r - 1) as usize,
                (cap - before.len()) as nat,
            )
        }
    }

    /// `fronts` are the Pareto fronts of `solutions` that a selection of `cap`
    /// survivors looks at: the leading fronts, up to the first one with which
    /// they hold `cap` solutions or more.
    pub open spec fn fronts_for<'b>(&self, solutions: Seq<S>, cap: nat, fronts: Seq<Seq<(usize, &'b S)>>) -> bool {
        &&& is_front_chain(
            solutions.len(),
            self.dominance_edges(solutions),
            index_lists(fronts),
        )
        &&& stops_at(
            solutions.len(),
            self.dominance_edges(solutions),
            index_lists(fronts),
            cap,
        )
        &&& forall|k: int| 0 <= k < fronts.len() ==> refers_to(#[trigger] fronts[k], solutions)
    }

    /// The first `r` fronts do not change when a front is appended, and
    /// neither do their survivors.
    pub proof fn lemma_selection_push<'b>(
        &self,
        fronts: Seq<Seq<(usize, &'b S)>>,
        front: Seq<(usize, &'b S)>,
        cap: nat,
        r: nat,
    )
        requires
            r <= fronts.len(),
        ensures
            self.selection(fronts.push(front), cap, r) == self.selection(fronts, cap, r),
        decreases r,
    {
        reveal_with_fuel(MultiObjective::selection, 2);
        if r > 0 {
            self.lemma_selection_push(fronts, front, cap, (r - 1) as nat);
            assert(fronts.push(front)[r - 1] == fronts[r - 1]);
        }
    }

    /// The survivors of the first `r` fronts are those of the fronts before
    /// the last of them, followed by the survivors of that last front.
    pub proof fn lemma_selection_step<'b>(&self, fronts: Seq<Seq<(usize, &'b S)>>, cap: nat, r: nat)
        ensures
            self.selection(fronts, cap, 0) == Seq::<AssignedCrowdingDistance<'b, S>>::empty(),
            r > 0 ==> self.selection(fronts, cap, r) == self.selection(
                fronts,
                cap,
                (r - 1) as nat,
            ) + self.survivors(
                fronts[r - 1],
                (r - 1) as usize,
                (cap - self.selection(fronts, cap, (r - 1) as nat).len()) as nat,
            ),
    {
        reveal_with_fuel(MultiObjective::selection, 2);
    }

    /// What survives of one front, spelled out.
    pub proof fn lemma_survivors<'b>(&self, front: Seq<(usize, &'b S)>, rank: usize, room: nat)
        ensures
            self.survivors(front, rank, room) == if front.len() <= room {
                assigned_of(front, rank, self.entries_after(self.count(), front))
            } else {
                assigned_of(
                    front,
                    rank,
                    sorted_by(self.entries_after(self.count(), front), less_crowded()).take(
                        room as int,
                    ),
                )
            },
    {
        reveal(MultiObjective::survivors);
    }
}

/// Appends to `result` the solutions that the first `count` entries stand for.
pub fn append_assigned<'a, S>(
    result: &mut Vec<AssignedCrowdingDistance<'a, S>>,
    front: &[(usize, &'a S)],
    rank: usize,
    entries: &Vec<Entry>,
    count: usize,
)
    requires
        count <= entries@.len(),
        forall|i: int| 0 <= i < entries@.len() ==> (#[trigger] entries@[i]).position < front@.len(),
    ensures
        final(result)@ == old(result)@ + assigned_of(front@, rank, entries@.take(count as int)),
{
    let ghost before = result@;
    let mut i: usize = 0;
    proof {
        assert(result@ =~= before + assigned_of(front@, rank, entries@.take(0)));
    }
    while i < count
        invariant
            i <= count <= entries@.len(),
            forall|t: int|
                0 <= t < entries@.len() ==> (#[trigger] entries@[t]).position < front@.len(),
            result@ == before + assigned_of(front@, rank, entries@.take(i as int)),
        decreases count - i,
    {
        let entry = entries[i];
        let (index, solution) = front[entry.position];
        result.push(
            AssignedCrowdingDistance { index, solution, rank, crowding_distance: entry.distance },
        );
        proof {
            assert(result@ =~= before + assigned_of(front@, rank, entries@.take(i + 1)));
        }
        i = i + 1;
    }
}

/// The index of a chosen solution, as a key.
pub open spec fn index_key<'a, S>() -> spec_fn(AssignedCrowdingDistance<'a, S>) -> int {
    |a: AssignedCrowdingDistance<'a, S>| a.index as int
}

/// The chosen solutions are different solutions, all of them out of `placed`.
pub open spec fn chosen_from<'a, S>(
    chosen: Seq<AssignedCrowdingDistance<'a, S>>,
    placed: Set<int>,
) -> bool {
    &&& distinct_by(chosen, index_key())
    &&& forall|t: int| 0 <= t < chosen.len() ==> placed.contains((#[trigger] chosen[t]).index as int)
}

/// The survivors of a front are different solutions of that front, and so the
/// chosen solutions stay different when survivors of a new front join them.
pub proof fn lemma_survivors_join<'a, S>(
    multi_objective: &MultiObjective<S, i64>,
    chosen: Seq<AssignedCrowdingDistance<'a, S>>,
    placed: Set<int>,
    front: Seq<(usize, &'a S)>,
    rank: usize,
    room: nat,
)
    requires
        chosen_from(chosen, placed),
        front.len() <= usize::MAX,
        indices(front).no_duplicates(),
        forall|q: int| crate::fronts::members(indices(front)).contains(q) ==> !placed.contains(q),
    ensures
        chosen_from(
            chosen + multi_objective.survivors(front, rank, room),
            placed.union(crate::fronts::members(indices(front))),
        ),
{
    multi_objective.lemma_survivors(front, rank, room);
    crate::crowding_distance::lemma_entries_places(*multi_objective, multi_objective.count(), front);
    let entries = multi_objective.entries_after(multi_objective.count(), front);
    let inside = |e: Entry| e.position < front.len();
    let sorted = sorted_by(entries, less_crowded());
    crate::stable_sort::lemma_sorted_keeps(entries, less_crowded(), inside);
    crate::stable_sort::lemma_sorted_all(entries, less_crowded(), inside);
    crate::stable_sort::lemma_sorted_distinct(entries, less_crowded(), crate::crowding_distance::place());
    let kept = if front.len() <= room {
        entries
    } else {
        sorted.take(room as int)
    };
    assert forall|i: int| 0 <= i < kept.len() implies inside(#[trigger] kept[i]) by {
        if front.len() <= room {
        } else {
            assert(kept[i] == sorted[i]);
        }
    }
    assert forall|i: int, j: int| 0 <= i < j < kept.len() implies (#[trigger] kept[i]).position != (
    #[trigger] kept[j]).position by {
        if front.len() <= room {
            assert(crate::crowding_distance::place()(entries[i])
                != crate::crowding_distance::place()(entries[j]));
        } else {
            assert(kept[i] == sorted[i] && kept[j] == sorted[j]);
            assert(crate::crowding_distance::place()(sorted[i])
                != crate::crowding_distance::place()(sorted[j]));
        }
    }
    let joined = multi_objective.survivors(front, rank, room);
    assert(joined == assigned_of(front, rank, kept));
    let all = chosen + joined;
    let after = placed.union(crate::fronts::members(indices(front)));
    assert forall|t: int| 0 <= t < joined.len() implies crate::fronts::members(
        indices(front),
    ).contains((#[trigger] joined[t]).index as int) by {
        let place = kept[t].position as int;
        assert(inside(kept[t]));
        assert(indices(front)[place] == joined[t].index);
    }
    assert forall|t: int| 0 <= t < all.len() implies after.contains((#[trigger] all[t]).index as int) by {
        if t < chosen.len() {
            assert(all[t] == chosen[t]);
        } else {
            assert(all[t] == joined[t - chosen.len()]);
        }
    }
    assert forall|i: int, j: int| 0 <= i < j < all.len() implies index_key()(#[trigger] all[i])
        != index_key()(#[trigger] all[j]) by {
        if j < chosen.len() {
            assert(all[i] == chosen[i] && all[j] == chosen[j]);
            assert(index_key()(chosen[i]) != index_key()(chosen[j]));
        } else if i < chosen.len() {
            assert(all[i] == chosen[i] && all[j] == joined[j - chosen.len()]);
            assert(placed.contains(chosen[i].index as int));
        } else {
            let a = i - chosen.len();
            let b = j - chosen.len();
            assert(all[i] == joined[a] && all[j] == joined[b]);
            assert(inside(kept[a]) && inside(kept[b]));
            assert(indices(front)[kept[a].position as int] == joined[a].index);
            assert(indices(front)[kept[b].position as int] == joined[b].index);
        }
    }
}

/// The state of a selection that has looked at `fronts` and chosen `chosen`.
pub open spec fn progress<'a, S>(
    multi_objective: &MultiObjective<S, i64>,
    solutions: Seq<S>,
    cap: nat,
    fronts: Seq<Seq<(usize, &'a S)>>,
    chosen: Seq<AssignedCrowdingDistance<'a, S>>,
) -> bool {
    &&& is_front_chain(
        solutions.len(),
        multi_objective.dominance_edges(solutions),
        index_lists(fronts),
    )
    &&& forall|k: int| 0 <= k < fronts.len() ==> refers_to(#[trigger] fronts[k], solutions)
    &&& forall|k: int|
        0 < k < fronts.len() ==> #[trigger] total_upto(index_lists(fronts), k as nat) < cap
    &&& chosen == multi_objective.selection(fronts, cap, fronts.len())
    &&& chosen.len() <= cap
    &&& chosen_from(chosen, placed_upto(index_lists(fronts), fronts.len()))
    &&& solutions.len() <= usize::MAX
}

/// Appending the front that follows a chain of fronts gives a chain again,
/// and adds the solutions of that front to those of the chain.
pub proof fn lemma_front_joins<'a, S>(
    total: nat,
    edges: Set<(int, int)>,
    cap: nat,
    fronts: Seq<Seq<(usize, &'a S)>>,
    front: Seq<(usize, &'a S)>,
)
    requires
        is_front_chain(total, edges, index_lists(fronts)),
        forall|k: int|
            0 < k < fronts.len() ==> #[trigger] total_upto(index_lists(fronts), k as nat) < cap,
        fronts.len() > 0 ==> total_upto(index_lists(fronts), fronts.len()) < cap,
        front.len() > 0,
        crate::fronts::exact_front(
            total,
            edges,
            placed_upto(index_lists(fronts), fronts.len()),
            indices(front),
        ),
        if fronts.len() == 0 {
            ascending(indices(front))
        } else {
            follows(edges, indices(fronts[fronts.len() - 1]), indices(front))
        },
    ensures
        is_front_chain(total, edges, index_lists(fronts.push(front))),
        index_lists(fronts.push(front)) == index_lists(fronts).push(indices(front)),
        forall|k: int|
            0 < k < fronts.len() + 1 ==> #[trigger] total_upto(
                index_lists(fronts.push(front)),
                k as nat,
            ) < cap,
        placed_upto(index_lists(fronts.push(front)), (fronts.len() + 1) as nat) == placed_upto(
            index_lists(fronts),
            fronts.len(),
        ).union(crate::fronts::members(indices(front))),
        total_upto(index_lists(fronts.push(front)), (fronts.len() + 1) as nat) == total_upto(
            index_lists(fronts),
            fronts.len(),
        ) + front.len(),
{
    let after = fronts.push(front);
    let views_before = index_lists(fronts);
    let views = index_lists(after);
    assert(views =~= views_before.push(indices(front)));
    if fronts.len() > 0 {
        assert(views_before[fronts.len() - 1] == indices(fronts[fronts.len() - 1]));
    }
    lemma_chain_push(total, edges, views_before, indices(front));
    assert forall|k: int| 0 < k < fronts.len() + 1 implies #[trigger] total_upto(
        views,
        k as nat,
    ) < cap by {
        assert(total_upto(views, k as nat) == total_upto(views_before, k as nat));
    }
    assert(indices(front).len() == front.len());
}

/// Every front still lists solutions by index when one such front is appended.
pub proof fn lemma_refers_push<'a, S>(
    solutions: Seq<S>,
    fronts: Seq<Seq<(usize, &'a S)>>,
    front: Seq<(usize, &'a S)>,
)
    requires
        forall|k: int| 0 <= k < fronts.len() ==> refers_to(#[trigger] fronts[k], solutions),
        refers_to(front, solutions),
    ensures
        forall|k: int|
            0 <= k < fronts.len() + 1 ==> refers_to(#[trigger] fronts.push(front)[k], solutions),
{
    let after = fronts.push(front);
    assert forall|k: int| 0 <= k < after.len() implies refers_to(#[trigger] after[k], solutions) by {
        if k < fronts.len() {
            assert(after[k] == fronts[k]);
        }
    }
}

/// Looking at one more front, which follows the fronts looked at so far, takes
/// a selection from one state to the next. As long as every front has fitted,
/// the selection holds as many solutions as the fronts.
pub proof fn lemma_progress<'a, S>(
    multi_objective: &MultiObjective<S, i64>,
    solutions: Seq<S>,
    cap: nat,
    fronts: Seq<Seq<(usize, &'a S)>>,
    chosen: Seq<AssignedCrowdingDistance<'a, S>>,
    front: Seq<(usize, &'a S)>,
)
    requires
        progress(multi_objective, solutions, cap, fronts, chosen),
        chosen.len() == total_upto(index_lists(fronts), fronts.len()),
        fronts.len() > 0 ==> chosen.len() < cap,
        front.len() > 0,
        refers_to(front, solutions),
        crate::fronts::exact_front(
            solutions.len(),
            multi_objective.dominance_edges(solutions),
            placed_upto(index_lists(fronts), fronts.len()),
            indices(front),
        ),
        if fronts.len() == 0 {
            ascending(indices(front))
        } else {
            follows(
                multi_objective.dominance_edges(solutions),
                indices(fronts[fronts.len() - 1]),
                indices(front),
            )
        },
    ensures
        progress(
            multi_objective,
            solutions,
            cap,
            fronts.push(front),
            chosen + multi_objective.survivors(
                front,
                fronts.len() as usize,
                (cap - chosen.len()) as nat,
            ),
        ),
        index_lists(fronts.push(front)) == index_lists(fronts).push(indices(front)),
        placed_upto(index_lists(fronts.push(front)), (fronts.len() + 1) as nat) == placed_upto(
            index_lists(fronts),
            fronts.len(),
        ).union(crate::fronts::members(indices(front))),
        total_upto(index_lists(fronts.push(front)), (fronts.len() + 1) as nat) == chosen.len()
            + front.len(),
        multi_objective.survivors(front, fronts.len() as usize, (cap - chosen.len()) as nat).len()
            == if front.len() <= cap - chosen.len() {
            front.len() as int
        } else {
            cap - chosen.len()
        },
{
    let total = solutions.len();
    let edges = multi_objective.dominance_edges(solutions);
    let after = fronts.push(front);
    let room = (cap - chosen.len()) as nat;
    let rank = fronts.len() as usize;
    lemma_front_joins(total, edges, cap, fronts, front);
    lemma_refers_push(solutions, fronts, front);
    assert(indices(front).len() == front.len());
    assert forall|i: int| 0 <= i < indices(front).len() implies #[trigger] indices(front)[i]
        < total by {}
    crate::fronts::lemma_front_size(total, indices(front));
    lemma_survivors_join(
        multi_objective,
        chosen,
        placed_upto(index_lists(fronts), fronts.len()),
        front,
        rank,
        room,
    );
    multi_objective.lemma_selection_push(fronts, front, cap, fronts.len());
    multi_objective.lemma_selection_step(after, cap, after.len());
    assert(after[fronts.len() as int] == front);
    lemma_survivors_len(multi_objective, front, rank, room);
}

/// A front that fits survives whole; of a front that does not fit, as many
/// solutions survive as there is room for.
pub proof fn lemma_survivors_len<'a, S>(
    multi_objective: &MultiObjective<S, i64>,
    front: Seq<(usize, &'a S)>,
    rank: usize,
    room: nat,
)
    ensures
        multi_objective.survivors(front, rank, room).len() == if front.len() <= room {
            front.len()
        } else {
            room
        },
{
    multi_objective.lemma_survivors(front, rank, room);
    crate::crowding_distance::lemma_entries_len(*multi_objective, multi_objective.count(), front);
    let entries = multi_objective.entries_after(multi_objective.count(), front);
    crate::stable_sort::lemma_sorted_keeps(entries, less_crowded(), |e: Entry| true);
}

/// Selects `n` solutions, or all of them if there are fewer, in the manner of
/// NSGA. The solutions are sorted into Pareto fronts. Whole fronts are taken,
/// best front first, while they fit. Of the first front that does not fit,
/// the solutions with the largest crowding distances are taken.
pub fn selection_nsga<'a, S>(
    solutions: &'a [S],
    n: usize,
    multi_objective: &MultiObjective<S, i64>,
) -> (result: Vec<AssignedCrowdingDistance<'a, S>>)
    ensures
        result@.len() <= n,
        result@.len() <= solutions@.len(),
        distinct_by(result@, index_key()),
        forall|t: int| 0 <= t < result@.len() ==> (#[trigger] result@[t]).index < solutions@.len(),
        well_founded(solutions@.len(), multi_objective.dominance_edges(solutions@)) ==> result@.len()
            == capped(n as nat, solutions@.len()),
        exists|fronts: Seq<Seq<(usize, &'a S)>>| #[trigger]
            multi_objective.fronts_for(solutions@, capped(n as nat, solutions@.len()), fronts)
                && result@ == multi_objective.selection(
                fronts,
                capped(n as nat, solutions@.len()),
                fronts.len(),
            ),
{
    // Cannot select more solutions than there are.
    let cap = if n <= solutions.len() {
        n
    } else {
        solutions.len()
    };
    let ghost total = solutions@.len();
    let ghost edges = multi_objective.dominance_edges(solutions@);
    let mut result: Vec<AssignedCrowdingDistance<'a, S>> = Vec::new();
    let mut sorter = NonDominatedSorter::new(solutions, multi_objective);
    let mut rank: usize = 0;
    let mut done = false;
    let ghost mut fronts: Seq<Seq<(usize, &'a S)>> = Seq::empty();
    proof {
        assert(sorter.edges() =~= edges);
        lemma_unplaced_none(total);
        assert(index_lists(fronts) =~= Seq::<Seq<usize>>::empty());
        multi_objective.lemma_selection_step(fronts, cap as nat, 0);
    }
    while !done
        invariant
            sorter.wf(),
            sorter.solutions() == solutions@,
            sorter.edges() == edges,
            edges == multi_objective.dominance_edges(solutions@),
            total == solutions@.len(),
            cap <= total,
            cap == capped(n as nat, total),
            progress(multi_objective, solutions@, cap as nat, fronts, result@),
            !done ==> rank == fronts.len(),
            !done ==> sorter.placed() == placed_upto(index_lists(fronts), fronts.len()),
            !done ==> result@.len() == total_upto(index_lists(fronts), fronts.len()),
            !done ==> result@.len() + sorter.remaining() == total,
            !done ==> rank <= result@.len(),
            !done && fronts.len() > 0 ==> result@.len() < cap,
            !done ==> if fronts.len() == 0 {
                ascending(sorter.front())
            } else {
                follows(edges, indices(fronts[fronts.len() - 1]), sorter.front())
            },
            done ==> stops_at(total, edges, index_lists(fronts), cap as nat),
            done && well_founded(total, edges) ==> result@.len() == cap,
        decreases
                if done {
                    0
                } else {
                    1 + sorter.remaining()
                },
    {
        let ghost before = fronts;
        let ghost pending = sorter.front();
        let ghost chosen = result@;
        proof {
            sorter.lemma_front();
        }
        match sorter.next() {
            None => {
                proof {
                    assert(pending =~= Seq::<usize>::empty());
                    if well_founded(total, edges) {
                        lemma_nothing_left(total, edges, sorter.placed());
                    }
                }
                done = true;
            },
            Some(front) => {
                let (mut entries, _stats) = crowding_entries(front.as_slice(), multi_objective);
                let room = cap - result.len();
                proof {
                    lemma_progress(multi_objective, solutions@, cap as nat, before, chosen, front@);
                    multi_objective.lemma_survivors(front@, rank, room as nat);
                    fronts = before.push(front@);
                }
                if front.len() <= room {
                    // The whole front fits.
                    let count = entries.len();
                    append_assigned(&mut result, front.as_slice(), rank, &entries, count);
                    proof {
                        assert(entries@.take(count as int) =~= entries@);
                        assert(fronts[fronts.len() - 1] == front@);
                    }
                    if result.len() >= cap {
                        done = true;
                    } else {
                        rank = rank + 1;
                    }
                } else {
                    // The front does not fit: its most isolated solutions fill
                    // the places that are left.
                    let ghost computed = entries@;
                    let fewer = |x: &Entry, y: &Entry| -> (r: bool)
                        ensures
                            r == y.distance.exceeds(x.distance),
                        { y.distance.is_larger_than(&x.distance) };
                    let ghost valid = |e: Entry| e.position < front@.len();
                    sort_by(&mut entries, &fewer, Ghost(less_crowded()), Ghost(valid));
                    proof {
                        crate::stable_sort::lemma_sorted_keeps(computed, less_crowded(), valid);
                        crate::stable_sort::lemma_sorted_all(computed, less_crowded(), valid);
                        assert forall|t: int| 0 <= t < entries@.len() implies (
                        #[trigger] entries@[t]).position < front@.len() by {
                            assert(valid(entries@[t]));
                        }
                    }
                    append_assigned(&mut result, front.as_slice(), rank, &entries, room);
                    done = true;
                }
            },
        }
    }
    proof {
        assert(multi_objective.fronts_for(solutions@, capped(n as nat, total), fronts));
        let placed = placed_upto(index_lists(fronts), fronts.len());
        assert forall|t: int| 0 <= t < result@.len() implies (#[trigger] result@[t]).index
            < solutions@.len() by {
            let q = result@[t].index as int;
            assert(placed.contains(q));
            crate::fronts::lemma_placed_upto(index_lists(fronts), fronts.len(), q);
            crate::fronts::lemma_chain_in_range(total, edges, index_lists(fronts));
        }
    }
    result
}

} // verus!
