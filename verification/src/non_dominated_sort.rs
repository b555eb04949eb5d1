//! The non-dominated sort on solutions, under any dominance relation.
//!
//! The sorter compares every unordered pair of solutions once and then yields
//! the Pareto fronts in order. Each front lists its solutions by index,
//! together with a reference to the solution itself.

use crate::domination::{verdict_under, DominationOrd};
use crate::fronts::{
    ascending, exact_front, follows, is_front_chain, members, partitions, relation_ok, stops_at,
    unplaced, verdict_edges, verdict_edges_before,
};
use crate::sort::{collect_fronts, FastNonDominatedSorter};
use vstd::prelude::*;

verus! {

/// The indices of a front of `(index, solution)` pairs.
pub open spec fn indices<S>(front: Seq<(usize, &S)>) -> Seq<usize> {
    Seq::new(front.len(), |i: int| front[i].0)
}

/// The index lists of a list of fronts.
pub open spec fn index_lists<S>(fronts: Seq<Seq<(usize, &S)>>) -> Seq<Seq<usize>> {
    Seq::new(fronts.len(), |k: int| indices(fronts[k]))
}

/// The index lists of a list of fronts.
pub open spec fn index_views<S>(fronts: Seq<Vec<(usize, &S)>>) -> Seq<Seq<usize>> {
    Seq::new(fronts.len(), |k: int| indices(fronts[k]@))
}

/// Every pair of the front holds an index into `solutions` and the solution
/// that stands there.
pub open spec fn refers_to<S>(front: Seq<(usize, &S)>, solutions: Seq<S>) -> bool {
    forall|i: int|
        0 <= i < front.len() ==> (#[trigger] front[i]).0 < solutions.len() && *front[i].1
            == solutions[front[i].0 as int]
}

/// A non-dominated sort of a slice of solutions in progress. Each call of
/// `next` yields the next Pareto front.
pub struct NonDominatedSorter<'a, S> {
    solutions: &'a [S],
    sorter: FastNonDominatedSorter,
}

impl<'a, S> NonDominatedSorter<'a, S> {
    /// The solutions that are sorted.
    pub closed spec fn solutions(&self) -> Seq<S> {
        self.solutions@
    }

    /// The dominance edges found: `(p, q)` says that solution `p` dominates
    /// solution `q`.
    pub closed spec fn edges(&self) -> Set<(int, int)> {
        self.sorter.edges()
    }

    /// The indices of the solutions handed out so far.
    pub closed spec fn placed(&self) -> Set<int> {
        self.sorter.placed()
    }

    /// The indices of the front that the next call of `next` hands out.
    pub closed spec fn front(&self) -> Seq<usize> {
        self.sorter.front()
    }

    /// The number of times that the dominance relation was asked: once for
    /// every pair of solutions.
    pub closed spec fn comparisons(&self) -> nat {
        self.sorter.comparisons()
    }

    /// The number of solutions not handed out yet.
    pub open spec fn remaining(&self) -> nat {
        unplaced(self.placed(), self.solutions().len())
    }

    /// The state between two calls of `next`.
    pub closed spec fn wf(&self) -> bool {
        &&& self.sorter.wf()
        &&& self.sorter.size() == self.solutions@.len()
    }

    /// What holds of the dominance edges and of the pending front between two
    /// calls of `next`.
    pub proof fn lemma_front(&self)
        requires
            self.wf(),
        ensures
            relation_ok(self.solutions().len(), self.edges()),
            exact_front(self.solutions().len(), self.edges(), self.placed(), self.front()),
            forall|q: int| #[trigger] self.placed().contains(q) ==> 0 <= q < self.solutions().len(),
            self.solutions().len() <= usize::MAX,
    {
        self.sorter.lemma_front();
    }

    /// Performs a non-dominated sort of `solutions` under `domination`, asking
    /// for its verdict once on every pair `solutions[i]`, `solutions[j]` with
    /// `i < j`, row by row.
    ///
    /// Each Pareto front can then be obtained by calling `next`.
    pub fn new<D>(solutions: &'a [S], domination: &D) -> (sorter: Self) where
        D: DominationOrd<Solution = S>,

        ensures
            sorter.wf(),
            sorter.solutions() == solutions@,
            sorter.placed() == Set::<int>::empty(),
            ascending(sorter.front()),
            2 * sorter.comparisons() == solutions@.len() * (solutions@.len() - 1),
            sorter.edges() == verdict_edges(
                solutions@.len(),
                |a: int, b: int| domination.verdict(&solutions@[a], &solutions@[b]),
            ),
    {
        let n = solutions.len();
        let ghost table = |a: int, b: int| domination.verdict(&solutions@[a], &solutions@[b]);
        let mut sorter = FastNonDominatedSorter::begin(n);
        let mut i: usize = 0;
        proof {
            assert(sorter.edges() =~= verdict_edges_before(n as nat, table, 0, 1));
        }
        while i < n
            invariant
                i <= n,
                n == solutions@.len(),
                table == |a: int, b: int| domination.verdict(&solutions@[a], &solutions@[b]),
                sorter.size() == n,
                sorter.building(i as int, i + 1),
                sorter.placed() == Set::<int>::empty(),
                sorter.edges() == verdict_edges_before(n as nat, table, i as int, i + 1),
            decreases n - i,
        {
            let mut j: usize = i + 1;
            while j < n
                invariant
                    i < j <= n,
                    n == solutions@.len(),
                    table == |a: int, b: int| domination.verdict(&solutions@[a], &solutions@[b]),
                    sorter.size() == n,
                    sorter.building(i as int, j as int),
                    sorter.placed() == Set::<int>::empty(),
                    sorter.edges() == verdict_edges_before(n as nat, table, i as int, j as int),
                decreases n - j,
            {
                let v = verdict_under(domination, &solutions[i], &solutions[j]);
                sorter.record(i, j, v);
                proof {
                    assert(v == table(i as int, j as int));
                    assert(sorter.edges() =~= verdict_edges_before(
                        n as nat,
                        table,
                        i as int,
                        j + 1,
                    ));
                }
                j = j + 1;
            }
            sorter.close_row(i);
            proof {
                assert(sorter.edges() =~= verdict_edges_before(n as nat, table, i + 1, i + 2));
            }
            i = i + 1;
        }
        proof {
            sorter.lemma_built(i + 1);
            assert(sorter.edges() =~= verdict_edges(n as nat, table));
        }
        NonDominatedSorter { solutions, sorter }
    }

    /// Returns the next Pareto front, or `None`, changing nothing, once no
    /// front is left.
    pub fn next(&mut self) -> (r: Option<Vec<(usize, &'a S)>>)
        requires
            old(self).wf(),
        ensures
            final(self).wf(),
            final(self).solutions() == old(self).solutions(),
            final(self).edges() == old(self).edges(),
            final(self).comparisons() == old(self).comparisons(),
            old(self).front().len() == 0 ==> r is None && final(self).front() == old(self).front()
                && final(self).placed() == old(self).placed(),
            old(self).front().len() > 0 ==> r is Some && indices(r->0@) == old(self).front()
                && refers_to(r->0@, old(self).solutions()) && final(self).placed() == old(
                self,
            ).placed().union(members(old(self).front())) && final(self).remaining() + old(
                self,
            ).front().len() == old(self).remaining() && follows(
                final(self).edges(),
                old(self).front(),
                final(self).front(),
            ),
    {
        proof {
            self.sorter.lemma_front();
        }
        match self.sorter.next() {
            None => None,
            Some(front) => Some(with_solutions(self.solutions, &front)),
        }
    }
}

/// Pairs every index of `front` with the solution that stands there.
pub fn with_solutions<'a, S>(solutions: &'a [S], front: &Vec<usize>) -> (pairs: Vec<(usize, &'a S)>)
    requires
        forall|i: int| 0 <= i < front@.len() ==> #[trigger] front@[i] < solutions@.len(),
    ensures
        indices(pairs@) == front@,
        refers_to(pairs@, solutions@),
{
    let mut pairs: Vec<(usize, &'a S)> = Vec::new();
    let mut i: usize = 0;
    while i < front.len()
        invariant
            i <= front@.len(),
            pairs@.len() == i,
            forall|t: int| 0 <= t < front@.len() ==> #[trigger] front@[t] < solutions@.len(),
            forall|t: int|
                0 <= t < i ==> (#[trigger] pairs@[t]).0 == front@[t] && *pairs@[t].1
                    == solutions@[front@[t] as int],
        decreases front@.len() - i,
    {
        let index = front[i];
        pairs.push((index, &solutions[index]));
        i = i + 1;
    }
    proof {
        assert(indices(pairs@) =~= front@);
    }
    pairs
}

/// Sorts `solutions` into Pareto fronts under `domination` and returns the
/// leading fronts until they hold at least `cap_fronts_at` solutions.
pub fn non_dominated_sort<'a, S, D>(
    solutions: &'a [S],
    domination: &D,
    cap_fronts_at: usize,
) -> (fronts: Vec<Vec<(usize, &'a S)>>) where D: DominationOrd<Solution = S>
    ensures
        is_front_chain(
            solutions@.len(),
            verdict_edges(
                solutions@.len(),
                |a: int, b: int| domination.verdict(&solutions@[a], &solutions@[b]),
            ),
            index_views(fronts@),
        ),
        stops_at(
            solutions@.len(),
            verdict_edges(
                solutions@.len(),
                |a: int, b: int| domination.verdict(&solutions@[a], &solutions@[b]),
            ),
            index_views(fronts@),
            cap_fronts_at as nat,
        ),
        forall|k: int| 0 <= k < fronts@.len() ==> refers_to((#[trigger] fronts@[k])@, solutions@),
        partitions(
            solutions@.len(),
            verdict_edges(
                solutions@.len(),
                |a: int, b: int| domination.verdict(&solutions@[a], &solutions@[b]),
            ),
            index_views(fronts@),
            cap_fronts_at as nat,
        ),
{
    let mut sorter = NonDominatedSorter::new(solutions, domination);
    let ghost n = solutions@.len();
    let ghost edges = verdict_edges(
        solutions@.len(),
        |a: int, b: int| domination.verdict(&solutions@[a], &solutions@[b]),
    );
    proof {
        assert(sorter.edges() =~= edges);
    }
    let found = collect_fronts(&mut sorter.sorter, cap_fronts_at);
    proof {
        crate::fronts::lemma_chain_in_range(n, edges, crate::fronts::views(found@));
        crate::fronts::lemma_partitions(n, edges, crate::fronts::views(found@), cap_fronts_at as nat);
        assert forall|t: int, i: int| 0 <= t < found@.len() && 0 <= i < found@[t]@.len() implies (
        #[trigger] found@[t]@[i]) < solutions@.len() by {
            assert(crate::fronts::views(found@)[t][i] < n);
        }
    }
    let fronts = attach_solutions(solutions, &found);
    proof {
        assert(index_views(fronts@) =~= crate::fronts::views(found@)) by {
            assert forall|k: int| 0 <= k < fronts@.len() implies index_views(fronts@)[k]
                == crate::fronts::views(found@)[k] by {
                assert(indices(fronts@[k]@) == found@[k]@);
            }
        }
    }
    fronts
}

/// Pairs every index of every front with the solution that stands there.
pub fn attach_solutions<'a, S>(solutions: &'a [S], found: &Vec<Vec<usize>>) -> (fronts: Vec<
    Vec<(usize, &'a S)>,
>)
    requires
        forall|t: int, i: int|
            0 <= t < found@.len() && 0 <= i < found@[t]@.len() ==> (#[trigger] found@[t]@[i])
                < solutions@.len(),
    ensures
        fronts@.len() == found@.len(),
        forall|t: int|
            0 <= t < fronts@.len() ==> indices((#[trigger] fronts@[t])@) == found@[t]@ && refers_to(
                fronts@[t]@,
                solutions@,
            ),
{
    let mut fronts: Vec<Vec<(usize, &'a S)>> = Vec::new();
    let mut k: usize = 0;
    while k < found.len()
        invariant
            k <= found@.len(),
            fronts@.len() == k,
            forall|t: int, i: int|
                0 <= t < found@.len() && 0 <= i < found@[t]@.len() ==> (#[trigger] found@[t]@[i])
                    < solutions@.len(),
            forall|t: int|
                0 <= t < k ==> indices((#[trigger] fronts@[t])@) == found@[t]@ && refers_to(
                    fronts@[t]@,
                    solutions@,
                ),
        decreases found@.len() - k,
    {
        let ghost row = found@[k as int]@;
        proof {
            assert forall|i: int| 0 <= i < row.len() implies #[trigger] row[i] < solutions@.len() by {
                assert(found@[k as int]@[i] < solutions@.len());
            }
        }
        fronts.push(with_solutions(solutions, &found[k]));
        k = k + 1;
    }
    fronts
}

} // verus!
