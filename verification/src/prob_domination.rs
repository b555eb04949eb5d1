//! Probabilistic dominance: every objective takes part in a comparison with a
//! probability of its own.

use crate::fronts::{ascending, pair_before, verdict_edges, verdict_edges_before};
use crate::multi_objective::MultiObjective;
use crate::prob::Prob;
use crate::sort::FastNonDominatedSorter;
use crate::verdict::Verdict;
use rand::StdRng;
use std::cmp::Ordering;
use vstd::prelude::*;

verus! {

/// `heads` can come up when one coin is flipped for each of the first
/// `count` objectives that has a probability: a coin that always shows heads
/// shows heads, and one that never does shows tails.
pub open spec fn can_come_up(probabilities: Seq<Prob>, count: nat, heads: Seq<bool>) -> bool {
    &&& heads.len() == if count <= probabilities.len() {
        count
    } else {
        probabilities.len()
    }
    &&& forall|i: int|
        0 <= i < heads.len() ==> (probabilities[i].certain() ==> #[trigger] heads[i])
            && (probabilities[i].impossible() ==> !heads[i])
}

/// The coins of the pair `(a, b)` are on record and came up as they can.
pub open spec fn fair(
    probabilities: Seq<Prob>,
    count: nat,
    coins: Map<(int, int), Seq<bool>>,
    a: int,
    b: int,
) -> bool {
    coins.dom().contains((a, b)) && can_come_up(probabilities, count, coins[(a, b)])
}

/// The verdict on every pair of `solutions` under the objectives that the
/// coins of the pair mark.
pub open spec fn coin_table<'a, S, D>(
    multi_objective: MultiObjective<'a, S, D>,
    solutions: Seq<S>,
    coins: Map<(int, int), Seq<bool>>,
) -> spec_fn(int, int) -> Verdict {
    |a: int, b: int| multi_objective.judge_selected(&solutions[a], &solutions[b], coins[(a, b)])
}

/// The dominance edges among `solutions` when the coins of every pair came up
/// as `coins` says.
pub open spec fn coin_edges<'a, S, D>(
    multi_objective: MultiObjective<'a, S, D>,
    solutions: Seq<S>,
    coins: Map<(int, int), Seq<bool>>,
) -> Set<(int, int)> {
    verdict_edges(solutions.len(), coin_table(multi_objective, solutions, coins))
}

/// Flips one coin for each of the first `count` objectives that has a
/// probability, in order.
pub fn flip_coins(probabilities: &[Prob], count: usize, rng: &mut StdRng) -> (heads: Vec<bool>)
    ensures
        can_come_up(probabilities@, count as nat, heads@),
{
    let nobjs = if count <= probabilities.len() {
        count
    } else {
        probabilities.len()
    };
    let mut heads: Vec<bool> = Vec::new();
    let mut i: usize = 0;
    while i < nobjs
        invariant
            i <= nobjs <= probabilities@.len(),
            heads@.len() == i,
            forall|t: int|
                0 <= t < i ==> (probabilities@[t].certain() ==> #[trigger] heads@[t])
                    && (probabilities@[t].impossible() ==> !heads@[t]),
        decreases nobjs - i,
    {
        let coin = probabilities[i].flip(rng);
        heads.push(coin);
        i = i + 1;
    }
    heads
}

/// Probabilistic domination helper (PNSGA)
///
/// Each objective has a corresponding probability which is used to determine
/// whether this objective is taken into account for the dominance relation.
pub struct ProbabilisticDominationHelper<'a> {
    objective_probabilities: &'a [Prob],
    rng: &'a mut StdRng,
}

impl<'a> ProbabilisticDominationHelper<'a> {
    /// The probabilities of the objectives, in the order of the objectives.
    pub closed spec fn probabilities(&self) -> Seq<Prob> {
        self.objective_probabilities@
    }

    /// A helper that flips its coins with `rng`.
    pub fn new(objective_probabilities: &'a [Prob], rng: &'a mut StdRng) -> (helper: Self)
        ensures
            helper.probabilities() == objective_probabilities@,
    {
        ProbabilisticDominationHelper { objective_probabilities, rng }
    }

    /// Flips a coin for every objective and returns the dominance verdict on
    /// `lhs` against `rhs` under the objectives whose coin shows heads.
    pub fn judge<S, D>(&mut self, multi_objective: &MultiObjective<S, D>, lhs: &S, rhs: &S) -> (v:
        Verdict)
        ensures
            final(self).probabilities() == old(self).probabilities(),
            exists|heads: Seq<bool>|
                #![trigger multi_objective.judge_selected(lhs, rhs, heads)]
                can_come_up(old(self).probabilities(), multi_objective.count(), heads) && v
                    == multi_objective.judge_selected(lhs, rhs, heads),
    {
        let heads = flip_coins(
            self.objective_probabilities,
            multi_objective.len(),
            self.rng,
        );
        let v = multi_objective.compare_selected(lhs, rhs, heads.as_slice());
        proof {
            assert(v == multi_objective.judge_selected(lhs, rhs, heads@));
        }
        v
    }

    /// Performs a non-dominated sort of `solutions` under probabilistic
    /// dominance. Every pair `solutions[i]`, `solutions[j]` with `i < j` is
    /// judged once, row by row, so the coins of a pair are flipped once.
    pub fn sort<S, D>(&mut self, multi_objective: &MultiObjective<S, D>, solutions: &[S]) -> (sorter:
        FastNonDominatedSorter)
        ensures
            final(self).probabilities() == old(self).probabilities(),
            sorter.wf(),
            sorter.size() == solutions@.len(),
            sorter.placed() == Set::<int>::empty(),
            ascending(sorter.front()),
            2 * sorter.comparisons() == solutions@.len() * (solutions@.len() - 1),
            exists|coins: Map<(int, int), Seq<bool>>|
                #![trigger coin_edges(*multi_objective, solutions@, coins)]
                {
                    &&& forall|a: int, b: int|
                        0 <= a < b < solutions@.len() ==> #[trigger] fair(
                            old(self).probabilities(),
                            multi_objective.count(),
                            coins,
                            a,
                            b,
                        )
                    &&& sorter.edges() == coin_edges(*multi_objective, solutions@, coins)
                },
    {
        let n = solutions.len();
        let ghost probabilities = self.probabilities();
        let ghost mut coins: Map<(int, int), Seq<bool>> = Map::empty();
        let mut sorter = FastNonDominatedSorter::begin(n);
        let mut i: usize = 0;
        proof {
            assert(sorter.edges() =~= verdict_edges_before(
                n as nat,
                coin_table(*multi_objective, solutions@, coins),
                0,
                1,
            ));
        }
        while i < n
            invariant
                i <= n,
                n == solutions@.len(),
                self.probabilities() == probabilities,
                sorter.size() == n,
                sorter.building(i as int, i + 1),
                sorter.placed() == Set::<int>::empty(),
                forall|a: int, b: int|
                    0 <= a < b < n && pair_before(a, b, i as int, i + 1) ==> #[trigger] fair(
                        probabilities,
                        multi_objective.count(),
                        coins,
                        a,
                        b,
                    ),
                sorter.edges() == verdict_edges_before(
                    n as nat,
                    coin_table(*multi_objective, solutions@, coins),
                    i as int,
                    i + 1,
                ),
            decreases n - i,
        {
            let mut j: usize = i + 1;
            while j < n
                invariant
                    i < j <= n,
                    n == solutions@.len(),
                    self.probabilities() == probabilities,
                    sorter.size() == n,
                    sorter.building(i as int, j as int),
                    sorter.placed() == Set::<int>::empty(),
                    forall|a: int, b: int|
                        0 <= a < b < n && pair_before(a, b, i as int, j as int) ==> #[trigger] fair(
                            probabilities,
                            multi_objective.count(),
                            coins,
                            a,
                            b,
                        ),
                    sorter.edges() == verdict_edges_before(
                        n as nat,
                        coin_table(*multi_objective, solutions@, coins),
                        i as int,
                        j as int,
                    ),
                decreases n - j,
            {
                let ghost before = coins;
                let v = self.judge(multi_objective, &solutions[i], &solutions[j]);
                sorter.record(i, j, v);
                proof {
                    let heads = choose|heads: Seq<bool>|
                        #![trigger multi_objective.judge_selected(&solutions@[i as int], &solutions@[j as int], heads)]
                        can_come_up(probabilities, multi_objective.count(), heads) && v
                            == multi_objective.judge_selected(
                            &solutions@[i as int],
                            &solutions@[j as int],
                            heads,
                        );
                    coins = before.insert((i as int, j as int), heads);
                    let table = coin_table(*multi_objective, solutions@, coins);
                    let table_before = coin_table(*multi_objective, solutions@, before);
                    assert(table(i as int, j as int) == v);
                    assert forall|a: int, b: int|
                        0 <= a < b < n && pair_before(a, b, i as int, j as int) implies table(a, b)
                        == table_before(a, b) && fair(
                        probabilities,
                        multi_objective.count(),
                        coins,
                        a,
                        b,
                    ) by {
                        assert(fair(probabilities, multi_objective.count(), before, a, b));
                        assert(coins[(a, b)] == before[(a, b)]);
                    }
                    assert forall|a: int, b: int|
                        0 <= a < b < n && pair_before(a, b, i as int, j + 1) implies #[trigger] fair(
                        probabilities,
                        multi_objective.count(),
                        coins,
                        a,
                        b,
                    ) by {
                        if !(a == i && b == j) {
                            assert(pair_before(a, b, i as int, j as int));
                        }
                    }
                    assert(verdict_edges_before(n as nat, table, i as int, j as int)
                        =~= verdict_edges_before(n as nat, table_before, i as int, j as int));
                    assert(sorter.edges() =~= verdict_edges_before(
                        n as nat,
                        table,
                        i as int,
                        j + 1,
                    ));
                }
                j = j + 1;
            }
            sorter.close_row(i);
            proof {
                let table = coin_table(*multi_objective, solutions@, coins);
                assert(sorter.edges() =~= verdict_edges_before(n as nat, table, i + 1, i + 2));
                assert forall|a: int, b: int|
                    0 <= a < b < n && pair_before(a, b, i + 1, i + 2) implies #[trigger] fair(
                    probabilities,
                    multi_objective.count(),
                    coins,
                    a,
                    b,
                ) by {
                    assert(pair_before(a, b, i as int, n as int));
                }
            }
            i = i + 1;
        }
        proof {
            sorter.lemma_built(i + 1);
            let table = coin_table(*multi_objective, solutions@, coins);
            assert(sorter.edges() =~= verdict_edges(n as nat, table));
            assert(sorter.edges() == coin_edges(*multi_objective, solutions@, coins));
            assert forall|a: int, b: int| 0 <= a < b < n implies #[trigger] fair(
                probabilities,
                multi_objective.count(),
                coins,
                a,
                b,
            ) by {
                assert(pair_before(a, b, n as int, n + 1));
            }
        }
        sorter
    }

    /// Flips a coin for every objective and returns the dominance order of
    /// `lhs` and `rhs` under the objectives whose coin shows heads.
    pub fn domination_ord<S, D>(
        &mut self,
        multi_objective: &MultiObjective<S, D>,
        lhs: &S,
        rhs: &S,
    ) -> (o: Ordering)
        ensures
            final(self).probabilities() == old(self).probabilities(),
            exists|heads: Seq<bool>|
                #![trigger multi_objective.judge_selected(lhs, rhs, heads)]
                can_come_up(old(self).probabilities(), multi_objective.count(), heads)
                    && Verdict::of(o) == multi_objective.judge_selected(lhs, rhs, heads),
    {
        self.judge(multi_objective, lhs, rhs).to_ordering()
    }
}

} // verus!
