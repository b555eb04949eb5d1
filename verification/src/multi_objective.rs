//! Several objectives taken together as one dominance relation.

use crate::domination::DominationOrd;
use crate::fronts::{lemma_transitive_well_founded, relation_ok, verdict_edges, well_founded};
use crate::objective::{gap_under, order_under, Objective};
use crate::verdict::Verdict;
use std::cmp::Ordering;
use vstd::prelude::*;

verus! {

/// An ordered list of objectives over the same solution type, of which some
/// are selected. At first all are selected, in order.
///
/// Solution `a` dominates `b` when no selected objective ranks `a` behind `b`
/// and at least one ranks it ahead. Where this module speaks of objective `i`,
/// it means the `i`-th of the selected ones.
#[verifier::reject_recursive_types(S)]
#[verifier::reject_recursive_types(D)]
pub struct MultiObjective<'a, S, D> {
    objectives: &'a [&'a dyn Objective<S, D>],
    selected: Vec<usize>,
}

impl<'a, S, D> MultiObjective<'a, S, D> {
    #[verifier::type_invariant]
    spec fn inv(self) -> bool {
        forall|i: int|
            0 <= i < self.selected@.len() ==> #[trigger] self.selected@[i] < self.objectives@.len()
    }

    /// The whole list of objectives.
    pub closed spec fn listed(&self) -> Seq<&'a dyn Objective<S, D>> {
        self.objectives@
    }

    /// The indices, into the whole list, of the selected objectives.
    pub closed spec fn active(&self) -> Seq<usize> {
        self.selected@
    }

    /// The number of selected objectives.
    pub open spec fn count(&self) -> nat {
        self.active().len()
    }

    /// What objective `i` says of `a` against `b`.
    pub open spec fn order_at(&self, i: int, a: &S, b: &S) -> Verdict {
        self.listed()[self.active()[i] as int].order(a, b)
    }

    /// The distance that objective `i` finds from `a` to `b`.
    pub open spec fn gap_at(&self, i: int, a: &S, b: &S) -> D {
        self.listed()[self.active()[i] as int].gap(a, b)
    }

    /// Some objective answers `v` for `a` against `b`.
    pub open spec fn some_says(&self, v: Verdict, a: &S, b: &S) -> bool {
        exists|i: int| 0 <= i < self.count() && #[trigger] self.order_at(i, a, b) == v
    }

    /// `a` dominates `b`: some objective prefers `a` and none prefers `b`.
    pub open spec fn favours(&self, a: &S, b: &S) -> bool {
        self.some_says(Verdict::Less, a, b) && !self.some_says(Verdict::Greater, a, b)
    }

    /// `a` is dominated by `b`, judged by the same comparisons of `a` against `b`.
    pub open spec fn disfavours(&self, a: &S, b: &S) -> bool {
        self.some_says(Verdict::Greater, a, b) && !self.some_says(Verdict::Less, a, b)
    }

    /// The dominance verdict on `a` against `b`.
    pub open spec fn judge(&self, a: &S, b: &S) -> Verdict {
        if self.favours(a, b) {
            Verdict::Less
        } else if self.disfavours(a, b) {
            Verdict::Greater
        } else {
            Verdict::Equal
        }
    }

    /// Some objective that `selected` marks answers `v` for `a` against `b`.
    /// Objectives beyond the end of `selected` are not marked.
    pub open spec fn some_selected_says(&self, v: Verdict, a: &S, b: &S, selected: Seq<bool>) -> bool {
        exists|i: int|
            0 <= i < self.count() && i < selected.len() && selected[i] && #[trigger] self.order_at(
                i,
                a,
                b,
            ) == v
    }

    /// The dominance verdict on `a` against `b` under the objectives that
    /// `selected` marks.
    pub open spec fn judge_selected(&self, a: &S, b: &S, selected: Seq<bool>) -> Verdict {
        if self.some_selected_says(Verdict::Less, a, b, selected) && !self.some_selected_says(
            Verdict::Greater,
            a,
            b,
            selected,
        ) {
            Verdict::Less
        } else if self.some_selected_says(Verdict::Greater, a, b, selected)
            && !self.some_selected_says(Verdict::Less, a, b, selected) {
            Verdict::Greater
        } else {
            Verdict::Equal
        }
    }

    /// The dominance edges among `solutions`: for every pair `a < b` the verdict
    /// on `solutions[a]` against `solutions[b]` says which one dominates.
    pub open spec fn dominance_edges(&self, solutions: Seq<S>) -> Set<(int, int)> {
        verdict_edges(solutions.len(), |a: int, b: int| self.judge(&solutions[a], &solutions[b]))
    }

    /// Every objective sees `b` against `a` as the reverse of `a` against `b`.
    pub open spec fn consistent_on(&self, a: &S, b: &S) -> bool {
        forall|i: int|
            0 <= i < self.count() ==> #[trigger] self.order_at(i, b, a) == self.order_at(
                i,
                a,
                b,
            ).reversed()
    }

    /// Every objective finds `a` as good as itself.
    pub open spec fn reflexive_on(&self, a: &S) -> bool {
        forall|i: int| 0 <= i < self.count() ==> #[trigger] self.order_at(i, a, a) == Verdict::Equal
    }

    /// All of `objectives`, selected in order.
    pub fn new(objectives: &'a [&'a dyn Objective<S, D>]) -> (mo: Self)
        ensures
            mo.listed() == objectives@,
            mo.active() == Seq::new(objectives@.len(), |i: int| i as usize),
    {
        let mut selected: Vec<usize> = Vec::new();
        let mut i: usize = 0;
        while i < objectives.len()
            invariant
                i <= objectives@.len(),
                selected@.len() == i,
                forall|t: int| 0 <= t < i ==> #[trigger] selected@[t] == t,
            decreases objectives@.len() - i,
        {
            selected.push(i);
            i = i + 1;
        }
        proof {
            assert(selected@ =~= Seq::new(objectives@.len(), |i: int| i as usize));
        }
        MultiObjective { objectives, selected }
    }

    /// The same list of objectives with those at `indices` selected, in the
    /// order of `indices`, or `None` if an index names no objective.
    pub fn select(&self, indices: &[usize]) -> (mo: Option<Self>)
        ensures
            mo is Some <==> forall|i: int|
                0 <= i < indices@.len() ==> indices@[i] < self.listed().len(),
            mo matches Some(mo) ==> mo.listed() == self.listed() && mo.active() == indices@,
    {
        let mut selected: Vec<usize> = Vec::new();
        let mut i: usize = 0;
        while i < indices.len()
            invariant
                i <= indices@.len(),
                selected@.len() == i,
                forall|t: int| 0 <= t < i ==> #[trigger] selected@[t] == indices@[t],
                forall|t: int| 0 <= t < i ==> indices@[t] < self.objectives@.len(),
            decreases indices@.len() - i,
        {
            if indices[i] >= self.objectives.len() {
                return None;
            }
            selected.push(indices[i]);
            i = i + 1;
        }
        proof {
            assert(selected@ =~= indices@);
        }
        Some(MultiObjective { objectives: self.objectives, selected })
    }

    /// The whole list of objectives, selected or not.
    pub fn objectives(&self) -> (list: &'a [&'a dyn Objective<S, D>])
        ensures
            list@ == self.listed(),
    {
        self.objectives
    }

    /// The indices, into the whole list, of the selected objectives.
    pub fn selected(&self) -> (indices: &[usize])
        ensures
            indices@ == self.active(),
    {
        self.selected.as_slice()
    }

    /// The number of selected objectives.
    pub fn len(&self) -> (len: usize)
        ensures
            len == self.count(),
    {
        self.selected.len()
    }

    /// Asks objective `i` for the order of `a` and `b`.
    pub fn order(&self, i: usize, a: &S, b: &S) -> (v: Verdict)
        requires
            i < self.count(),
        ensures
            v == self.order_at(i as int, a, b),
    {
        proof {
            use_type_invariant(self);
        }
        order_under(self.objectives[self.selected[i]], a, b)
    }

    /// Asks objective `i` for the distance from `a` to `b`.
    pub fn gap(&self, i: usize, a: &S, b: &S) -> (d: D)
        requires
            i < self.count(),
        ensures
            d == self.gap_at(i as int, a, b),
    {
        proof {
            use_type_invariant(self);
        }
        gap_under(self.objectives[self.selected[i]], a, b)
    }

    /// Compares `a` against `b` under every objective and returns the dominance
    /// verdict.
    pub fn compare(&self, a: &S, b: &S) -> (v: Verdict)
        ensures
            v == self.judge(a, b),
    {
        let mut less_cnt: usize = 0;
        let mut greater_cnt: usize = 0;
        let mut i: usize = 0;
        while i < self.len()
            invariant
                i <= self.count(),
                less_cnt <= i,
                greater_cnt <= i,
                less_cnt > 0 <==> exists|k: int|
                    0 <= k < i && #[trigger] self.order_at(k, a, b) == Verdict::Less,
                greater_cnt > 0 <==> exists|k: int|
                    0 <= k < i && #[trigger] self.order_at(k, a, b) == Verdict::Greater,
            decreases self.count() - i,
        {
            let v = self.order(i, a, b);
            match v {
                Verdict::Less => {
                    less_cnt = less_cnt + 1;
                },
                Verdict::Greater => {
                    greater_cnt = greater_cnt + 1;
                },
                Verdict::Equal => {},
            }
            i = i + 1;
        }
        Verdict::from_counts(less_cnt, greater_cnt)
    }
}

impl<'a, S, D> MultiObjective<'a, S, D> {
    /// Compares `a` against `b` under the objectives that `selected` marks and
    /// returns the dominance verdict. Objectives beyond the end of `selected`
    /// take no part.
    pub fn compare_selected(&self, a: &S, b: &S, selected: &[bool]) -> (v: Verdict)
        ensures
            v == self.judge_selected(a, b, selected@),
    {
        let mut less_cnt: usize = 0;
        let mut greater_cnt: usize = 0;
        let mut i: usize = 0;
        while i < self.len() && i < selected.len()
            invariant
                i <= self.count(),
                i <= selected@.len(),
                less_cnt <= i,
                greater_cnt <= i,
                less_cnt > 0 <==> exists|k: int|
                    0 <= k < i && selected@[k] && #[trigger] self.order_at(k, a, b)
                        == Verdict::Less,
                greater_cnt > 0 <==> exists|k: int|
                    0 <= k < i && selected@[k] && #[trigger] self.order_at(k, a, b)
                        == Verdict::Greater,
            decreases self.count() - i,
        {
            if selected[i] {
                let v = self.order(i, a, b);
                match v {
                    Verdict::Less => {
                        less_cnt = less_cnt + 1;
                    },
                    Verdict::Greater => {
                        greater_cnt = greater_cnt + 1;
                    },
                    Verdict::Equal => {},
                }
            }
            i = i + 1;
        }
        Verdict::from_counts(less_cnt, greater_cnt)
    }
}

impl<'a, S, D> DominationOrd for MultiObjective<'a, S, D> {
    type Solution = S;

    open spec fn verdict(&self, a: &S, b: &S) -> Verdict {
        self.judge(a, b)
    }

    fn domination_ord(&self, a: &S, b: &S) -> (o: Ordering) {
        self.compare(a, b).to_ordering()
    }
}

impl<'a, S, D> MultiObjective<'a, S, D> {
    /// Objective `m` orders `solutions` as a total preorder does: it sees `b`
    /// against `a` as the reverse of `a` against `b`, and where `a` is no
    /// worse than `b` and `b` no worse than `c`, `a` is no worse than `c`.
    pub open spec fn preorders(&self, m: int, solutions: Seq<S>) -> bool {
        &&& forall|a: int, b: int|
            0 <= a < solutions.len() && 0 <= b < solutions.len() ==> #[trigger] self.order_at(
                m,
                &solutions[b],
                &solutions[a],
            ) == self.order_at(m, &solutions[a], &solutions[b]).reversed()
        &&& forall|a: int, b: int, c: int|
            #![trigger self.order_at(m, &solutions[a], &solutions[b]), self.order_at(m, &solutions[b], &solutions[c])]
            0 <= a < solutions.len() && 0 <= b < solutions.len() && 0 <= c < solutions.len()
                && self.order_at(m, &solutions[a], &solutions[b]) != Verdict::Greater
                && self.order_at(m, &solutions[b], &solutions[c]) != Verdict::Greater
                ==> self.order_at(m, &solutions[a], &solutions[c]) != Verdict::Greater
    }

    /// Every objective orders `solutions` as a total preorder does.
    pub open spec fn consistent(&self, solutions: Seq<S>) -> bool {
        forall|m: int| 0 <= m < self.count() ==> #[trigger] self.preorders(m, solutions)
    }

    /// Where every objective orders the solutions as a total preorder does,
    /// dominance among them has no cycle, and so a sort puts every solution
    /// into a front.
    pub proof fn lemma_dominance_well_founded(&self, solutions: Seq<S>)
        requires
            self.consistent(solutions),
        ensures
            relation_ok(solutions.len(), self.dominance_edges(solutions)),
            well_founded(solutions.len(), self.dominance_edges(solutions)),
    {
        let n = solutions.len();
        let edges = self.dominance_edges(solutions);
        // An edge says that the source dominates the target, whichever of the two was asked first.
        assert forall|p: int, q: int| 0 <= p < n && 0 <= q < n implies (edges.contains((p, q)) <==> p
            != q && self.judge(&solutions[p], &solutions[q]) == Verdict::Less) by {
            self.lemma_judge_reverses(solutions, p, q);
        }
        assert forall|p: int, q: int| #[trigger] edges.contains((p, q)) implies 0 <= p < n && 0 <= q
            < n && p != q && !edges.contains((q, p)) by {
            self.lemma_judge_reverses(solutions, p, q);
        }
        assert forall|a: int, b: int, c: int|
            #![trigger edges.contains((a, b)), edges.contains((b, c))]
            edges.contains((a, b)) && edges.contains((b, c)) implies edges.contains((a, c)) by {
            self.lemma_judge_transitive(solutions, a, b, c);
            if a == c {
                self.lemma_judge_reverses(solutions, a, b);
            }
        }
        lemma_transitive_well_founded(n, edges);
    }

    /// Under consistent objectives the verdict on `q` against `p` is the
    /// reverse of that on `p` against `q`.
    pub proof fn lemma_judge_reverses(&self, solutions: Seq<S>, p: int, q: int)
        requires
            self.consistent(solutions),
            0 <= p < solutions.len(),
            0 <= q < solutions.len(),
        ensures
            self.judge(&solutions[q], &solutions[p]) == self.judge(
                &solutions[p],
                &solutions[q],
            ).reversed(),
    {
        assert forall|i: int| 0 <= i < self.count() implies #[trigger] self.order_at(
            i,
            &solutions[q],
            &solutions[p],
        ) == self.order_at(i, &solutions[p], &solutions[q]).reversed() by {
            assert(self.preorders(i, solutions));
        }
        lemma_dominance_asymmetric(*self, solutions[p], solutions[q]);
    }

    /// Under consistent objectives dominance is transitive.
    pub proof fn lemma_judge_transitive(&self, solutions: Seq<S>, a: int, b: int, c: int)
        requires
            self.consistent(solutions),
            0 <= a < solutions.len(),
            0 <= b < solutions.len(),
            0 <= c < solutions.len(),
            self.judge(&solutions[a], &solutions[b]) == Verdict::Less,
            self.judge(&solutions[b], &solutions[c]) == Verdict::Less,
        ensures
            self.judge(&solutions[a], &solutions[c]) == Verdict::Less,
    {
        let (x, y, z) = (&solutions[a], &solutions[b], &solutions[c]);
        assert forall|i: int| 0 <= i < self.count() implies #[trigger] self.order_at(i, x, z)
            != Verdict::Greater by {
            assert(self.preorders(i, solutions));
            assert(self.order_at(i, x, y) != Verdict::Greater);
            assert(self.order_at(i, y, z) != Verdict::Greater);
        }
        let i = choose|i: int| 0 <= i < self.count() && #[trigger] self.order_at(i, x, y)
            == Verdict::Less;
        assert(self.preorders(i, solutions));
        assert(self.order_at(i, y, z) != Verdict::Greater);
        // Were `z` no worse than `x`, then `y`, which is no worse than `z`,
        // would be no worse than `x`.
        if self.order_at(i, x, z) != Verdict::Less {
            assert(self.order_at(i, z, x) == self.order_at(i, x, z).reversed());
            assert(self.order_at(i, z, x) != Verdict::Greater);
            assert(self.order_at(i, y, x) != Verdict::Greater);
            assert(self.order_at(i, y, x) == self.order_at(i, x, y).reversed());
        }
        assert(self.order_at(i, x, z) == Verdict::Less);
    }
}

/// Where every objective is marked, the verdict is that of all objectives.
pub proof fn lemma_all_selected<'a, S, D>(
    mo: MultiObjective<'a, S, D>,
    a: S,
    b: S,
    selected: Seq<bool>,
)
    requires
        selected.len() >= mo.count(),
        forall|i: int| 0 <= i < mo.count() ==> selected[i],
    ensures
        mo.judge_selected(&a, &b, selected) == mo.judge(&a, &b),
{
    assert forall|v: Verdict| mo.some_selected_says(v, &a, &b, selected) == mo.some_says(
        v,
        &a,
        &b,
    ) by {
        if mo.some_says(v, &a, &b) {
            let i = choose|i: int| 0 <= i < mo.count() && #[trigger] mo.order_at(i, &a, &b) == v;
            assert(selected[i]);
        }
    }
}

/// Where no objective is marked, neither solution dominates.
pub proof fn lemma_none_selected<'a, S, D>(
    mo: MultiObjective<'a, S, D>,
    a: S,
    b: S,
    selected: Seq<bool>,
)
    requires
        forall|i: int| 0 <= i < selected.len() ==> !selected[i],
    ensures
        mo.judge_selected(&a, &b, selected) == Verdict::Equal,
{
}

/// Dominance is asymmetric: where every objective sees `b` against `a` as the
/// reverse of `a` against `b`, the two solutions never dominate each other.
pub proof fn lemma_dominance_asymmetric<'a, S, D>(mo: MultiObjective<'a, S, D>, a: S, b: S)
    requires
        mo.consistent_on(&a, &b),
    ensures
        !(mo.judge(&a, &b) == Verdict::Less && mo.judge(&b, &a) == Verdict::Less),
        mo.judge(&b, &a) == mo.judge(&a, &b).reversed(),
{
    assert forall|v: Verdict| mo.some_says(v, &a, &b) == mo.some_says(v.reversed(), &b, &a) by {
        if mo.some_says(v, &a, &b) {
            let i = choose|i: int| 0 <= i < mo.count() && #[trigger] mo.order_at(i, &a, &b) == v;
            assert(mo.order_at(i, &b, &a) == v.reversed());
        }
        if mo.some_says(v.reversed(), &b, &a) {
            let i = choose|i: int|
                0 <= i < mo.count() && #[trigger] mo.order_at(i, &b, &a) == v.reversed();
            assert(mo.order_at(i, &b, &a) == mo.order_at(i, &a, &b).reversed());
        }
    }
    assert(mo.some_says(Verdict::Less, &a, &b) == mo.some_says(Verdict::Greater, &b, &a));
    assert(mo.some_says(Verdict::Greater, &a, &b) == mo.some_says(Verdict::Less, &b, &a));
}

/// Dominance is reflexive in the sense that no solution dominates itself: where
/// every objective finds `a` as good as itself, the verdict on `a` against `a`
/// is `Equal`.
pub proof fn lemma_dominance_reflexive<'a, S, D>(mo: MultiObjective<'a, S, D>, a: S)
    requires
        mo.reflexive_on(&a),
    ensures
        mo.judge(&a, &a) == Verdict::Equal,
{
}

} // verus!
