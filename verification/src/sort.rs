//! The fast non-dominated sort on solution indices.
//!
//! Every unordered pair of solutions is compared once. The sorter then hands
//! out the Pareto fronts one at a time: first the solutions that nothing
//! dominates, then those dominated only by solutions already handed out, and
//! so on.

use crate::domination::{verdict_between, Domination};
use crate::fronts::{
    ascending, dominated_from, exact_front, follows, in_prefix, is_front_chain, last_dominator,
    lemma_chain_push, lemma_nothing_left, lemma_partitions, lemma_unplaced_front,
    lemma_unplaced_none, members, pair_before, partitions, placed_upto, relation_ok,
    released_before, stops_at, total_upto, unblocked, unplaced, verdict_edges, verdict_edges_before,
    views, well_founded,
};
use crate::graph::{
    indegree, lemma_indegree_agree, lemma_indegree_bound, lemma_indegree_insert,
    lemma_indegree_positive, lemma_indegree_remove, lemma_indegree_zero, live_edges,
};
use crate::verdict::Verdict;
use vstd::prelude::*;

verus! {

/// The edges still counted while a front is handed out: those of `edges` whose
/// source is neither in `placed` nor among the first `a` solutions of `cur`,
/// but for the edges from `p` to the first `b` solutions of `list`.
spec fn live_mid(
    edges: Set<(int, int)>,
    placed: Set<int>,
    cur: Seq<usize>,
    a: int,
    p: int,
    list: Seq<usize>,
    b: int,
) -> Set<(int, int)> {
    Set::new(
        |e: (int, int)|
            edges.contains(e) && !placed.contains(e.0) && !in_prefix(cur, a, e.0) && !(e.0 == p
                && in_prefix(list, b, e.1)),
    )
}

/// List `p` holds, in ascending order, exactly the targets of the edges from `p`.
spec fn lists_fit(lists: Seq<Vec<usize>>, edges: Set<(int, int)>) -> bool {
    &&& forall|p: int, i: int, j: int|
        0 <= p < lists.len() && 0 <= i < j < lists[p]@.len() ==> #[trigger] lists[p]@[i]
            < #[trigger] lists[p]@[j]
    &&& forall|p: int, i: int|
        0 <= p < lists.len() && 0 <= i < lists[p]@.len() ==> edges.contains(
            (p, #[trigger] lists[p]@[i] as int),
        )
    &&& forall|p: int, q: int| #[trigger]
        edges.contains((p, q)) ==> members(lists[p]@).contains(q)
}

/// Every count is the number of edges of `live` into that index.
spec fn counts_fit(counts: Seq<usize>, live: Set<(int, int)>) -> bool {
    forall|q: int| 0 <= q < counts.len() ==> #[trigger] counts[q] == indegree(live, q, counts.len())
}

/// The number of pairs `(a, b)` with `a < b < n` in the rows before row `i`.
pub open spec fn pairs_in_rows(n: nat, i: nat) -> nat
    decreases i,
{
    if i == 0 {
        0
    } else {
        (pairs_in_rows(n, (i - 1) as nat) + n - i) as nat
    }
}

/// All rows together hold `n * (n - 1) / 2` pairs.
pub proof fn lemma_pairs_in_rows(n: nat, i: nat)
    requires
        i <= n,
    ensures
        2 * pairs_in_rows(n, i) == i * (2 * n - i - 1),
    decreases i,
{
    if i > 0 {
        lemma_pairs_in_rows(n, (i - 1) as nat);
        assert((i - 1) * (2 * n - (i - 1) - 1) + 2 * (n - i) == i * (2 * n - i - 1))
            by (nonlinear_arith);
        assert(pairs_in_rows(n, i) == pairs_in_rows(n, (i - 1) as nat) + n - i);
    } else {
        assert(0 * (2 * n - 0 - 1) == 0) by (nonlinear_arith);
    }
}

/// A non-dominated sort in progress: the dominance found among the
/// solutions, and the front that is next to be handed out.
pub struct FastNonDominatedSorter {
    /// For each solution, how many solutions not yet handed out dominate it.
    domination_count: Vec<usize>,
    /// For each solution, the solutions it dominates, in ascending order.
    dominated_solutions: Vec<Vec<usize>>,
    /// The front that the next call of `next` hands out.
    current_front: Vec<usize>,
    edges: Ghost<Set<(int, int)>>,
    placed: Ghost<Set<int>>,
    asked: Ghost<nat>,
}

impl FastNonDominatedSorter {
    /// The number of solutions that are sorted.
    pub closed spec fn size(&self) -> nat {
        self.domination_count@.len()
    }

    /// The dominance edges found: `(p, q)` says that solution `p` dominates
    /// solution `q`.
    pub closed spec fn edges(&self) -> Set<(int, int)> {
        self.edges@
    }

    /// Solution `p` was found to dominate solution `q`.
    pub open spec fn dominates(&self, p: int, q: int) -> bool {
        self.edges().contains((p, q))
    }

    /// The solutions of the fronts handed out so far.
    pub closed spec fn placed(&self) -> Set<int> {
        self.placed@
    }

    /// The front that the next call of `next` hands out.
    pub closed spec fn front(&self) -> Seq<usize> {
        self.current_front@
    }

    /// The number of verdicts that were recorded: one for every pair of
    /// solutions that was compared.
    pub closed spec fn comparisons(&self) -> nat {
        self.asked@
    }

    /// The number of solutions not handed out yet.
    pub open spec fn remaining(&self) -> nat {
        unplaced(self.placed(), self.size())
    }

    spec fn list(&self, p: int) -> Seq<usize> {
        self.dominated_solutions@[p]@
    }

    spec fn lists_ok(&self) -> bool {
        &&& self.dominated_solutions@.len() == self.size()
        &&& lists_fit(self.dominated_solutions@, self.edges@)
    }

    spec fn counts_ok(&self, live: Set<(int, int)>) -> bool {
        counts_fit(self.domination_count@, live)
    }

    /// The state while the pairs are compared: every pair before `(i, j)` is
    /// recorded, and every solution before `i` with no dominator is in the
    /// first front.
    pub closed spec fn building(&self, i: int, j: int) -> bool {
        let n = self.size() as int;
        &&& 0 <= i <= n
        &&& i < n ==> i < j <= n
        &&& self.asked@ == pairs_in_rows(self.size(), i as nat) + if i < n {
            j - i - 1
        } else {
            0
        }
        &&& relation_ok(self.size(), self.edges@)
        &&& self.lists_ok()
        &&& self.counts_ok(self.edges@)
        &&& self.placed@ == Set::<int>::empty()
        &&& forall|p: int, q: int| #[trigger]
            self.edges@.contains((p, q)) ==> if p < q {
                pair_before(p, q, i, j)
            } else {
                pair_before(q, p, i, j)
            }
        &&& forall|s: int, t: int|
            0 <= s < t < self.current_front@.len() ==> #[trigger] self.current_front@[s]
                < #[trigger] self.current_front@[t]
        &&& forall|s: int|
            0 <= s < self.current_front@.len() ==> (#[trigger] self.current_front@[s]) < i
                && self.domination_count@[self.current_front@[s] as int] == 0
        &&& forall|q: int|
            0 <= q < i && #[trigger] self.domination_count@[q] == 0 ==> members(
                self.current_front@,
            ).contains(q)
    }

    /// The state between two calls of `next`.
    pub closed spec fn wf(&self) -> bool {
        let n = self.size() as int;
        &&& 2 * self.asked@ == n * (n - 1)
        &&& relation_ok(self.size(), self.edges@)
        &&& self.lists_ok()
        &&& self.counts_ok(live_edges(self.edges@, self.placed@))
        &&& forall|q: int|
            #[trigger] self.placed@.contains(q) ==> 0 <= q < n && self.domination_count@[q] == 0
        &&& self.current_front@.no_duplicates()
        &&& forall|s: int|
            0 <= s < self.current_front@.len() ==> (#[trigger] self.current_front@[s]) < n
                && !self.placed@.contains(self.current_front@[s] as int)
                && self.domination_count@[self.current_front@[s] as int] == 0
        &&& forall|q: int|
            0 <= q < n && !self.placed@.contains(q) && #[trigger] self.domination_count@[q] == 0
                ==> members(self.current_front@).contains(q)
    }

    /// Records that solution `p` dominates solution `q`.
    fn add_edge(&mut self, p: usize, q: usize)
        requires
            relation_ok(old(self).size(), old(self).edges@),
            old(self).lists_ok(),
            old(self).counts_ok(old(self).edges@),
            p < old(self).size(),
            q < old(self).size(),
            p != q,
            !old(self).edges@.contains((p as int, q as int)),
            !old(self).edges@.contains((q as int, p as int)),
            forall|t: int| 0 <= t < old(self).list(p as int).len() ==> old(self).list(p as int)[t] < q,
        ensures
            relation_ok(final(self).size(), final(self).edges@),
            final(self).lists_ok(),
            final(self).counts_ok(final(self).edges@),
            final(self).size() == old(self).size(),
            final(self).edges@ == old(self).edges@.insert((p as int, q as int)),
            final(self).placed@ == old(self).placed@,
            final(self).asked@ == old(self).asked@,
            final(self).current_front@ == old(self).current_front@,
            final(self).domination_count@ == old(self).domination_count@.update(
                q as int,
                (old(self).domination_count@[q as int] + 1) as usize,
            ),
    {
        let ghost n = self.size();
        let ghost before = self.edges@;
        let ghost after = before.insert((p as int, q as int));
        let ghost old_self = *self;
        let c = self.domination_count[q];
        proof {
            lemma_indegree_insert(before, p as int, q as int, n);
            lemma_indegree_bound(after, q as int, n);
            assert(self.domination_count.len() == n);
            assert(c == indegree(before, q as int, n));
        }
        self.domination_count.set(q, c + 1);
        self.dominated_solutions[p].push(q);
        self.edges = Ghost(after);
        proof {
            assert(self.size() == n);
            assert forall|x: int| 0 <= x < n implies #[trigger] self.domination_count@[x]
                == indegree(after, x, n) by {
                if x != q {
                    lemma_indegree_agree(before, after, x, n);
                }
            }
            assert forall|x: int| 0 <= x < n && x != p implies self.list(x) == old_self.list(x) by {}
            assert(self.list(p as int) == old_self.list(p as int).push(q));
            assert forall|x: int, i: int, j: int|
                0 <= x < n && 0 <= i < j < self.list(x).len() implies #[trigger] self.list(x)[i]
                < #[trigger] self.list(x)[j] by {
                if x == p {
                    if j < old_self.list(x).len() {
                        assert(old_self.list(x)[i] < old_self.list(x)[j]);
                    }
                } else {
                    assert(self.list(x) == old_self.list(x));
                    assert(old_self.list(x)[i] < old_self.list(x)[j]);
                }
            }
            assert forall|x: int, i: int|
                0 <= x < n && 0 <= i < self.list(x).len() implies self.edges@.contains(
                (x, #[trigger] self.list(x)[i] as int),
            ) by {
                if x == p {
                    if i < old_self.list(x).len() {
                        assert(old_self.edges@.contains((x, old_self.list(x)[i] as int)));
                    }
                } else {
                    assert(self.list(x) == old_self.list(x));
                    assert(old_self.edges@.contains((x, old_self.list(x)[i] as int)));
                }
            }
            assert forall|x: int, y: int| #[trigger] self.edges@.contains((x, y)) implies members(
                self.list(x),
            ).contains(y) by {
                if x == p && y == q {
                    assert(self.list(p as int)[old_self.list(p as int).len() as int] == q);
                } else {
                    assert(before.contains((x, y)));
                    assert(members(old_self.list(x)).contains(y));
                    let t = choose|t: int|
                        0 <= t < old_self.list(x).len() && #[trigger] old_self.list(x)[t] == y;
                    if x == p {
                        assert(self.list(x)[t] == old_self.list(x).push(q)[t]);
                    } else {
                        assert(self.list(x) == old_self.list(x));
                    }
                    assert(self.list(x)[t] == y);
                }
            }
        }
    }

    /// Records the verdict on the pair `(i, j)`, which is the next pair to be
    /// compared: `Less` says that `i` dominates `j`, `Greater` that `j`
    /// dominates `i`.
    pub fn record(&mut self, i: usize, j: usize, v: Verdict)
        requires
            old(self).building(i as int, j as int),
            i < j < old(self).size(),
        ensures
            final(self).building(i as int, j + 1),
            final(self).size() == old(self).size(),
            final(self).placed() == old(self).placed(),
            final(self).front() == old(self).front(),
            final(self).comparisons() == old(self).comparisons() + 1,
            final(self).edges() == match v {
                Verdict::Less => old(self).edges().insert((i as int, j as int)),
                Verdict::Greater => old(self).edges().insert((j as int, i as int)),
                Verdict::Equal => old(self).edges(),
            },
    {
        proof {
            assert forall|t: int| 0 <= t < self.list(i as int).len() implies self.list(i as int)[t]
                < j by {
                assert(self.edges@.contains((i as int, self.list(i as int)[t] as int)));
            }
            assert forall|t: int| 0 <= t < self.list(j as int).len() implies self.list(j as int)[t]
                < i by {
                assert(self.edges@.contains((j as int, self.list(j as int)[t] as int)));
            }
            if self.edges@.contains((i as int, j as int)) {
                assert(pair_before(i as int, j as int, i as int, j as int));
            }
            if self.edges@.contains((j as int, i as int)) {
                assert(pair_before(i as int, j as int, i as int, j as int));
            }
        }
        match v {
            Verdict::Less => {
                self.add_edge(i, j);
            },
            Verdict::Greater => {
                self.add_edge(j, i);
            },
            Verdict::Equal => {},
        }
        self.asked = Ghost((self.asked@ + 1) as nat);
        proof {
            assert forall|q: int|
                0 <= q < i && #[trigger] self.domination_count@[q] == 0 implies members(
                self.current_front@,
            ).contains(q) by {
                assert(old(self).domination_count@[q] == 0);
            }
        }
    }

    /// Ends row `i`: every pair `(i, j)` has been recorded, so the number of
    /// solutions that dominate `i` is known.
    pub fn close_row(&mut self, i: usize)
        requires
            old(self).building(i as int, old(self).size() as int),
            i < old(self).size(),
        ensures
            final(self).building(i + 1, i + 2),
            final(self).size() == old(self).size(),
            final(self).placed() == old(self).placed(),
            final(self).comparisons() == old(self).comparisons(),
            final(self).edges() == old(self).edges(),
    {
        if self.domination_count[i] == 0 {
            self.current_front.push(i);
            proof {
                assert forall|q: int|
                    0 <= q < i + 1 && #[trigger] self.domination_count@[q] == 0 implies members(
                    self.current_front@,
                ).contains(q) by {
                    if q < i {
                        assert(members(old(self).current_front@).contains(q));
                        let t = choose|t: int|
                            0 <= t < old(self).current_front@.len() && #[trigger] old(
                                self,
                            ).current_front@[t] == q;
                        assert(self.current_front@[t] == q);
                    } else {
                        assert(self.current_front@[old(self).current_front@.len() as int] == i);
                    }
                }
            }
        } else {
            proof {
                assert forall|q: int|
                    0 <= q < i + 1 && #[trigger] self.domination_count@[q] == 0 implies members(
                    self.current_front@,
                ).contains(q) by {}
            }
        }
        proof {
            assert forall|p: int| 0 <= p < self.size() implies self.list(p) == old(self).list(p) by {}
        }
    }

    /// Once the last row is closed the sorter is ready to hand out fronts.
    pub proof fn lemma_built(&self, j: int)
        requires
            self.building(self.size() as int, j),
        ensures
            self.wf(),
            ascending(self.front()),
            2 * self.comparisons() == self.size() * (self.size() - 1),
    {
        lemma_pairs_in_rows(self.size(), self.size());
        assert(self.size() * (2 * self.size() - self.size() - 1) == self.size() * (self.size() - 1))
            by (nonlinear_arith);
        assert(live_edges(self.edges@, self.placed@) =~= self.edges@);
        assert forall|s: int, t: int|
            0 <= s < t < self.current_front@.len() implies self.current_front@[s]
            != self.current_front@[t] by {}
    }

    /// What holds of the dominance edges and of the pending front between two
    /// calls of `next`.
    pub proof fn lemma_front(&self)
        requires
            self.wf(),
        ensures
            relation_ok(self.size(), self.edges()),
            exact_front(self.size(), self.edges(), self.placed(), self.front()),
            forall|q: int| #[trigger] self.placed().contains(q) ==> 0 <= q < self.size(),
            self.size() <= usize::MAX,
            2 * self.comparisons() == self.size() * (self.size() - 1),
    {
        assert(self.domination_count.len() == self.size());
        let n = self.size();
        let live = live_edges(self.edges@, self.placed@);
        assert forall|q: int| 0 <= q < n implies (#[trigger] members(self.front()).contains(q)
            <==> !self.placed().contains(q) && unblocked(self.edges@, self.placed@, q)) by {
            lemma_indegree_zero(live, q, n);
            assert(self.domination_count@[q] == indegree(live, q, n));
            if members(self.front()).contains(q) {
                let s = choose|s: int|
                    0 <= s < self.front().len() && #[trigger] self.front()[s] == q;
                assert(self.current_front@[s] == q);
                assert forall|p: int| #[trigger] self.edges@.contains((p, q)) implies self.placed@.contains(
                    p,
                ) by {
                    if !self.placed@.contains(p) {
                        assert(live.contains((p, q)));
                    }
                }
            }
            if !self.placed().contains(q) && unblocked(self.edges@, self.placed@, q) {
                assert forall|p: int| 0 <= p < n implies !live.contains((p, q)) by {
                    if live.contains((p, q)) {
                        assert(self.edges@.contains((p, q)));
                    }
                }
            }
        }
    }

    /// Once the pending front is empty, every solution has been handed out,
    /// provided that the dominance found has no cycle.
    pub proof fn lemma_exhausted(&self)
        requires
            self.wf(),
            self.front().len() == 0,
            well_founded(self.size(), self.edges()),
        ensures
            self.remaining() == 0,
            forall|q: int| 0 <= q < self.size() ==> self.placed().contains(q),
    {
        self.lemma_front();
        assert(self.front() =~= Seq::<usize>::empty());
        lemma_nothing_left(self.size(), self.edges(), self.placed());
    }

    /// Hands out the pending front and computes the one after it: the
    /// solutions whose last dominators were in the front handed out.
    ///
    /// Returns `None`, and changes nothing, once the pending front is empty.
    pub fn next(&mut self) -> (r: Option<Vec<usize>>)
        requires
            old(self).wf(),
        ensures
            final(self).wf(),
            final(self).size() == old(self).size(),
            final(self).edges() == old(self).edges(),
            final(self).comparisons() == old(self).comparisons(),
            old(self).front().len() == 0 ==> r is None && final(self).front() == old(self).front()
                && final(self).placed() == old(self).placed(),
            old(self).front().len() > 0 ==> r is Some && r->0@ == old(self).front()
                && final(self).placed() == old(self).placed().union(members(old(self).front()))
                && final(self).remaining() + old(self).front().len() == old(self).remaining()
                && follows(final(self).edges(), old(self).front(), final(self).front()),
    {
        if self.current_front.len() == 0 {
            return None;
        }
        let ghost n = self.size();
        let ghost edges = self.edges@;
        let ghost placed = self.placed@;
        let ghost cur = self.current_front@;
        let ghost lists = self.dominated_solutions@;
        let ghost asked = self.asked@;
        let ghost mut live = live_edges(edges, placed);
        let ghost mut pos: Seq<int> = Seq::empty();
        let mut next_front: Vec<usize> = Vec::new();
        proof {
            assert(live =~= live_mid(edges, placed, cur, 0, 0, Seq::empty(), 0));
        }
        let mut a: usize = 0;
        while a < self.current_front.len()
            invariant
                a <= cur.len(),
                self.domination_count@.len() == n,
                self.edges@ == edges,
                self.placed@ == placed,
                self.asked@ == asked,
                self.current_front@ == cur,
                self.dominated_solutions@ == lists,
                relation_ok(n, edges),
                lists.len() == n,
                lists_fit(lists, edges),
                counts_fit(self.domination_count@, live),
                live == live_mid(edges, placed, cur, a as int, 0, Seq::empty(), 0),
                cur.no_duplicates(),
                forall|s: int|
                    0 <= s < cur.len() ==> (#[trigger] cur[s]) < n && !placed.contains(cur[s] as int)
                        && self.domination_count@[cur[s] as int] == 0,
                forall|q: int|
                    #[trigger] placed.contains(q) ==> 0 <= q < n && self.domination_count@[q] == 0,
                next_front@.no_duplicates(),
                forall|s: int|
                    0 <= s < next_front@.len() ==> (#[trigger] next_front@[s]) < n
                        && !placed.contains(next_front@[s] as int) && !members(cur).contains(
                        next_front@[s] as int,
                    ) && self.domination_count@[next_front@[s] as int] == 0,
                forall|q: int|
                    0 <= q < n && !placed.contains(q) && !members(cur).contains(q)
                        && #[trigger] self.domination_count@[q] == 0 ==> members(
                        next_front@,
                    ).contains(q),
                pos.len() == next_front@.len(),
                forall|s: int|
                    0 <= s < pos.len() ==> #[trigger] pos[s] < a && last_dominator(edges, 
                        cur,
                        next_front@[s] as int,
                        pos[s],
                    ),
                forall|s: int, t: int|
                    0 <= s < t < pos.len() ==> #[trigger] pos[s] < #[trigger] pos[t] || (pos[s]
                        == pos[t] && next_front@[s] < next_front@[t]),
            decreases cur.len() - a,
        {
            let p = self.current_front[a];
            let ghost list = lists[p as int]@;
            proof {
                assert(live =~= live_mid(edges, placed, cur, a as int, p as int, list, 0));
            }
            let mut b: usize = 0;
            while b < self.dominated_solutions[p].len()
                invariant
                    a < cur.len(),
                    p == cur[a as int],
                    p < n,
                    list == lists[p as int]@,
                    b <= list.len(),
                    self.domination_count@.len() == n,
                    self.edges@ == edges,
                    self.placed@ == placed,
                    self.asked@ == asked,
                    self.current_front@ == cur,
                    self.dominated_solutions@ == lists,
                    relation_ok(n, edges),
                    lists.len() == n,
                lists_fit(lists, edges),
                    counts_fit(self.domination_count@, live),
                    live == live_mid(edges, placed, cur, a as int, p as int, list, b as int),
                    cur.no_duplicates(),
                    forall|s: int|
                        0 <= s < cur.len() ==> (#[trigger] cur[s]) < n && !placed.contains(
                            cur[s] as int,
                        ) && self.domination_count@[cur[s] as int] == 0,
                    forall|q: int|
                        #[trigger] placed.contains(q) ==> 0 <= q < n && self.domination_count@[q]
                            == 0,
                    next_front@.no_duplicates(),
                    forall|s: int|
                        0 <= s < next_front@.len() ==> (#[trigger] next_front@[s]) < n
                            && !placed.contains(next_front@[s] as int) && !members(cur).contains(
                            next_front@[s] as int,
                        ) && self.domination_count@[next_front@[s] as int] == 0,
                    forall|q: int|
                        0 <= q < n && !placed.contains(q) && !members(cur).contains(q)
                            && #[trigger] self.domination_count@[q] == 0 ==> members(
                            next_front@,
                        ).contains(q),
                    pos.len() == next_front@.len(),
                    forall|s: int|
                        0 <= s < pos.len() ==> #[trigger] pos[s] <= a && last_dominator(edges, 
                            cur,
                            next_front@[s] as int,
                            pos[s],
                        ) && (pos[s] == a ==> in_prefix(list, b as int, next_front@[s] as int)),
                    forall|s: int, t: int|
                        0 <= s < t < pos.len() ==> #[trigger] pos[s] < #[trigger] pos[t] || (pos[s]
                            == pos[t] && next_front@[s] < next_front@[t]),
                decreases list.len() - b,
            {
                let q = self.dominated_solutions[p][b];
                proof {
                    assert(q == lists[p as int]@[b as int]);
                    assert(edges.contains((p as int, q as int)));
                }
                let c = self.domination_count[q];
                let ghost less = live.remove((p as int, q as int));
                let ghost old_counts = self.domination_count@;
                let ghost old_next = next_front@;
                proof {
                    assert(edges.contains((p as int, q as int)));
                    assert(!in_prefix(cur, a as int, p as int));
                    assert(!in_prefix(list, b as int, q as int)) by {
                        if in_prefix(list, b as int, q as int) {
                            let t = choose|t: int|
                                0 <= t < b && t < list.len() && #[trigger] list[t] == q;
                            assert(list[t] < list[b as int]);
                        }
                    }
                    assert(live.contains((p as int, q as int)));
                    lemma_indegree_positive(live, p as int, q as int, n);
                    lemma_indegree_remove(live, p as int, q as int, n);
                    assert(c == indegree(live, q as int, n));
                    assert(less =~= live_mid(
                        edges,
                        placed,
                        cur,
                        a as int,
                        p as int,
                        list,
                        b as int + 1,
                    )) by {
                        assert forall|e: (int, int)|
                            less.contains(e) == live_mid(
                                edges,
                                placed,
                                cur,
                                a as int,
                                p as int,
                                list,
                                b as int + 1,
                            ).contains(e) by {
                            if in_prefix(list, b as int + 1, e.1) {
                                let t = choose|t: int|
                                    0 <= t < b + 1 && t < list.len() && #[trigger] list[t] == e.1;
                                if t < b {
                                    assert(in_prefix(list, b as int, e.1));
                                }
                            }
                            if in_prefix(list, b as int, e.1) {
                                let t = choose|t: int|
                                    0 <= t < b && t < list.len() && #[trigger] list[t] == e.1;
                                assert(in_prefix(list, b as int + 1, e.1));
                            }
                            if e.1 == q {
                                assert(list[b as int] == e.1);
                                assert(in_prefix(list, b as int + 1, e.1));
                            }
                        }
                    }
                    assert(!placed.contains(q as int));
                    assert(!members(cur).contains(q as int)) by {
                        if members(cur).contains(q as int) {
                            let t = choose|t: int| 0 <= t < cur.len() && #[trigger] cur[t] == q;
                            assert(self.domination_count@[cur[t] as int] == 0);
                        }
                    }
                    assert(!members(old_next).contains(q as int)) by {
                        if members(old_next).contains(q as int) {
                            let t = choose|t: int|
                                0 <= t < old_next.len() && #[trigger] old_next[t] == q;
                            assert(self.domination_count@[old_next[t] as int] == 0);
                        }
                    }
                }
                self.domination_count.set(q, c - 1);
                proof {
                    live = less;
                    assert forall|x: int| 0 <= x < n implies #[trigger] self.domination_count@[x]
                        == indegree(live, x, n) by {
                        if x != q {
                            lemma_indegree_agree(less.insert((p as int, q as int)), less, x, n);
                            assert(less.insert((p as int, q as int)) =~= live.insert(
                                (p as int, q as int),
                            ));
                            assert(old_counts[x] == self.domination_count@[x]);
                        }
                    }
                }
                if c - 1 == 0 {
                    next_front.push(q);
                    proof {
                        lemma_indegree_zero(live, q as int, n);
                        assert forall|u: int| a < u < cur.len() implies !edges.contains((#[trigger] cur[u] as int, q as int)) by {
                            if edges.contains((cur[u] as int, q as int)) {
                                assert(!in_prefix(cur, a as int, cur[u] as int)) by {
                                    if in_prefix(cur, a as int, cur[u] as int) {
                                        let t = choose|t: int|
                                            0 <= t < a && t < cur.len() && #[trigger] cur[t]
                                                == cur[u];
                                        assert(cur[t] != cur[u]);
                                    }
                                }
                                assert(cur[u] != cur[a as int]);
                                assert(live.contains((cur[u] as int, q as int)));
                            }
                        }
                        assert(last_dominator(edges, cur, q as int, a as int));
                        pos = pos.push(a as int);
                        assert(in_prefix(list, b as int + 1, q as int)) by {
                            assert(list[b as int] == q);
                        }
                        assert forall|s: int| 0 <= s < pos.len() implies #[trigger] pos[s] <= a
                            && last_dominator(edges, cur, next_front@[s] as int, pos[s]) && (pos[s]
                            == a ==> in_prefix(list, b as int + 1, next_front@[s] as int)) by {
                            if s < old_next.len() {
                                assert(next_front@[s] == old_next[s]);
                                if pos[s] == a {
                                    let t = choose|t: int|
                                        0 <= t < b && t < list.len() && #[trigger] list[t]
                                            == old_next[s];
                                    assert(in_prefix(list, b as int + 1, old_next[s] as int));
                                }
                            }
                        }
                        assert forall|s: int, t: int| 0 <= s < t < pos.len() implies #[trigger] pos[s]
                            < #[trigger] pos[t] || (pos[s] == pos[t] && next_front@[s]
                            < next_front@[t]) by {
                            if t == old_next.len() {
                                assert(next_front@[s] == old_next[s]);
                                if pos[s] == a {
                                    let k = choose|k: int|
                                        0 <= k < b && k < list.len() && #[trigger] list[k]
                                            == old_next[s];
                                    assert(list[k] < list[b as int]);
                                }
                            } else {
                                assert(next_front@[s] == old_next[s]);
                                assert(next_front@[t] == old_next[t]);
                            }
                        }
                        assert forall|s: int, t: int|
                            0 <= s < t < next_front@.len() implies next_front@[s]
                            != next_front@[t] by {
                            if t == old_next.len() {
                                assert(next_front@[s] == old_next[s]);
                            }
                        }
                        assert forall|x: int|
                            0 <= x < n && !placed.contains(x) && !members(cur).contains(x)
                                && #[trigger] self.domination_count@[x] == 0 implies members(
                            next_front@,
                        ).contains(x) by {
                            if x == q {
                                assert(next_front@[old_next.len() as int] == q);
                            } else {
                                assert(old_counts[x] == 0);
                                let t = choose|t: int|
                                    0 <= t < old_next.len() && #[trigger] old_next[t] == x;
                                assert(next_front@[t] == x);
                            }
                        }
                    }
                } else {
                    proof {
                        assert forall|s: int| 0 <= s < pos.len() implies #[trigger] pos[s] <= a
                            && last_dominator(edges, cur, next_front@[s] as int, pos[s]) && (pos[s]
                            == a ==> in_prefix(list, b as int + 1, next_front@[s] as int)) by {
                            if pos[s] == a {
                                let t = choose|t: int|
                                    0 <= t < b && t < list.len() && #[trigger] list[t]
                                        == next_front@[s];
                                assert(in_prefix(list, b as int + 1, next_front@[s] as int));
                            }
                        }
                        assert forall|x: int|
                            0 <= x < n && !placed.contains(x) && !members(cur).contains(x)
                                && #[trigger] self.domination_count@[x] == 0 implies members(
                            next_front@,
                        ).contains(x) by {
                            assert(old_counts[x] == 0);
                        }
                    }
                }
                b = b + 1;
            }
            proof {
                assert(live =~= live_mid(edges, placed, cur, a as int + 1, 0, Seq::empty(), 0)) by {
                    assert forall|e: (int, int)|
                        live.contains(e) == live_mid(
                            edges,
                            placed,
                            cur,
                            a as int + 1,
                            0,
                            Seq::empty(),
                            0,
                        ).contains(e) by {
                        if in_prefix(cur, a as int + 1, e.0) {
                            let t = choose|t: int|
                                0 <= t < a + 1 && t < cur.len() && #[trigger] cur[t] == e.0;
                            if t < a {
                                assert(in_prefix(cur, a as int, e.0));
                            } else {
                                if edges.contains(e) {
                                    assert(members(lists[e.0]@).contains(e.1));
                                }
                            }
                        }
                        if in_prefix(cur, a as int, e.0) {
                            let t = choose|t: int|
                                0 <= t < a && t < cur.len() && #[trigger] cur[t] == e.0;
                            assert(in_prefix(cur, a as int + 1, e.0));
                        }
                        if e.0 == p {
                            assert(cur[a as int] == e.0);
                            assert(in_prefix(cur, a as int + 1, e.0));
                        }
                    }
                }
            }
            a = a + 1;
        }
        let ghost after = placed.union(members(cur));
        proof {
            assert(live =~= live_edges(edges, after)) by {
                assert forall|e: (int, int)| live.contains(e) == live_edges(edges, after).contains(
                    e,
                ) by {
                    if in_prefix(cur, cur.len() as int, e.0) {
                        assert(members(cur).contains(e.0));
                    }
                }
            }
        }
        proof {
            lemma_unplaced_front(placed, cur, cur.len(), n);
            assert(cur.take(cur.len() as int) =~= cur);
        }
        std::mem::swap(&mut self.current_front, &mut next_front);
        self.placed = Ghost(after);
        proof {
            assert forall|q: int| #[trigger] self.placed@.contains(q) implies 0 <= q < n
                && self.domination_count@[q] == 0 by {
                if !placed.contains(q) {
                    let t = choose|t: int| 0 <= t < cur.len() && #[trigger] cur[t] == q;
                    assert(self.domination_count@[cur[t] as int] == 0);
                }
            }
            assert forall|i: int| 0 <= i < self.front().len() implies dominated_from(
                edges,
                cur,
                #[trigger] self.front()[i] as int,
            ) by {
                assert(last_dominator(edges, cur, self.front()[i] as int, pos[i]));
            }
            assert forall|i: int, j: int| 0 <= i < j < self.front().len() implies released_before(
                edges,
                cur,
                #[trigger] self.front()[i] as int,
                #[trigger] self.front()[j] as int,
            ) by {
                assert(last_dominator(edges, cur, self.front()[i] as int, pos[i]));
                assert(last_dominator(edges, cur, self.front()[j] as int, pos[j]));
                assert(pos[i] < pos[j] || (pos[i] == pos[j] && self.front()[i] < self.front()[j]));
            }
        }
        Some(next_front)
    }

    /// Sorts the fitness values `fits` under the objectives whose indices are
    /// listed, comparing every pair once.
    pub fn of_fitness<FIT: Domination>(fits: &Vec<&FIT>, objectives: &[usize]) -> (sorter: Self)
        ensures
            sorter.wf(),
            sorter.size() == fits@.len(),
            sorter.placed() == Set::<int>::empty(),
            ascending(sorter.front()),
            2 * sorter.comparisons() == fits@.len() * (fits@.len() - 1),
            sorter.edges() == verdict_edges(
                fits@.len(),
                |a: int, b: int| fits@[a].verdict_on(fits@[b], objectives@),
            ),
    {
        let n = fits.len();
        let ghost table = |a: int, b: int| fits@[a].verdict_on(fits@[b], objectives@);
        let mut sorter = Self::begin(n);
        let mut i: usize = 0;
        proof {
            assert(sorter.edges() =~= verdict_edges_before(n as nat, table, 0, 1));
        }
        while i < n
            invariant
                i <= n,
                n == fits@.len(),
                table == |a: int, b: int| fits@[a].verdict_on(fits@[b], objectives@),
                sorter.size() == n,
                sorter.building(i as int, i + 1),
                sorter.placed() == Set::<int>::empty(),
                sorter.edges() == verdict_edges_before(n as nat, table, i as int, i + 1),
            decreases n - i,
        {
            let mut j: usize = i + 1;
            while j < n
                invariant
                    i < j <= n,
                    n == fits@.len(),
                    table == |a: int, b: int| fits@[a].verdict_on(fits@[b], objectives@),
                    sorter.size() == n,
                    sorter.building(i as int, j as int),
                    sorter.placed() == Set::<int>::empty(),
                    sorter.edges() == verdict_edges_before(n as nat, table, i as int, j as int),
                decreases n - j,
            {
                let v = verdict_between(fits[i], fits[j], objectives);
                sorter.record(i, j, v);
                proof {
                    assert(v == table(i as int, j as int));
                    assert(sorter.edges() =~= verdict_edges_before(
                        n as nat,
                        table,
                        i as int,
                        j + 1,
                    ));
                }
                j = j + 1;
            }
            sorter.close_row(i);
            proof {
                assert(sorter.edges() =~= verdict_edges_before(n as nat, table, i + 1, i + 2));
            }
            i = i + 1;
        }
        proof {
            sorter.lemma_built(i + 1);
            assert(sorter.edges() =~= verdict_edges(n as nat, table));
        }
        sorter
    }

    /// Performs a non-dominated sort of `solutions`, judged by the fitness that
    /// `map` finds in each and by the objectives whose indices are listed.
    ///
    /// Each Pareto front, as indices into `solutions`, is then obtained by
    /// calling `next`.
    pub fn new<T, FIT, MAP>(solutions: &[T], map: &MAP, objectives: &[usize]) -> (sorter: Self) where
        MAP: Fn(&T) -> &FIT,
        FIT: Domination,

        requires
            forall|k: int| 0 <= k < solutions@.len() ==> call_requires(map, (&solutions@[k],)),
        ensures
            sorter.wf(),
            sorter.size() == solutions@.len(),
            sorter.placed() == Set::<int>::empty(),
            ascending(sorter.front()),
            2 * sorter.comparisons() == solutions@.len() * (solutions@.len() - 1),
            exists|fits: Seq<&FIT>|
                {
                    &&& fits.len() == solutions@.len()
                    &&& forall|k: int|
                        0 <= k < fits.len() ==> call_ensures(map, (&solutions@[k],), #[trigger] fits[k])
                    &&& sorter.edges() == verdict_edges(
                        fits.len(),
                        |a: int, b: int| fits[a].verdict_on(fits[b], objectives@),
                    )
                },
    {
        let mut fits: Vec<&FIT> = Vec::new();
        let mut k: usize = 0;
        while k < solutions.len()
            invariant
                k <= solutions@.len(),
                fits@.len() == k,
                forall|t: int| 0 <= t < solutions@.len() ==> call_requires(map, (&solutions@[t],)),
                forall|t: int| 0 <= t < k ==> call_ensures(map, (&solutions@[t],), #[trigger] fits@[t]),
            decreases solutions@.len() - k,
        {
            fits.push(map(&solutions[k]));
            k = k + 1;
        }
        Self::of_fitness(&fits, objectives)
    }

    /// A sorter for `n` solutions with no pair compared yet.
    pub fn begin(n: usize) -> (sorter: Self)
        ensures
            sorter.size() == n,
            sorter.building(0, 1),
            sorter.placed() == Set::<int>::empty(),
            sorter.front().len() == 0,
            sorter.comparisons() == 0,
            sorter.edges() == Set::<(int, int)>::empty(),
    {
        let mut domination_count: Vec<usize> = Vec::new();
        let mut dominated_solutions: Vec<Vec<usize>> = Vec::new();
        let mut k: usize = 0;
        while k < n
            invariant
                k <= n,
                domination_count@.len() == k,
                dominated_solutions@.len() == k,
                forall|q: int| 0 <= q < k ==> domination_count@[q] == 0,
                forall|p: int| 0 <= p < k ==> (#[trigger] dominated_solutions@[p])@.len() == 0,
            decreases n - k,
        {
            domination_count.push(0);
            dominated_solutions.push(Vec::new());
            k = k + 1;
        }
        let sorter = FastNonDominatedSorter {
            domination_count,
            dominated_solutions,
            current_front: Vec::new(),
            edges: Ghost(Set::empty()),
            placed: Ghost(Set::empty()),
            asked: Ghost(0),
        };
        proof {
            assert forall|q: int| 0 <= q < sorter.size() implies #[trigger] sorter.domination_count@[q]
                == indegree(sorter.edges@, q, sorter.size()) by {
                lemma_indegree_zero(sorter.edges@, q, sorter.size());
            }
            assert forall|p: int, q: int| #[trigger] sorter.edges@.contains((p, q)) implies members(
                sorter.list(p),
            ).contains(q) by {}
        }
        sorter
    }
}

/// Sorts `solutions` into Pareto fronts under the objectives whose indices are
/// listed, and returns the leading fronts, as indices into `solutions`, until
/// they hold at least `n` solutions.
pub fn fast_non_dominated_sort<T: Domination>(solutions: &[T], n: usize, objectives: &[usize]) -> (fronts:
    Vec<Vec<usize>>)
    ensures
        is_front_chain(
            solutions@.len(),
            verdict_edges(
                solutions@.len(),
                |a: int, b: int| solutions@[a].verdict_on(&solutions@[b], objectives@),
            ),
            views(fronts@),
        ),
        stops_at(
            solutions@.len(),
            verdict_edges(
                solutions@.len(),
                |a: int, b: int| solutions@[a].verdict_on(&solutions@[b], objectives@),
            ),
            views(fronts@),
            n as nat,
        ),
        partitions(
            solutions@.len(),
            verdict_edges(
                solutions@.len(),
                |a: int, b: int| solutions@[a].verdict_on(&solutions@[b], objectives@),
            ),
            views(fronts@),
            n as nat,
        ),
{
    let mut refs: Vec<&T> = Vec::new();
    let mut k: usize = 0;
    while k < solutions.len()
        invariant
            k <= solutions@.len(),
            refs@.len() == k,
            forall|t: int| 0 <= t < k ==> *(#[trigger] refs@[t]) == solutions@[t],
        decreases solutions@.len() - k,
    {
        refs.push(&solutions[k]);
        k = k + 1;
    }
    let ghost edges = verdict_edges(
        solutions@.len(),
        |a: int, b: int| solutions@[a].verdict_on(&solutions@[b], objectives@),
    );
    let mut sorter = FastNonDominatedSorter::of_fitness(&refs, objectives);
    proof {
        assert(sorter.edges() =~= edges);
    }
    let fronts = collect_fronts(&mut sorter, n);
    proof {
        lemma_partitions(solutions@.len(), edges, views(fronts@), n as nat);
    }
    fronts
}

/// Draws fronts from `sorter` until they hold at least `cap` solutions or the
/// sorter has no more.
pub fn collect_fronts(sorter: &mut FastNonDominatedSorter, cap: usize) -> (fronts: Vec<Vec<usize>>)
    requires
        old(sorter).wf(),
        old(sorter).placed() == Set::<int>::empty(),
        ascending(old(sorter).front()),
    ensures
        final(sorter).wf(),
        final(sorter).size() == old(sorter).size(),
        final(sorter).edges() == old(sorter).edges(),
        is_front_chain(old(sorter).size(), old(sorter).edges(), views(fronts@)),
        stops_at(old(sorter).size(), old(sorter).edges(), views(fronts@), cap as nat),
{
    let ghost n = sorter.size();
    let ghost edges = sorter.edges();
    let mut found: usize = 0;
    let mut fronts: Vec<Vec<usize>> = Vec::new();
    let mut done = false;
    proof {
        lemma_unplaced_none(n);
        sorter.lemma_front();
        assert(placed_upto(views(fronts@), 0) =~= Set::<int>::empty());
    }
    while !done
        invariant
            sorter.wf(),
            sorter.size() == n,
            sorter.edges() == edges,
            n <= usize::MAX,
            is_front_chain(n, edges, views(fronts@)),
            sorter.placed() == placed_upto(views(fronts@), fronts@.len()),
            found == total_upto(views(fronts@), fronts@.len()),
            found + sorter.remaining() == n,
            forall|k: int| 0 < k < fronts@.len() ==> #[trigger] total_upto(views(fronts@), k as nat) < cap,
            !done && fronts@.len() > 0 ==> found < cap,
            !done ==> if fronts@.len() == 0 {
                ascending(sorter.front())
            } else {
                follows(edges, fronts@[fronts@.len() - 1]@, sorter.front())
            },
            done ==> stops_at(n, edges, views(fronts@), cap as nat),
        decreases
                if done {
                    0
                } else {
                    1 + sorter.remaining()
                },
    {
        let ghost before = views(fronts@);
        let ghost pending = sorter.front();
        proof {
            sorter.lemma_front();
        }
        match sorter.next() {
            None => {
                proof {
                    assert(pending =~= Seq::<usize>::empty());
                }
                done = true;
            },
            Some(front) => {
                let ghost found_before = found;
                found = found + front.len();
                fronts.push(front);
                proof {
                    let after = views(fronts@);
                    assert(after =~= before.push(pending));
                    lemma_chain_push(n, edges, before, pending);
                    assert(found == total_upto(after, fronts@.len()));
                    assert forall|k: int| 0 < k < fronts@.len() implies #[trigger] total_upto(
                        after,
                        k as nat,
                    ) < cap by {
                        assert(total_upto(after, k as nat) == total_upto(before, k as nat));
                        if k == before.len() {
                            assert(total_upto(before, k as nat) == found_before);
                        }
                    }
                    assert(fronts@[fronts@.len() - 1]@ == pending);
                }
                if found >= cap {
                    done = true;
                }
            },
        }
    }
    fronts
}

} // verus!
