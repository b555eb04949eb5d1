//! The selection of survivors by front rank and by groups of similar fitness.
//!
//! The solutions are sorted into Pareto fronts and every front is divided into
//! groups of solutions that lie close to each other under every objective.
//! Survivors are then taken one from each group in turn, front by front and
//! round by round, so that a crowd of near-identical solutions has no more
//! say than a solution that stands alone. The best solution of the first
//! front under the first objective always survives.

use crate::crowding_distance::{crowding_entries, lemma_entries_places, place, Entry, ObjectiveStat};
use crate::domination::DominationOrd;
use crate::fronts::{
    is_front_chain, lemma_chain_count, lemma_full_sort_total, placed_upto, total_upto, well_founded,
};
use crate::grouping::{entry_ok, grouped, lemma_grouped, Tolerance};
use crate::groups::{all_distinct, contents, lemma_count_in_agree, lemma_size_concat, size_upto};
use crate::multi_objective::MultiObjective;
use crate::non_dominated_sort::{index_lists, index_views, indices, non_dominated_sort, refers_to};
use crate::pools::{
    arranged_by, count_weight, counting, lemma_arranged_count, lemma_counting_count, member_key,
    Member,
};
use crate::random::random_index;
use crate::round_robin::{
    draw_members, draws_ok, lemma_plan_starts, picks, plan_of, pool_sizes, round_robin_plan,
    sizes_of, total_size, Slot,
};
use crate::selection::capped;
use crate::stable_sort::{
    asymmetric, count_of, distinct_by, has_key, lemma_sorted_all, lemma_sorted_in_order,
    lemma_sorted_keeps, lemma_sorted_sum, negatively_transitive,
};
use crate::verdict::Verdict;
use rand::StdRng;
use vstd::prelude::*;

verus! {

impl<'a, S> MultiObjective<'a, S, i64> {
    /// What every objective finds about a front.
    pub open spec fn stats_of(&self, front: Seq<(usize, &S)>) -> Seq<ObjectiveStat> {
        Seq::new(
            self.count(),
            |m: int| ObjectiveStat { spread: self.spread_of(m, front) as u64 },
        )
    }

    /// The groups of similar solutions of a front.
    pub open spec fn groups_of(&self, front: Seq<(usize, &S)>, tolerance: Tolerance) -> Seq<Seq<Entry>> {
        grouped(
            self.entries_after(self.count(), front),
            self.alike(front, self.stats_of(front), tolerance),
        )
    }

    /// The pools of the first `r` fronts, front by front.
    pub open spec fn pools_upto<'b>(&self, fronts: Seq<Seq<(usize, &'b S)>>, tolerance: Tolerance, r: nat) -> Seq<
        Seq<Member>,
    >
        decreases r,
    {
        if r == 0 {
            Seq::empty()
        } else {
            self.pools_upto(fronts, tolerance, (r - 1) as nat) + self.front_pools(
                fronts[r - 1],
                (r - 1) as usize,
                self.groups_of(fronts[r - 1], tolerance),
            )
        }
    }
}

/// What each of the fronts holds.
pub open spec fn pair_lists<'a, S>(fronts: Seq<Vec<(usize, &'a S)>>) -> Seq<Seq<(usize, &'a S)>> {
    Seq::new(fronts.len(), |k: int| fronts[k]@)
}

/// Pools of distinct members stay pools of distinct members when pools of
/// other distinct members are appended.
pub proof fn lemma_distinct_concat(
    a: Seq<Seq<Member>>,
    b: Seq<Seq<Member>>,
    placed: Set<int>,
    new: Set<int>,
)
    requires
        all_distinct(a, member_key()),
        all_distinct(b, member_key()),
        forall|g: int, i: int|
            0 <= g < a.len() && 0 <= i < a[g].len() ==> placed.contains(
                (#[trigger] a[g][i]).index as int,
            ),
        forall|g: int, i: int|
            0 <= g < b.len() && 0 <= i < b[g].len() ==> new.contains(
                (#[trigger] b[g][i]).index as int,
            ),
        forall|q: int| new.contains(q) ==> !placed.contains(q),
    ensures
        all_distinct(a + b, member_key()),
        forall|g: int, i: int|
            0 <= g < (a + b).len() && 0 <= i < (a + b)[g].len() ==> placed.union(new).contains(
                (#[trigger] (a + b)[g][i]).index as int,
            ),
{
    let all = a + b;
    assert forall|g: int, i: int| 0 <= g < all.len() && 0 <= i < all[g].len() implies placed.union(
        new,
    ).contains((#[trigger] all[g][i]).index as int) by {
        if g < a.len() {
            assert(all[g] == a[g]);
            assert(placed.contains(a[g][i].index as int));
        } else {
            assert(all[g] == b[g - a.len()]);
            assert(new.contains(b[g - a.len()][i].index as int));
        }
    }
    assert forall|g: int, i: int, h: int, j: int|
        0 <= g < all.len() && 0 <= i < all[g].len() && 0 <= h < all.len() && 0 <= j < all[h].len()
            && (g != h || i != j) implies member_key()(#[trigger] all[g][i]) != member_key()(
        #[trigger] all[h][j],
    ) by {
        if g < a.len() {
            assert(all[g] == a[g]);
            assert(placed.contains(a[g][i].index as int));
        } else {
            assert(all[g] == b[g - a.len()]);
            assert(new.contains(b[g - a.len()][i].index as int));
        }
        if h < a.len() {
            assert(all[h] == a[h]);
            assert(placed.contains(a[h][j].index as int));
        } else {
            assert(all[h] == b[h - a.len()]);
            assert(new.contains(b[h - a.len()][j].index as int));
        }
        if g < a.len() && h < a.len() {
            assert(member_key()(a[g][i]) != member_key()(a[h][j]));
        } else if g >= a.len() && h >= a.len() {
            assert(member_key()(b[g - a.len()][i]) != member_key()(b[h - a.len()][j]));
        }
    }
}

/// The pools of all fronts of `solutions`: every front divided into groups of
/// similar solutions, best front first.
pub fn nsgp_pools<S>(solutions: &[S], multi_objective: &MultiObjective<S, i64>, tolerance: Tolerance) -> (pools:
    Vec<Vec<Member>>)
    ensures
        exists|fronts: Seq<Seq<(usize, &S)>>| #[trigger]
            multi_objective.fronts_for(solutions@, solutions@.len(), fronts) && contents(pools@)
                == multi_objective.pools_upto(fronts, tolerance, fronts.len()),
        forall|g: int| 0 <= g < pools@.len() ==> (#[trigger] pools@[g])@.len() > 0,
        size_upto(contents(pools@), pools@.len()) <= solutions@.len(),
        well_founded(solutions@.len(), multi_objective.dominance_edges(solutions@)) ==> size_upto(
            contents(pools@),
            pools@.len(),
        ) == solutions@.len(),
        all_distinct(contents(pools@), member_key()),
        forall|g: int, i: int|
            0 <= g < pools@.len() && 0 <= i < pools@[g]@.len() ==> (#[trigger] contents(
                pools@,
            )[g][i]).index < solutions@.len(),
{
    let fronts = non_dominated_sort(solutions, multi_objective, solutions.len());
    let ghost total = solutions@.len();
    let ghost edges = multi_objective.dominance_edges(solutions@);
    let ghost fs = pair_lists(fronts@);
    let mut pools: Vec<Vec<Member>> = Vec::new();
    let mut r: usize = 0;
    proof {
        assert(index_views(fronts@) =~= index_lists(fs));
        assert(edges =~= crate::fronts::verdict_edges(
            solutions@.len(),
            |a: int, b: int| multi_objective.verdict(&solutions@[a], &solutions@[b]),
        ));
        assert forall|k: int| 0 <= k < fs.len() implies refers_to(#[trigger] fs[k], solutions@) by {
            assert(refers_to(fronts@[k]@, solutions@));
        }
        assert(multi_objective.fronts_for(solutions@, total, fs));
    }
    while r < fronts.len()
        invariant
            r <= fronts@.len(),
            fs == pair_lists(fronts@),
            is_front_chain(total, edges, index_lists(fs)),
            contents(pools@) == multi_objective.pools_upto(fs, tolerance, r as nat),
            forall|g: int| 0 <= g < pools@.len() ==> (#[trigger] pools@[g])@.len() > 0,
            size_upto(contents(pools@), pools@.len()) == total_upto(index_lists(fs), r as nat),
            all_distinct(contents(pools@), member_key()),
            forall|g: int, i: int|
                0 <= g < contents(pools@).len() && 0 <= i < contents(pools@)[g].len() ==> placed_upto(
                    index_lists(fs),
                    r as nat,
                ).contains((#[trigger] contents(pools@)[g][i]).index as int),
        decreases fronts@.len() - r,
    {
        let front = fronts[r].as_slice();
        let ghost before = contents(pools@);
        proof {
            assert(fs[r as int] == front@);
            assert(index_lists(fs)[r as int] == indices(front@));
            assert(index_lists(fs)[r as int].len() > 0);
            assert(indices(front@).len() == front@.len());
        }
        let (entries, stats) = crowding_entries(front, multi_objective);
        proof {
            assert(stats@ =~= multi_objective.stats_of(front@));
            assert forall|i: int| 0 <= i < entries@.len() implies entry_ok(
                #[trigger] entries@[i],
                front@.len(),
            ) by {}
            assert(front.len() == front@.len());
            lemma_entries_places(*multi_objective, multi_objective.count(), front@);
            let placed = placed_upto(index_lists(fs), r as nat);
            assert(crate::fronts::exact_front(total, edges, placed, indices(front@)));
        }
        let groups = multi_objective.group_entries(front, &entries, &stats, tolerance);
        let mut more = multi_objective.pools_of_front(front, r, &groups);
        let ghost added = contents(more@);
        pools.append(&mut more);
        proof {
            assert(contents(pools@) =~= before + added);
            lemma_size_concat(before, added, added.len());
            let placed = placed_upto(index_lists(fs), r as nat);
            let new = crate::fronts::members(indices(front@));
            assert forall|g: int, i: int|
                0 <= g < added.len() && 0 <= i < added[g].len() implies new.contains(
                (#[trigger] added[g][i]).index as int,
            ) by {}
            lemma_distinct_concat(before, added, placed, new);
        }
        r = r + 1;
    }
    proof {
        lemma_chain_count(total, edges, index_lists(fs), fs.len());
        if well_founded(total, edges) {
            lemma_full_sort_total(total, edges, index_lists(fs));
        }
        crate::fronts::lemma_chain_in_range(total, edges, index_lists(fs));
        assert forall|g: int, i: int| 0 <= g < pools@.len() && 0 <= i < pools@[g]@.len() implies (
        #[trigger] contents(pools@)[g][i]).index < solutions@.len() by {
            let q = contents(pools@)[g][i].index as int;
            assert(contents(pools@)[g] == pools@[g]@);
            assert(placed_upto(index_lists(fs), fs.len()).contains(q));
            crate::fronts::lemma_placed_upto(index_lists(fs), fs.len(), q);
        }
    }
    pools
}

/// Draws a member for every turn of the plan: the first member of the first
/// pool at the first turn, and at every other turn any member of the pool
/// whose turn it is, each with the same chance.
pub fn random_draws(plan: &Vec<Slot>, rng: &mut StdRng) -> (draws: Vec<usize>)
    requires
        forall|t: int| 0 <= t < plan@.len() ==> (#[trigger] plan@[t]).left > 0,
    ensures
        draws_ok(plan@, draws@),
        draws@.len() > 0 ==> draws@[0] == 0,
{
    let mut draws: Vec<usize> = Vec::new();
    let mut t: usize = 0;
    while t < plan.len()
        invariant
            t <= plan@.len(),
            draws@.len() == t,
            forall|s: int| 0 <= s < plan@.len() ==> (#[trigger] plan@[s]).left > 0,
            forall|s: int| 0 <= s < t ==> #[trigger] draws@[s] < plan@[s].left,
            t > 0 ==> draws@[0] == 0,
        decreases plan@.len() - t,
    {
        let at = if t == 0 {
            0
        } else {
            random_index(rng, plan[t].left)
        };
        draws.push(at);
        t = t + 1;
    }
    draws
}

/// The sizes of the pools add up to the size of the whole.
pub proof fn lemma_total_size<T>(pools: Seq<Seq<T>>, k: nat)
    requires
        k <= pools.len(),
        forall|g: int| 0 <= g < pools.len() ==> (#[trigger] pools[g]).len() <= usize::MAX,
    ensures
        total_size(sizes_of(pools), k) == size_upto(pools, k),
    decreases k,
{
    if k > 0 {
        lemma_total_size(pools, (k - 1) as nat);
    }
}

/// What a selection by groups gives for the fronts `fronts` when the members
/// are drawn as `draws` says: `n` members, or all if there are fewer, one
/// from each pool in turn, the first of them the first member of the first
/// pool.
pub open spec fn nsgp_outcome<'a, 'b, S>(
    multi_objective: &MultiObjective<'a, S, i64>,
    fronts: Seq<Seq<(usize, &'b S)>>,
    tolerance: Tolerance,
    n: nat,
    draws: Seq<usize>,
    selected: Seq<Member>,
) -> bool {
    let pools = multi_objective.pools_upto(fronts, tolerance, fronts.len());
    let plan = plan_of(sizes_of(pools), n);
    &&& draws_ok(plan, draws)
    &&& draws.len() > 0 ==> draws[0] == 0
    &&& selected == picks(pools, plan, draws)
    &&& selected.len() > 0 ==> pools.len() > 0 && pools[0].len() > 0 && selected[0] == pools[0][0]
}

/// Selects `n` solutions, or all of them if there are fewer, in the manner of
/// NSGP. The solutions are sorted into Pareto fronts, and every front is
/// divided into groups of similar solutions. Then one solution is taken from
/// each group in turn, front by front and round by round: in the first turn
/// the best solution of the first front under the first objective, and in
/// every other turn any solution that is left of the group, each with the same
/// chance.
pub fn selection_nsgp<S>(
    solutions: &[S],
    n: usize,
    multi_objective: &MultiObjective<S, i64>,
    tolerance: Tolerance,
    rng: &mut StdRng,
) -> (selected: Vec<Member>)
    ensures
        selected@.len() <= n,
        selected@.len() <= solutions@.len(),
        distinct_by(selected@, member_key()),
        forall|t: int| 0 <= t < selected@.len() ==> (#[trigger] selected@[t]).index < solutions@.len(),
        well_founded(solutions@.len(), multi_objective.dominance_edges(solutions@)) ==> selected@.len()
            == capped(n as nat, solutions@.len()),
        exists|fronts: Seq<Seq<(usize, &S)>>, draws: Seq<usize>|
            multi_objective.fronts_for(solutions@, solutions@.len(), fronts) && #[trigger] nsgp_outcome(
                multi_objective,
                fronts,
                tolerance,
                n as nat,
                draws,
                selected@,
            ),
{
    let pools = nsgp_pools(solutions, multi_objective, tolerance);
    let ghost fronts = choose|fronts: Seq<Seq<(usize, &S)>>| #[trigger]
        multi_objective.fronts_for(solutions@, solutions@.len(), fronts) && contents(pools@)
            == multi_objective.pools_upto(fronts, tolerance, fronts.len());
    let ghost held = contents(pools@);
    let ghost pools_before = pools@;
    let sizes = pool_sizes(&pools);
    let plan = round_robin_plan(&sizes, n);
    proof {
        assert forall|g: int| 0 <= g < held.len() implies (#[trigger] held[g]).len()
            <= usize::MAX by {
            assert(pools@[g].len() == held[g].len());
        }
        lemma_total_size(held, held.len());
        assert forall|t: int| 0 <= t < plan@.len() implies (#[trigger] plan@[t]).left > 0 by {}
    }
    let draws = random_draws(&plan, rng);
    let selected = draw_members(pools, &plan, &draws);
    proof {
        if selected@.len() > 0 {
            if held.len() == 0 {
                assert(total_size(sizes@, 0) == 0);
            }
            assert(held[0] == pools@[0]@);
            assert(sizes@[0] == held[0].len());
            lemma_plan_starts(sizes@, n as nat);
        }
        assert(nsgp_outcome(multi_objective, fronts, tolerance, n as nat, draws@, selected@));
        crate::round_robin::lemma_picks_distinct(held, plan@, draws@, member_key());
        assert forall|t: int| 0 <= t < selected@.len() implies (#[trigger] selected@[t]).index
            < solutions@.len() by {
            assert(crate::round_robin::held(held, selected@[t]));
            let (g, i) = choose|g: int, i: int|
                0 <= g < held.len() && 0 <= i < held[g].len() && #[trigger] held[g][i]
                    == selected@[t];
            assert(held[g] == pools_before[g]@);
            assert(held[g][i].index < solutions@.len());
        }
    }
    selected
}

impl<'a, S> MultiObjective<'a, S, i64> {
    /// Objective `m` orders all solutions as a total preorder does: it sees
    /// `b` against `a` as the reverse of `a` against `b`, and where `a` is no
    /// worse than `b` and `b` no worse than `c`, `a` is no worse than `c`.
    pub open spec fn preorders_all(&self, m: int) -> bool {
        &&& forall|a: &S, b: &S| #[trigger]
            self.order_at(m, b, a) == self.order_at(m, a, b).reversed()
        &&& forall|a: &S, b: &S, c: &S|
            #![trigger self.order_at(m, a, b), self.order_at(m, b, c)]
            self.order_at(m, a, b) != Verdict::Greater && self.order_at(m, b, c)
                != Verdict::Greater ==> self.order_at(m, a, c) != Verdict::Greater
    }

    /// The groups of a front in the order in which they are drawn from, each
    /// sorted by the first objective.
    pub open spec fn arranged_groups(&self, front: Seq<(usize, &S)>, tolerance: Tolerance) -> Seq<
        Seq<Entry>,
    > {
        let tidied = self.tidied(front, self.groups_of(front, tolerance));
        arranged_by(tidied, self.group_order(front, tidied))
    }

    /// The first solution of the first group of a front is the best of the
    /// front under the first objective, where that objective orders the
    /// solutions as a total preorder does: no solution of the front is better.
    pub proof fn lemma_elite_is_best(&self, front: Seq<(usize, &S)>, tolerance: Tolerance, p: int)
        requires
            self.count() > 0,
            self.preorders_all(0),
            0 <= p < front.len() <= usize::MAX,
        ensures
            self.arranged_groups(front, tolerance).len() > 0,
            self.arranged_groups(front, tolerance)[0].len() > 0,
            self.arranged_groups(front, tolerance)[0][0].position < front.len(),
            self.order_at(
                0,
                front[self.arranged_groups(front, tolerance)[0][0].position as int].1,
                front[p].1,
            ) != Verdict::Greater,
    {
        let entries = self.entries_after(self.count(), front);
        let like = self.alike(front, self.stats_of(front), tolerance);
        let groups = self.groups_of(front, tolerance);
        let tidied = self.tidied(front, groups);
        let order = self.group_order(front, tidied);
        let arranged = self.arranged_groups(front, tolerance);
        let len = front.len();
        let pred = has_key(place(), p);
        let by_entry = self.comes_after(0, front);
        let by_head = self.heads_after(front, tidied);
        let inside = |e: Entry| entry_ok(e, len);
        let below = |g: usize| g < groups.len();
        // The entries stand for the places of the front, and the groups hold them.
        lemma_entries_places(*self, self.count(), front);
        crate::crowding_distance::lemma_entries_within(*self, self.count(), front);
        assert forall|i: int| 0 <= i < entries.len() implies entry_ok(#[trigger] entries[i], len) by {}
        lemma_grouped(entries, like, len, pred);
        crate::crowding_distance::lemma_entries_every_place(*self, self.count(), front, p);
        // Tidying and ordering the groups keeps what they hold.
        assert forall|g: int| 0 <= g < groups.len() implies count_of(#[trigger] groups[g], pred)
            == count_of(tidied[g], pred) && tidied[g].len() == groups[g].len() && (forall|i: int|
            0 <= i < tidied[g].len() ==> inside(#[trigger] tidied[g][i])) by {
            lemma_sorted_keeps(groups[g], by_entry, pred);
            assert forall|i: int| 0 <= i < groups[g].len() implies inside(#[trigger] groups[g][i]) by {
                assert(entry_ok(groups[g][i], len));
            }
            lemma_sorted_all(groups[g], by_entry, inside);
        }
        lemma_count_in_agree(groups, tidied, pred, pred, groups.len());
        assert forall|k: int| 0 <= k < counting(groups.len()).len() implies below(
            #[trigger] counting(groups.len())[k],
        ) by {}
        lemma_sorted_keeps(counting(groups.len()), by_head, below);
        lemma_sorted_all(counting(groups.len()), by_head, below);
        lemma_sorted_sum(counting(groups.len()), by_head, count_weight(tidied, pred));
        lemma_counting_count(tidied, pred, groups.len());
        lemma_arranged_count(tidied, order, pred, order.len());
        assert(order.take(order.len() as int) =~= order);
        let (k, i) = crate::groups::lemma_count_in_witness(arranged, pred, arranged.len());
        // Groups and the entries of every group are in order.
        self.lemma_orders(front, tidied);
        lemma_sorted_in_order(counting(groups.len()), by_head);
        assert(below(order[0]) && below(order[k]));
        let first = order[0] as int;
        let here = order[k] as int;
        lemma_sorted_in_order(groups[first], by_entry);
        lemma_sorted_in_order(groups[here], by_entry);
        assert(groups[first].len() > 0);
        assert(inside(tidied[first][0]));
        let elite = front[tidied[first][0].position as int].1;
        let head = front[tidied[here][0].position as int].1;
        let found = front[tidied[here][i].position as int].1;
        assert(arranged[k][i] == tidied[here][i]);
        assert(self.order_at(0, elite, head) != Verdict::Greater) by {
            if k > 0 {
                assert(!by_head(order[0], order[k]));
            } else {
                assert(self.order_at(0, elite, elite) == self.order_at(0, elite, elite).reversed());
            }
        }
        assert(self.order_at(0, head, found) != Verdict::Greater) by {
            if i > 0 {
                assert(!by_entry(tidied[here][0], tidied[here][i]));
            } else {
                assert(self.order_at(0, head, head) == self.order_at(0, head, head).reversed());
            }
        }
        assert(self.order_at(0, elite, found) != Verdict::Greater);
    }

    /// Where the first objective orders the solutions as a total preorder
    /// does, the orders of entries and of groups under it are the strict
    /// parts of total preorders.
    pub proof fn lemma_orders(&self, front: Seq<(usize, &S)>, groups: Seq<Seq<Entry>>)
        requires
            self.preorders_all(0),
        ensures
            asymmetric(self.comes_after(0, front)),
            negatively_transitive(self.comes_after(0, front)),
            asymmetric(self.heads_after(front, groups)),
            negatively_transitive(self.heads_after(front, groups)),
    {
        let by_entry = self.comes_after(0, front);
        let by_head = self.heads_after(front, groups);
        assert forall|a: Entry, b: Entry| #[trigger] by_entry(a, b) implies !by_entry(b, a) by {
            let x = front[a.position as int].1;
            let y = front[b.position as int].1;
            assert(self.order_at(0, y, x) == self.order_at(0, x, y).reversed());
        }
        assert forall|a: Entry, b: Entry, c: Entry|
            #![trigger by_entry(a, b), by_entry(b, c)]
            !by_entry(a, b) && !by_entry(b, c) implies !by_entry(a, c) by {
            let x = front[a.position as int].1;
            let y = front[b.position as int].1;
            let z = front[c.position as int].1;
            assert(self.order_at(0, x, y) != Verdict::Greater);
            assert(self.order_at(0, y, z) != Verdict::Greater);
        }
        assert forall|a: usize, b: usize| #[trigger] by_head(a, b) implies !by_head(b, a) by {
            let x = front[groups[a as int][0].position as int].1;
            let y = front[groups[b as int][0].position as int].1;
            assert(self.order_at(0, y, x) == self.order_at(0, x, y).reversed());
        }
        assert forall|a: usize, b: usize, c: usize|
            #![trigger by_head(a, b), by_head(b, c)]
            !by_head(a, b) && !by_head(b, c) implies !by_head(a, c) by {
            let x = front[groups[a as int][0].position as int].1;
            let y = front[groups[b as int][0].position as int].1;
            let z = front[groups[c as int][0].position as int].1;
            assert(self.order_at(0, x, y) != Verdict::Greater);
            assert(self.order_at(0, y, z) != Verdict::Greater);
        }
    }
}

impl<'a, S> MultiObjective<'a, S, i64> {
    /// The pools of the fronts begin with the pools of the first front.
    pub proof fn lemma_pools_start<'b>(&self, fronts: Seq<Seq<(usize, &'b S)>>, tolerance: Tolerance, r: nat)
        requires
            1 <= r <= fronts.len(),
        ensures
            self.pools_upto(fronts, tolerance, r).len() >= self.groups_of(fronts[0], tolerance).len(),
            forall|k: int|
                0 <= k < self.groups_of(fronts[0], tolerance).len() ==> #[trigger] self.pools_upto(
                    fronts,
                    tolerance,
                    r,
                )[k] == self.front_pools(fronts[0], 0, self.groups_of(fronts[0], tolerance))[k],
        decreases r,
    {
        let first = self.front_pools(fronts[0], 0, self.groups_of(fronts[0], tolerance));
        if r == 1 {
            assert(self.pools_upto(fronts, tolerance, 0) =~= Seq::<Seq<Member>>::empty());
            assert(self.pools_upto(fronts, tolerance, 1) =~= first);
        } else {
            self.lemma_pools_start(fronts, tolerance, (r - 1) as nat);
        }
    }

    /// Elitism: the first solution that a selection by groups takes is of the
    /// first front, and no solution of that front is better under the first
    /// objective, where that objective orders the solutions as a total
    /// preorder does.
    pub proof fn lemma_elitism<'b>(
        &self,
        solutions: Seq<S>,
        fronts: Seq<Seq<(usize, &'b S)>>,
        tolerance: Tolerance,
        n: nat,
        draws: Seq<usize>,
        selected: Seq<Member>,
        p: int,
    )
        requires
            self.count() > 0,
            self.preorders_all(0),
            self.fronts_for(solutions, solutions.len(), fronts),
            nsgp_outcome(self, fronts, tolerance, n, draws, selected),
            selected.len() > 0,
            solutions.len() <= usize::MAX,
            fronts.len() > 0,
            0 <= p < fronts[0].len(),
        ensures
            selected[0].rank == 0,
            selected[0].index < solutions.len(),
            fronts[0][p].0 < solutions.len(),
            self.order_at(0, &solutions[selected[0].index as int], &solutions[fronts[0][p].0 as int])
                != Verdict::Greater,
    {
        let front = fronts[0];
        let groups = self.groups_of(front, tolerance);
        let arranged = self.arranged_groups(front, tolerance);
        let pools = self.pools_upto(fronts, tolerance, fronts.len());
        assert(refers_to(front, solutions));
        assert(indices(front).len() == front.len());
        assert(index_lists(fronts)[0] == indices(front));
        crate::fronts::lemma_chain_in_range(
            solutions.len(),
            self.dominance_edges(solutions),
            index_lists(fronts),
        );
        assert(crate::fronts::exact_front(
            solutions.len(),
            self.dominance_edges(solutions),
            placed_upto(index_lists(fronts), 0),
            indices(front),
        ));
        crate::fronts::lemma_front_size(solutions.len(), indices(front));
        self.lemma_elite_is_best(front, tolerance, p);
        self.lemma_pools_start(fronts, tolerance, fronts.len());
        let tidied = self.tidied(front, groups);
        let order = self.group_order(front, tidied);
        lemma_sorted_keeps(counting(tidied.len()), self.heads_after(front, tidied), |g: usize| true);
        assert(groups.len() > 0);
        assert(pools[0] == self.front_pools(front, 0, groups)[0]);
        assert(selected[0] == pools[0][0]);
        let elite = arranged[0][0];
        assert(pools[0][0].index == front[elite.position as int].0);
        assert(*front[elite.position as int].1 == solutions[front[elite.position as int].0 as int]);
        assert(*front[p].1 == solutions[front[p].0 as int]);
    }
}

} // verus!
