//! The order in which pools are drawn from, one member from each pool in
//! turn.
//!
//! In round `r` every pool that holds more than `r` members gives one, the
//! pools taking their turn in order. The plan lists, for every member to be
//! drawn, the pool that gives it and the number of members that the pool
//! holds at that moment.

use crate::groups::{all_distinct, contents};
use crate::stable_sort::distinct_by;
use vstd::prelude::*;

verus! {

/// One turn: the pool that gives a member, and how many members it holds at
/// that moment.
#[derive(Clone, Copy, Debug, PartialEq, Eq, Structural)]
pub struct Slot {
    pub pool: usize,
    pub left: usize,
}

/// The turns of round `r` from pool `g` on, as far as there is room.
pub open spec fn round_slots(sizes: Seq<usize>, r: nat, g: nat, room: nat) -> Seq<Slot>
    decreases sizes.len() - g,
{
    if g >= sizes.len() || room == 0 {
        Seq::empty()
    } else if sizes[g as int] > r {
        seq![Slot { pool: g as usize, left: (sizes[g as int] - r) as usize }] + round_slots(
            sizes,
            r,
            g + 1,
            (room - 1) as nat,
        )
    } else {
        round_slots(sizes, r, g + 1, room)
    }
}

/// The turns from round `r` on, as far as there is room and as long as some
/// pool holds a member.
pub open spec fn rounds(sizes: Seq<usize>, r: nat, room: nat) -> Seq<Slot>
    decreases room,
{
    let first = round_slots(sizes, r, 0, room);
    if room == 0 || first.len() == 0 || first.len() > room {
        Seq::empty()
    } else {
        first + rounds(sizes, r + 1, (room - first.len()) as nat)
    }
}

/// The plan for drawing `cap` members, or all if there are fewer, from pools
/// of the sizes `sizes`.
pub open spec fn plan_of(sizes: Seq<usize>, cap: nat) -> Seq<Slot> {
    rounds(sizes, 0, cap)
}

/// The number of members that pool `g` holds after the first `t` turns of
/// the plan.
pub open spec fn left_in(sizes: Seq<usize>, plan: Seq<Slot>, t: nat, g: int) -> int
    decreases t,
{
    if t == 0 {
        sizes[g] as int
    } else {
        left_in(sizes, plan, (t - 1) as nat, g) - if plan[t - 1].pool == g {
            1int
        } else {
            0int
        }
    }
}

/// The number of members in the first `k` pools.
pub open spec fn total_size(sizes: Seq<usize>, k: nat) -> nat
    decreases k,
{
    if k == 0 {
        0
    } else {
        total_size(sizes, (k - 1) as nat) + sizes[k - 1] as nat
    }
}

/// The sum of the first `k` numbers.
pub open spec fn sum_upto(numbers: Seq<nat>, k: nat) -> nat
    decreases k,
{
    if k == 0 {
        0
    } else {
        sum_upto(numbers, (k - 1) as nat) + numbers[k - 1]
    }
}

/// The plan is sound: every turn names a pool, and says how many members the
/// pool holds at that moment, which is at least one.
pub open spec fn plan_ok(sizes: Seq<usize>, plan: Seq<Slot>) -> bool {
    forall|t: int|
        0 <= t < plan.len() ==> (#[trigger] plan[t]).pool < sizes.len() && 0 < plan[t].left
            == left_in(sizes, plan, t as nat, plan[t].pool as int)
}

/// The number of members to draw: `cap`, or all if there are fewer.
pub open spec fn draws_needed(sizes: Seq<usize>, cap: nat) -> nat {
    if cap <= total_size(sizes, sizes.len()) {
        cap
    } else {
        total_size(sizes, sizes.len())
    }
}

/// What a pool holds after some turns does not depend on later turns.
pub proof fn lemma_left_prefix(sizes: Seq<usize>, plan: Seq<Slot>, slot: Slot, t: nat, g: int)
    requires
        t <= plan.len(),
    ensures
        left_in(sizes, plan.push(slot), t, g) == left_in(sizes, plan, t, g),
    decreases t,
{
    if t > 0 {
        lemma_left_prefix(sizes, plan, slot, (t - 1) as nat, g);
        assert(plan.push(slot)[t - 1] == plan[t - 1]);
    }
}

/// Raising one number by one raises the sum by one.
pub proof fn lemma_sum_update(numbers: Seq<nat>, g: int, k: nat)
    requires
        0 <= g < numbers.len(),
        k <= numbers.len(),
    ensures
        sum_upto(numbers.update(g, numbers[g] + 1), k) == sum_upto(numbers, k) + if g < k {
            1nat
        } else {
            0nat
        },
    decreases k,
{
    if k > 0 {
        lemma_sum_update(numbers, g, (k - 1) as nat);
    }
}

/// Numbers that are the sizes of the pools add up to the size of all pools,
/// and numbers that are no larger add up to no more.
pub proof fn lemma_sum_sizes(numbers: Seq<nat>, sizes: Seq<usize>, k: nat)
    requires
        k <= numbers.len(),
        k <= sizes.len(),
        forall|g: int| 0 <= g < k ==> #[trigger] numbers[g] <= sizes[g],
    ensures
        sum_upto(numbers, k) <= total_size(sizes, k),
        (forall|g: int| 0 <= g < k ==> #[trigger] numbers[g] == sizes[g]) ==> sum_upto(numbers, k)
            == total_size(sizes, k),
    decreases k,
{
    if k > 0 {
        lemma_sum_sizes(numbers, sizes, (k - 1) as nat);
    }
}

/// The number of members that pool `g` has given by round `r`, when the pools
/// before `cursor` have had their turn in that round.
pub open spec fn given(sizes: Seq<usize>, r: nat, cursor: nat, g: int) -> nat {
    let turns = if g < cursor {
        r + 1
    } else {
        r
    };
    if sizes[g] <= turns {
        sizes[g] as nat
    } else {
        turns
    }
}

/// Makes the plan for drawing `cap` members, or all if there are fewer, from
/// pools of the sizes `sizes`.
pub fn round_robin_plan(sizes: &Vec<usize>, cap: usize) -> (plan: Vec<Slot>)
    ensures
        plan@ == plan_of(sizes@, cap as nat),
        plan@.len() == draws_needed(sizes@, cap as nat),
        plan_ok(sizes@, plan@),
        forall|g: int| 0 <= g < sizes@.len() ==> left_in(sizes@, plan@, plan@.len(), g) >= 0,
{
    let n = sizes.len();
    let mut plan: Vec<Slot> = Vec::new();
    let mut r: usize = 0;
    let mut running = true;
    let ghost mut taken: Seq<nat> = Seq::new(n as nat, |g: int| 0nat);
    proof {
        assert forall|g: int| 0 <= g < n implies #[trigger] taken[g] == given(sizes@, 0, 0, g) by {}
        lemma_sum_zero(taken, n as nat);
    }
    while running
        invariant
            n == sizes@.len(),
            plan@.len() <= cap,
            taken.len() == n,
            running ==> forall|g: int| 0 <= g < n ==> #[trigger] taken[g] == given(sizes@, r as nat, 0, g),
            forall|g: int| 0 <= g < n ==> #[trigger] taken[g] <= sizes@[g],
            forall|g: int|
                0 <= g < n ==> left_in(sizes@, plan@, plan@.len(), g) == sizes@[g] - #[trigger] taken[g],
            sum_upto(taken, n as nat) == plan@.len(),
            plan_ok(sizes@, plan@),
            running ==> r <= plan@.len(),
            running ==> plan_of(sizes@, cap as nat) == plan@ + rounds(
                sizes@,
                r as nat,
                (cap - plan@.len()) as nat,
            ),
            !running ==> plan@ == plan_of(sizes@, cap as nat),
            !running ==> plan@.len() == draws_needed(sizes@, cap as nat),
        decreases
                if running {
                    cap - plan@.len() + 1
                } else {
                    0
                },
    {
        let ghost before = plan@;
        let ghost room = (cap - plan@.len()) as nat;
        let mut g: usize = 0;
        let mut added = false;
        proof {
            assert(before + Seq::<Slot>::empty() =~= before);
        }
        while g < n && plan.len() < cap
            invariant
                g <= n,
                n == sizes@.len(),
                before.len() <= plan@.len() <= cap,
                room == cap - before.len(),
                r <= before.len(),
                taken.len() == n,
                forall|t: int| 0 <= t < n ==> #[trigger] taken[t] == given(sizes@, r as nat, g as nat, t),
                forall|t: int|
                    0 <= t < n ==> left_in(sizes@, plan@, plan@.len(), t) == sizes@[t] - #[trigger] taken[t],
                sum_upto(taken, n as nat) == plan@.len(),
                plan_ok(sizes@, plan@),
                added == (plan@.len() > before.len()),
                !added ==> forall|t: int| 0 <= t < g ==> #[trigger] sizes@[t] <= r,
                round_slots(sizes@, r as nat, 0, room) == plan@.subrange(
                    before.len() as int,
                    plan@.len() as int,
                ) + round_slots(sizes@, r as nat, g as nat, (cap - plan@.len()) as nat),
                plan@.subrange(0, before.len() as int) == before,
            decreases n - g,
        {
            if sizes[g] > r {
                let slot = Slot { pool: g, left: sizes[g] - r };
                let ghost old_plan = plan@;
                let ghost old_taken = taken;
                proof {
                    assert(taken[g as int] == r);
                    assert(left_in(sizes@, old_plan, old_plan.len(), g as int) == sizes@[g as int] - r);
                }
                plan.push(slot);
                proof {
                    taken = old_taken.update(g as int, old_taken[g as int] + 1);
                    lemma_sum_update(old_taken, g as int, n as nat);
                    assert forall|t: int| 0 <= t < n implies left_in(
                        sizes@,
                        plan@,
                        plan@.len(),
                        t,
                    ) == sizes@[t] - #[trigger] taken[t] by {
                        lemma_left_prefix(sizes@, old_plan, slot, old_plan.len(), t);
                        assert(plan@[old_plan.len() as int] == slot);
                    }
                    assert forall|t: int| 0 <= t < plan@.len() implies (#[trigger] plan@[t]).pool
                        < sizes@.len() && 0 < plan@[t].left == left_in(
                        sizes@,
                        plan@,
                        t as nat,
                        plan@[t].pool as int,
                    ) by {
                        lemma_left_prefix(sizes@, old_plan, slot, t as nat, plan@[t].pool as int);
                        if t < old_plan.len() {
                            assert(plan@[t] == old_plan[t]);
                        }
                    }
                    assert(plan@.subrange(before.len() as int, plan@.len() as int)
                        =~= old_plan.subrange(before.len() as int, old_plan.len() as int).push(
                        slot,
                    ));
                    assert(old_plan.subrange(before.len() as int, old_plan.len() as int).push(slot)
                        + round_slots(
                        sizes@,
                        r as nat,
                        (g + 1) as nat,
                        (cap - plan@.len()) as nat,
                    ) =~= old_plan.subrange(before.len() as int, old_plan.len() as int) + (seq![slot]
                        + round_slots(
                        sizes@,
                        r as nat,
                        (g + 1) as nat,
                        (cap - plan@.len()) as nat,
                    )));
                    assert(plan@.subrange(0, before.len() as int) =~= before);
                }
                added = true;
            }
            g = g + 1;
        }
        proof {
            let first = round_slots(sizes@, r as nat, 0, room);
            let this_round = plan@.subrange(before.len() as int, plan@.len() as int);
            lemma_round_ends(sizes@, r as nat, g as nat, (cap - plan@.len()) as nat);
            assert(first =~= this_round);
            assert(plan@ =~= before + this_round);
            assert forall|t: int| 0 <= t < n implies #[trigger] taken[t] <= sizes@[t] by {}
        }
        if !added {
            proof {
                // No pool holds a member any more, or there is no room.
                if plan@.len() < cap {
                    assert forall|t: int| 0 <= t < n implies #[trigger] taken[t] == sizes@[t] by {
                        assert(sizes@[t] <= r);
                    }
                }
                lemma_sum_sizes(taken, sizes@, n as nat);
                assert(before + Seq::<Slot>::empty() =~= before);
            }
            running = false;
        } else if plan.len() >= cap {
            proof {
                lemma_sum_sizes(taken, sizes@, n as nat);
                let first = round_slots(sizes@, r as nat, 0, room);
                assert(rounds(sizes@, (r + 1) as nat, 0) =~= Seq::<Slot>::empty());
                assert(first + Seq::<Slot>::empty() =~= first);
            }
            running = false;
        } else {
            proof {
                let first = round_slots(sizes@, r as nat, 0, room);
                assert(before + (first + rounds(
                    sizes@,
                    (r + 1) as nat,
                    (room - first.len()) as nat,
                )) =~= plan@ + rounds(sizes@, (r + 1) as nat, (cap - plan@.len()) as nat));
                assert forall|t: int| 0 <= t < n implies #[trigger] taken[t] == given(
                    sizes@,
                    (r + 1) as nat,
                    0,
                    t,
                ) by {}
            }
            r = r + 1;
        }
    }
    proof {
        assert forall|g: int| 0 <= g < sizes@.len() implies left_in(
            sizes@,
            plan@,
            plan@.len(),
            g,
        ) >= 0 by {
            assert(taken[g] <= sizes@[g]);
        }
    }
    plan
}

/// The sizes of the pools.
pub open spec fn sizes_of<T>(pools: Seq<Seq<T>>) -> Seq<usize> {
    Seq::new(pools.len(), |g: int| pools[g].len() as usize)
}

/// The pools after the first `t` turns: at every turn the pool whose turn it
/// is has lost the member that was drawn.
pub open spec fn pools_after<T>(pools: Seq<Seq<T>>, plan: Seq<Slot>, draws: Seq<usize>, t: nat) -> Seq<
    Seq<T>,
>
    decreases t,
{
    if t == 0 {
        pools
    } else {
        let before = pools_after(pools, plan, draws, (t - 1) as nat);
        let g = plan[t - 1].pool as int;
        before.update(g, before[g].remove(draws[t - 1] as int))
    }
}

/// The member drawn at turn `t`.
pub open spec fn pick<T>(pools: Seq<Seq<T>>, plan: Seq<Slot>, draws: Seq<usize>, t: int) -> T {
    pools_after(pools, plan, draws, t as nat)[plan[t].pool as int][draws[t] as int]
}

/// The members drawn, in the order of the turns.
pub open spec fn picks<T>(pools: Seq<Seq<T>>, plan: Seq<Slot>, draws: Seq<usize>) -> Seq<T> {
    Seq::new(plan.len(), |t: int| pick(pools, plan, draws, t))
}

/// Every draw names a member of the pool whose turn it is.
pub open spec fn draws_ok(plan: Seq<Slot>, draws: Seq<usize>) -> bool {
    &&& draws.len() == plan.len()
    &&& forall|t: int| 0 <= t < plan.len() ==> #[trigger] draws[t] < plan[t].left
}

/// Returns the sizes of the pools.
pub fn pool_sizes<T>(pools: &Vec<Vec<T>>) -> (sizes: Vec<usize>)
    ensures
        sizes@ == sizes_of(contents(pools@)),
{
    let mut sizes: Vec<usize> = Vec::new();
    let mut g: usize = 0;
    while g < pools.len()
        invariant
            g <= pools@.len(),
            sizes@.len() == g,
            forall|t: int| 0 <= t < g ==> #[trigger] sizes@[t] == pools@[t]@.len(),
        decreases pools@.len() - g,
    {
        sizes.push(pools[g].len());
        g = g + 1;
    }
    proof {
        assert(sizes@ =~= sizes_of(contents(pools@)));
    }
    sizes
}

/// Draws the members that the plan and the draws name: at every turn the
/// member at the place drawn leaves the pool whose turn it is.
pub fn draw_members<T>(pools: Vec<Vec<T>>, plan: &Vec<Slot>, draws: &Vec<usize>) -> (drawn: Vec<T>)
    requires
        plan_ok(sizes_of(contents(pools@)), plan@),
        draws_ok(plan@, draws@),
    ensures
        drawn@ == picks(contents(pools@), plan@, draws@),
        drawn@.len() == plan@.len(),
{
    let ghost start = contents(pools@);
    let ghost sizes = sizes_of(start);
    let mut pools = pools;
    let mut drawn: Vec<T> = Vec::new();
    let mut t: usize = 0;
    proof {
        assert forall|g: int| 0 <= g < pools@.len() implies (#[trigger] pools@[g])@.len() == left_in(
            sizes,
            plan@,
            0,
            g,
        ) by {
            assert(pools@[g].len() == pools@[g]@.len());
            assert(start[g] == pools@[g]@);
        }
    }
    while t < plan.len()
        invariant
            t <= plan@.len(),
            sizes == sizes_of(start),
            plan_ok(sizes, plan@),
            draws_ok(plan@, draws@),
            pools@.len() == start.len(),
            contents(pools@) == pools_after(start, plan@, draws@, t as nat),
            forall|g: int|
                0 <= g < pools@.len() ==> (#[trigger] pools@[g])@.len() == left_in(
                    sizes,
                    plan@,
                    t as nat,
                    g,
                ),
            drawn@.len() == t,
            forall|s: int| 0 <= s < t ==> #[trigger] drawn@[s] == pick(start, plan@, draws@, s),
        decreases plan@.len() - t,
    {
        let slot = plan[t];
        let at = draws[t];
        let ghost before = contents(pools@);
        proof {
            assert(plan@[t as int].pool < sizes.len());
            assert(pools@[slot.pool as int]@.len() == left_in(sizes, plan@, t as nat, slot.pool as int));
            assert(before[slot.pool as int] == pools@[slot.pool as int]@);
        }
        let member = pools[slot.pool].remove(at);
        drawn.push(member);
        proof {
            assert(contents(pools@) =~= before.update(
                slot.pool as int,
                before[slot.pool as int].remove(at as int),
            ));
            assert forall|g: int| 0 <= g < pools@.len() implies (#[trigger] pools@[g])@.len()
                == left_in(sizes, plan@, (t + 1) as nat, g) by {
                assert(contents(pools@)[g] == pools@[g]@);
                if g != slot.pool {
                    assert(before[g] == contents(pools@)[g]);
                }
            }
        }
        t = t + 1;
    }
    proof {
        assert(drawn@ =~= picks(start, plan@, draws@));
    }
    drawn
}

/// One of the pools holds `x`.
pub open spec fn held<T>(pools: Seq<Seq<T>>, x: T) -> bool {
    exists|g: int, i: int| 0 <= g < pools.len() && 0 <= i < pools[g].len() && #[trigger] pools[g][i] == x
}

/// What holds after `t` turns of drawing from pools whose members have
/// distinct keys: every pool holds what the plan says, the members left and
/// the members drawn still have distinct keys, and no member drawn is left in
/// a pool.
pub open spec fn drawn_apart<T>(
    pools: Seq<Seq<T>>,
    plan: Seq<Slot>,
    draws: Seq<usize>,
    key: spec_fn(T) -> int,
    t: nat,
) -> bool {
    let now = pools_after(pools, plan, draws, t);
    &&& now.len() == pools.len()
    &&& forall|g: int|
        0 <= g < now.len() ==> (#[trigger] now[g]).len() == left_in(sizes_of(pools), plan, t, g)
    &&& all_distinct(now, key)
    &&& forall|s: int, u: int|
        0 <= s < u < t ==> key(#[trigger] pick(pools, plan, draws, s)) != key(
            #[trigger] pick(pools, plan, draws, u),
        )
    &&& forall|s: int, g: int, i: int|
        0 <= s < t && 0 <= g < now.len() && 0 <= i < now[g].len() ==> key(
            #[trigger] pick(pools, plan, draws, s),
        ) != key(#[trigger] now[g][i])
    &&& forall|g: int, i: int|
        0 <= g < now.len() && 0 <= i < now[g].len() ==> held(pools, #[trigger] now[g][i])
}

/// Drawing from pools whose members have distinct keys keeps the keys apart,
/// turn after turn.
pub proof fn lemma_drawn_apart<T>(
    pools: Seq<Seq<T>>,
    plan: Seq<Slot>,
    draws: Seq<usize>,
    key: spec_fn(T) -> int,
    t: nat,
)
    requires
        plan_ok(sizes_of(pools), plan),
        draws_ok(plan, draws),
        all_distinct(pools, key),
        forall|g: int| 0 <= g < pools.len() ==> (#[trigger] pools[g]).len() <= usize::MAX,
        t <= plan.len(),
    ensures
        drawn_apart(pools, plan, draws, key, t),
    decreases t,
{
    if t > 0 {
        lemma_drawn_apart(pools, plan, draws, key, (t - 1) as nat);
        let before = pools_after(pools, plan, draws, (t - 1) as nat);
        let now = pools_after(pools, plan, draws, t);
        let g0 = plan[t - 1].pool as int;
        let at = draws[t - 1] as int;
        let last = pick(pools, plan, draws, t - 1);
        assert(0 <= g0 < before.len());
        assert(before[g0].len() == left_in(sizes_of(pools), plan, (t - 1) as nat, g0));
        assert(0 <= at < before[g0].len());
        assert(last == before[g0][at]);
        assert(now == before.update(g0, before[g0].remove(at)));
        // Every member that is left was there before: at the same place, or
        // one place further on in the pool that gave a member.
        assert forall|g: int, i: int| 0 <= g < now.len() && 0 <= i < now[g].len() implies #[trigger] now[g][i]
            == before[g][if g == g0 && i >= at {
            i + 1
        } else {
            i
        }] by {}
        assert forall|g: int| 0 <= g < now.len() implies (#[trigger] now[g]).len() == left_in(
            sizes_of(pools),
            plan,
            t,
            g,
        ) by {
            assert(before[g].len() == left_in(sizes_of(pools), plan, (t - 1) as nat, g));
        }
        assert forall|g: int, i: int, h: int, j: int|
            0 <= g < now.len() && 0 <= i < now[g].len() && 0 <= h < now.len() && 0 <= j
                < now[h].len() && (g != h || i != j) implies key(#[trigger] now[g][i]) != key(
            #[trigger] now[h][j],
        ) by {
            let i0 = if g == g0 && i >= at {
                i + 1
            } else {
                i
            };
            let j0 = if h == g0 && j >= at {
                j + 1
            } else {
                j
            };
            assert(now[g][i] == before[g][i0]);
            assert(now[h][j] == before[h][j0]);
            assert(key(before[g][i0]) != key(before[h][j0]));
        }
        assert forall|s: int, u: int| 0 <= s < u < t implies key(
            #[trigger] pick(pools, plan, draws, s),
        ) != key(#[trigger] pick(pools, plan, draws, u)) by {
            if u == t - 1 {
                assert(key(pick(pools, plan, draws, s)) != key(before[g0][at]));
            }
        }
        assert forall|g: int, i: int| 0 <= g < now.len() && 0 <= i < now[g].len() implies held(
            pools,
            #[trigger] now[g][i],
        ) by {
            let i0 = if g == g0 && i >= at {
                i + 1
            } else {
                i
            };
            assert(now[g][i] == before[g][i0]);
            assert(held(pools, before[g][i0]));
        }
        assert forall|s: int, g: int, i: int|
            0 <= s < t && 0 <= g < now.len() && 0 <= i < now[g].len() implies key(
            #[trigger] pick(pools, plan, draws, s),
        ) != key(#[trigger] now[g][i]) by {
            let i0 = if g == g0 && i >= at {
                i + 1
            } else {
                i
            };
            assert(now[g][i] == before[g][i0]);
            if s == t - 1 {
                assert(key(before[g0][at]) != key(before[g][i0]));
            } else {
                assert(key(pick(pools, plan, draws, s)) != key(before[g][i0]));
            }
        }
    } else {
        assert forall|g: int| 0 <= g < pools.len() implies (#[trigger] pools[g]).len() == left_in(
            sizes_of(pools),
            plan,
            0,
            g,
        ) by {}
        assert forall|g: int, i: int| 0 <= g < pools.len() && 0 <= i < pools[g].len() implies held(
            pools,
            #[trigger] pools[g][i],
        ) by {}
    }
}

/// The members drawn from pools whose members have distinct keys have
/// distinct keys, and each of them is a member of one of the pools.
pub proof fn lemma_picks_distinct<T>(
    pools: Seq<Seq<T>>,
    plan: Seq<Slot>,
    draws: Seq<usize>,
    key: spec_fn(T) -> int,
)
    requires
        plan_ok(sizes_of(pools), plan),
        draws_ok(plan, draws),
        all_distinct(pools, key),
        forall|g: int| 0 <= g < pools.len() ==> (#[trigger] pools[g]).len() <= usize::MAX,
    ensures
        distinct_by(picks(pools, plan, draws), key),
        forall|t: int|
            0 <= t < plan.len() ==> held(pools, #[trigger] picks(pools, plan, draws)[t]),
{
    lemma_drawn_apart(pools, plan, draws, key, plan.len());
    let drawn = picks(pools, plan, draws);
    assert forall|t: int| 0 <= t < plan.len() implies held(pools, #[trigger] drawn[t]) by {
        lemma_drawn_apart(pools, plan, draws, key, t as nat);
        let now = pools_after(pools, plan, draws, t as nat);
        let g = plan[t].pool as int;
        assert(now[g].len() == left_in(sizes_of(pools), plan, t as nat, g));
        assert(held(pools, now[g][draws[t] as int]));
    }
    assert forall|s: int, u: int| 0 <= s < u < drawn.len() implies key(#[trigger] drawn[s]) != key(
        #[trigger] drawn[u],
    ) by {
        assert(key(pick(pools, plan, draws, s)) != key(pick(pools, plan, draws, u)));
    }
}

/// The first turn is that of the first pool, if it holds a member.
pub proof fn lemma_plan_starts(sizes: Seq<usize>, cap: nat)
    requires
        cap > 0,
        sizes.len() > 0,
        sizes[0] > 0,
    ensures
        plan_of(sizes, cap).len() > 0,
        plan_of(sizes, cap)[0].pool == 0,
{
    let first = round_slots(sizes, 0, 0, cap);
    let rest = round_slots(sizes, 0, 1, (cap - 1) as nat);
    assert(first == seq![Slot { pool: 0usize, left: sizes[0] }] + rest);
    assert(first.len() == 1 + rest.len());
    lemma_round_fits(sizes, 0, 0, cap);
    assert(first[0].pool == 0);
}

/// A round has no more turns than there is room.
pub proof fn lemma_round_fits(sizes: Seq<usize>, r: nat, g: nat, room: nat)
    ensures
        round_slots(sizes, r, g, room).len() <= room,
    decreases sizes.len() - g,
{
    if g >= sizes.len() || room == 0 {
    } else if sizes[g as int] > r {
        lemma_round_fits(sizes, r, g + 1, (room - 1) as nat);
    } else {
        lemma_round_fits(sizes, r, g + 1, room);
    }
}

/// Numbers that are all zero add up to zero.
pub proof fn lemma_sum_zero(numbers: Seq<nat>, k: nat)
    requires
        k <= numbers.len(),
        forall|g: int| 0 <= g < numbers.len() ==> #[trigger] numbers[g] == 0,
    ensures
        sum_upto(numbers, k) == 0,
    decreases k,
{
    if k > 0 {
        lemma_sum_zero(numbers, (k - 1) as nat);
    }
}

/// A round has no more turns once every pool has had its turn or the room is
/// used up.
pub proof fn lemma_round_ends(sizes: Seq<usize>, r: nat, g: nat, room: nat)
    requires
        g >= sizes.len() || room == 0,
    ensures
        round_slots(sizes, r, g, room) == Seq::<Slot>::empty(),
{
}

} // verus!
