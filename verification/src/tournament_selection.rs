//! Tournament selection: the best of `k` candidates drawn at random.

use crate::random::random_index;
use rand::StdRng;
use vstd::prelude::*;

verus! {

/// `winner` is who stays after `challenger` has met `best`: the challenger if
/// it was judged better, else `best`.
pub open spec fn stays<F: Fn(usize, usize) -> bool>(
    better_than: F,
    challenger: usize,
    best: usize,
    winner: usize,
) -> bool {
    ||| call_ensures(better_than, (challenger, best), true) && winner == challenger
    ||| call_ensures(better_than, (challenger, best), false) && winner == best
}

/// `held` lists who is the best so far after each candidate of `draws` has
/// entered: the first candidate at first, and then whoever stays when the next
/// candidate meets the best so far.
pub open spec fn course<F: Fn(usize, usize) -> bool>(
    better_than: F,
    draws: Seq<usize>,
    held: Seq<usize>,
) -> bool {
    &&& draws.len() > 0
    &&& held.len() == draws.len()
    &&& held[0] == draws[0]
    &&& forall|i: int|
        1 <= i < draws.len() ==> stays(better_than, draws[i], held[i - 1], #[trigger] held[i])
}

/// `winner` wins the tournament of the candidates `draws`, who enter in that
/// order: it is the best so far when the last candidate has entered.
pub open spec fn wins<F: Fn(usize, usize) -> bool>(better_than: F, draws: Seq<usize>, winner: usize) -> bool {
    exists|held: Seq<usize>| #[trigger]
        course(better_than, draws, held) && held[held.len() - 1] == winner
}

/// The winner of the tournament of the candidates `draws` when `better` says
/// who is better than whom.
pub open spec fn champion(better: spec_fn(usize, usize) -> bool, draws: Seq<usize>) -> usize
    decreases draws.len(),
{
    if draws.len() <= 1 {
        draws[0]
    } else {
        let best = champion(better, draws.drop_last());
        if better(draws.last(), best) {
            draws.last()
        } else {
            best
        }
    }
}

/// `better_than` answers what `better` says, on the candidates below `n`.
pub open spec fn answers_as<F: Fn(usize, usize) -> bool>(
    better_than: F,
    better: spec_fn(usize, usize) -> bool,
    n: usize,
) -> bool {
    forall|a: usize, b: usize, r: bool|
        a < n && b < n && #[trigger] call_ensures(better_than, (a, b), r) ==> r == better(a, b)
}

/// Where the judge answers what `better` says, the winner of a tournament is
/// its champion under `better`.
pub proof fn lemma_wins_champion<F: Fn(usize, usize) -> bool>(
    better_than: F,
    better: spec_fn(usize, usize) -> bool,
    n: usize,
    draws: Seq<usize>,
    winner: usize,
)
    requires
        wins(better_than, draws, winner),
        answers_as(better_than, better, n),
        forall|t: int| 0 <= t < draws.len() ==> draws[t] < n,
    ensures
        winner == champion(better, draws),
{
    let held = choose|held: Seq<usize>| #[trigger]
        course(better_than, draws, held) && held[held.len() - 1] == winner;
    lemma_course_champion(better_than, better, n, draws, held, draws.len());
    assert(draws.take(draws.len() as int) =~= draws);
}

/// Where the judge answers what `better` says, the best so far after `k`
/// candidates is the champion of those candidates.
pub proof fn lemma_course_champion<F: Fn(usize, usize) -> bool>(
    better_than: F,
    better: spec_fn(usize, usize) -> bool,
    n: usize,
    draws: Seq<usize>,
    held: Seq<usize>,
    k: nat,
)
    requires
        course(better_than, draws, held),
        answers_as(better_than, better, n),
        forall|t: int| 0 <= t < draws.len() ==> draws[t] < n,
        1 <= k <= draws.len(),
    ensures
        held[k - 1] == champion(better, draws.take(k as int)),
        held[k - 1] < n,
    decreases k,
{
    let short = draws.take(k as int);
    if k == 1 {
        assert(short[0] == draws[0]);
    } else {
        lemma_course_champion(better_than, better, n, draws, held, (k - 1) as nat);
        assert(short.drop_last() =~= draws.take(k - 1));
        assert(short.last() == draws[k - 1]);
        assert(stays(better_than, draws[k - 1], held[k - 2], held[k - 1]));
    }
}

/// Lets `challenger` meet `best` and returns who stays.
pub fn challenge<F: Fn(usize, usize) -> bool>(better_than: &F, challenger: usize, best: usize) -> (winner:
    usize)
    requires
        call_requires(*better_than, (challenger, best)),
    ensures
        stays(*better_than, challenger, best, winner),
        winner == challenger || winner == best,
{
    if better_than(challenger, best) {
        challenger
    } else {
        best
    }
}

/// Returns the winner of the tournament of the candidates `draws`.
pub fn tournament_winner<F: Fn(usize, usize) -> bool>(draws: &[usize], better_than: &F) -> (winner:
    usize)
    requires
        draws@.len() > 0,
        forall|i: int, j: int|
            0 <= i < draws@.len() && 0 <= j < draws@.len() ==> call_requires(
                *better_than,
                (draws@[i], draws@[j]),
            ),
    ensures
        wins(*better_than, draws@, winner),
        exists|i: int| 0 <= i < draws@.len() && draws@[i] == winner,
{
    let mut best = draws[0];
    let mut i: usize = 1;
    let ghost mut held: Seq<usize> = seq![best];
    while i < draws.len()
        invariant
            1 <= i <= draws@.len(),
            forall|a: int, b: int|
                0 <= a < draws@.len() && 0 <= b < draws@.len() ==> call_requires(
                    *better_than,
                    (draws@[a], draws@[b]),
                ),
            course(*better_than, draws@.take(i as int), held),
            held[held.len() - 1] == best,
            exists|t: int| 0 <= t < i && draws@[t] == best,
        decreases draws@.len() - i,
    {
        let ghost before = held;
        best = challenge(better_than, draws[i], best);
        proof {
            held = before.push(best);
            let longer = draws@.take(i + 1);
            assert forall|t: int| 1 <= t < longer.len() implies stays(
                *better_than,
                longer[t],
                held[t - 1],
                #[trigger] held[t],
            ) by {
                if t < i {
                    assert(draws@.take(i as int)[t] == longer[t]);
                    assert(stays(*better_than, draws@.take(i as int)[t], before[t - 1], before[t]));
                }
            }
            assert(draws@.take(i as int)[0] == longer[0]);
        }
        i = i + 1;
    }
    proof {
        assert(draws@.take(draws@.len() as int) =~= draws@);
    }
    best
}

/// Select the best individual out of `k` randomly chosen ones among the
/// indices below `n`. This gives better individuals a higher chance to be
/// selected.
///
/// The candidates are drawn one by one, each index with the same chance, so the
/// same index may be drawn more than once. At least one candidate is drawn.
pub fn tournament_selection_fast<F: Fn(usize, usize) -> bool>(
    rng: &mut StdRng,
    better_than: F,
    n: usize,
    k: usize,
) -> (winner: usize)
    requires
        n > 0,
        forall|i: usize, j: usize| i < n && j < n ==> call_requires(better_than, (i, j)),
    ensures
        winner < n,
        exists|draws: Seq<usize>|
            {
                &&& draws.len() == if k == 0 {
                    1
                } else {
                    k as int
                }
                &&& forall|t: int| 0 <= t < draws.len() ==> draws[t] < n
                &&& #[trigger] wins(better_than, draws, winner)
            },
{
    let mut best = random_index(rng, n);
    let ghost mut draws: Seq<usize> = seq![best];
    let ghost mut held: Seq<usize> = seq![best];
    let mut i: usize = 1;
    while i < k
        invariant
            n > 0,
            1 <= i,
            k > 0 ==> i <= k,
            k == 0 ==> i == 1,
            best < n,
            forall|a: usize, b: usize| a < n && b < n ==> call_requires(better_than, (a, b)),
            draws.len() == i,
            forall|t: int| 0 <= t < draws.len() ==> draws[t] < n,
            course(better_than, draws, held),
            held[held.len() - 1] == best,
        decreases k - i,
    {
        let next = random_index(rng, n);
        let ghost before = draws;
        let ghost held_before = held;
        best = challenge(&better_than, next, best);
        proof {
            draws = before.push(next);
            held = held_before.push(best);
            assert forall|t: int| 1 <= t < draws.len() implies stays(
                better_than,
                draws[t],
                held[t - 1],
                #[trigger] held[t],
            ) by {
                if t < i {
                    assert(stays(better_than, before[t], held_before[t - 1], held_before[t]));
                }
            }
        }
        i = i + 1;
    }
    proof {
        assert(course(better_than, draws, held) && held[held.len() - 1] == best);
        assert(wins(better_than, draws, best));
    }
    best
}

} // verus!
