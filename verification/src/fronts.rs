//! What it means for a list of index lists to be the Pareto fronts of a
//! dominance relation.
//!
//! The relation is a set of edges on the indices `0..n`: the edge `(p, q)` says
//! that solution `p` dominates solution `q`. Front 0 holds the solutions that
//! nothing dominates. Each later front holds the solutions whose dominators
//! all lie in earlier fronts, the last of them in the front just before.

use crate::verdict::Verdict;
use vstd::prelude::*;

verus! {

/// `x` stands among the first `k` items of `s`.
pub open spec fn in_prefix(s: Seq<usize>, k: int, x: int) -> bool {
    exists|t: int| 0 <= t < k && t < s.len() && #[trigger] s[t] == x
}

/// The indices that a front holds.
pub open spec fn members(front: Seq<usize>) -> Set<int> {
    Set::new(|q: int| in_prefix(front, front.len() as int, q))
}

/// The edges join two different indices below `n`, and never run both ways
/// between them.
pub open spec fn relation_ok(n: nat, edges: Set<(int, int)>) -> bool {
    forall|p: int, q: int| #[trigger]
        edges.contains((p, q)) ==> 0 <= p < n && 0 <= q < n && p != q && !edges.contains((q, p))
}

/// The pair `(a, b)` with `a < b` comes before position `(i, j)` when all pairs
/// are walked row by row.
pub open spec fn pair_before(a: int, b: int, i: int, j: int) -> bool {
    a < i || (a == i && b < j)
}

/// The edges that a table of verdicts gives on the pairs before `(i, j)`. The
/// table is asked once for each pair `a < b`: `Less` says that `a` dominates
/// `b`, `Greater` that `b` dominates `a`.
pub open spec fn verdict_edges_before(
    n: nat,
    table: spec_fn(int, int) -> Verdict,
    i: int,
    j: int,
) -> Set<(int, int)> {
    Set::new(
        |e: (int, int)|
            0 <= e.0 < n && 0 <= e.1 < n && ((e.0 < e.1 && pair_before(e.0, e.1, i, j) && table(
                e.0,
                e.1,
            ) == Verdict::Less) || (e.1 < e.0 && pair_before(e.1, e.0, i, j) && table(e.1, e.0)
                == Verdict::Greater)),
    )
}

/// The edges that a table of verdicts gives on all pairs of `0..n`.
pub open spec fn verdict_edges(n: nat, table: spec_fn(int, int) -> Verdict) -> Set<(int, int)> {
    verdict_edges_before(n, table, n as int, 0)
}

/// Every solution that dominates `q` is in `placed`.
pub open spec fn unblocked(edges: Set<(int, int)>, placed: Set<int>, q: int) -> bool {
    forall|p: int| #[trigger] edges.contains((p, q)) ==> placed.contains(p)
}

/// `front` holds, once each, exactly the solutions outside `placed` whose
/// dominators are all in `placed`.
pub open spec fn exact_front(
    n: nat,
    edges: Set<(int, int)>,
    placed: Set<int>,
    front: Seq<usize>,
) -> bool {
    &&& front.no_duplicates()
    &&& forall|i: int| 0 <= i < front.len() ==> #[trigger] front[i] < n
    &&& forall|q: int|
        0 <= q < n ==> (#[trigger] members(front).contains(q) <==> !placed.contains(q)
            && unblocked(edges, placed, q))
}

/// The front is in ascending order of index.
pub open spec fn ascending(front: Seq<usize>) -> bool {
    forall|s: int, t: int| 0 <= s < t < front.len() ==> #[trigger] front[s] < #[trigger] front[t]
}

/// Position `t` of `prev` holds the last solution of `prev` that dominates `q`.
pub open spec fn last_dominator(edges: Set<(int, int)>, prev: Seq<usize>, q: int, t: int) -> bool {
    &&& 0 <= t < prev.len()
    &&& edges.contains((prev[t] as int, q))
    &&& forall|u: int| t < u < prev.len() ==> !edges.contains((#[trigger] prev[u] as int, q))
}

/// Some solution of `prev` dominates `q`.
pub open spec fn dominated_from(edges: Set<(int, int)>, prev: Seq<usize>, q: int) -> bool {
    exists|t: int| #[trigger] last_dominator(edges, prev, q, t)
}

/// In `prev`, the last dominator of `x` stands before that of `y`, or they
/// share it and `x` is the smaller index.
pub open spec fn released_before(edges: Set<(int, int)>, prev: Seq<usize>, x: int, y: int) -> bool {
    exists|tx: int, ty: int|
        #![trigger last_dominator(edges, prev, x, tx), last_dominator(edges, prev, y, ty)]
        last_dominator(edges, prev, x, tx) && last_dominator(edges, prev, y, ty) && (tx < ty || (tx
            == ty && x < y))
}

/// Every solution of `front` has a dominator in `prev`, and `front` is ordered
/// by the position of the last one, then by index.
pub open spec fn follows(edges: Set<(int, int)>, prev: Seq<usize>, front: Seq<usize>) -> bool {
    &&& forall|i: int| 0 <= i < front.len() ==> dominated_from(edges, prev, #[trigger] front[i] as int)
    &&& forall|i: int, j: int|
        0 <= i < j < front.len() ==> released_before(
            edges,
            prev,
            #[trigger] front[i] as int,
            #[trigger] front[j] as int,
        )
}

/// The number of indices in `0..k` that are not in `placed`.
pub open spec fn unplaced(placed: Set<int>, k: nat) -> nat
    decreases k,
{
    if k == 0 {
        0
    } else {
        unplaced(placed, (k - 1) as nat) + if placed.contains(k - 1) {
            0nat
        } else {
            1nat
        }
    }
}

/// Placing one more index of `0..k` lowers the number of unplaced ones by one.
pub proof fn lemma_unplaced_insert(placed: Set<int>, q: int, k: nat)
    requires
        0 <= q < k,
        !placed.contains(q),
    ensures
        unplaced(placed.insert(q), k) + 1 == unplaced(placed, k),
    decreases k,
{
    if q == k - 1 {
        lemma_unplaced_agree(placed, placed.insert(q), (k - 1) as nat);
    } else {
        lemma_unplaced_insert(placed, q, (k - 1) as nat);
    }
}

/// Two sets that agree on `0..k` leave the same number of indices unplaced.
pub proof fn lemma_unplaced_agree(a: Set<int>, b: Set<int>, k: nat)
    requires
        forall|q: int| 0 <= q < k ==> a.contains(q) == b.contains(q),
    ensures
        unplaced(a, k) == unplaced(b, k),
    decreases k,
{
    if k > 0 {
        lemma_unplaced_agree(a, b, (k - 1) as nat);
    }
}

/// No index is unplaced exactly when `placed` holds all of `0..k`.
pub proof fn lemma_unplaced_zero(placed: Set<int>, k: nat)
    ensures
        unplaced(placed, k) == 0 <==> forall|q: int| 0 <= q < k ==> placed.contains(q),
        unplaced(placed, k) <= k,
    decreases k,
{
    if k > 0 {
        lemma_unplaced_zero(placed, (k - 1) as nat);
        if unplaced(placed, k) == 0 {
            assert forall|q: int| 0 <= q < k implies placed.contains(q) by {
                if q < k - 1 {
                }
            }
        }
    }
}

/// Placing the first `k` solutions of a front, which are new and distinct,
/// lowers the number of unplaced indices by `k`.
pub proof fn lemma_unplaced_front(placed: Set<int>, front: Seq<usize>, k: nat, n: nat)
    requires
        k <= front.len(),
        front.no_duplicates(),
        forall|i: int| 0 <= i < front.len() ==> #[trigger] front[i] < n && !placed.contains(front[i] as int),
    ensures
        unplaced(placed.union(members(front.take(k as int))), n) + k == unplaced(placed, n),
    decreases k,
{
    if k == 0 {
        lemma_unplaced_agree(placed, placed.union(members(front.take(0))), n);
    } else {
        lemma_unplaced_front(placed, front, (k - 1) as nat, n);
        let before = placed.union(members(front.take(k - 1)));
        let q = front[k - 1] as int;
        assert(!before.contains(q)) by {
            if members(front.take(k - 1)).contains(q) {
                let t = choose|t: int|
                    0 <= t < k - 1 && t < front.take(k - 1).len() && #[trigger] front.take(k - 1)[t]
                        == q;
                assert(front[t] == front[k - 1]);
            }
        }
        lemma_unplaced_insert(before, q, n);
        assert(before.insert(q) =~= placed.union(members(front.take(k as int)))) by {
            assert forall|x: int|
                before.insert(q).contains(x) == placed.union(
                    members(front.take(k as int)),
                ).contains(x) by {
                if members(front.take(k - 1)).contains(x) {
                    let t = choose|t: int|
                        0 <= t < k - 1 && t < front.take(k - 1).len() && #[trigger] front.take(
                            k - 1,
                        )[t] == x;
                    assert(front.take(k as int)[t] == x);
                }
                if members(front.take(k as int)).contains(x) {
                    let t = choose|t: int|
                        0 <= t < k && t < front.take(k as int).len() && #[trigger] front.take(
                            k as int,
                        )[t] == x;
                    if t < k - 1 {
                        assert(front.take(k - 1)[t] == x);
                    }
                }
                if x == q {
                    assert(front.take(k as int)[k - 1] == x);
                }
            }
        }
    }
}

/// The solutions of the first `k` fronts.
pub open spec fn placed_upto(fronts: Seq<Seq<usize>>, k: nat) -> Set<int>
    decreases k,
{
    if k == 0 {
        Set::empty()
    } else {
        placed_upto(fronts, (k - 1) as nat).union(members(fronts[k - 1]))
    }
}

/// The number of solutions in the first `k` fronts.
pub open spec fn total_upto(fronts: Seq<Seq<usize>>, k: nat) -> nat
    decreases k,
{
    if k == 0 {
        0
    } else {
        total_upto(fronts, (k - 1) as nat) + fronts[k - 1].len()
    }
}

/// `fronts` are the leading Pareto fronts of the relation, each in the order in
/// which the sort produces it: no front is empty, front 0 is ascending, and
/// each later front follows the one before it.
pub open spec fn is_front_chain(n: nat, edges: Set<(int, int)>, fronts: Seq<Seq<usize>>) -> bool {
    forall|k: int|
        0 <= k < fronts.len() ==> {
            &&& (#[trigger] fronts[k]).len() > 0
            &&& exact_front(n, edges, placed_upto(fronts, k as nat), fronts[k])
            &&& if k == 0 {
                ascending(fronts[k])
            } else {
                follows(edges, fronts[k - 1], fronts[k])
            }
        }
}

/// No front can follow `fronts`: every solution outside them is dominated by
/// another one outside them.
pub open spec fn exhausted(n: nat, edges: Set<(int, int)>, fronts: Seq<Seq<usize>>) -> bool {
    exact_front(n, edges, placed_upto(fronts, fronts.len()), Seq::empty())
}

/// The lists of indices that a list of fronts holds.
pub open spec fn views(fronts: Seq<Vec<usize>>) -> Seq<Seq<usize>> {
    Seq::new(fronts.len(), |k: int| fronts[k]@)
}

/// The fronts were collected until they held `cap` solutions or none was left
/// to collect: every proper prefix holds fewer than `cap`, and the whole either
/// holds `cap` or more or cannot be continued. The first front is collected
/// whatever `cap` is.
pub open spec fn stops_at(n: nat, edges: Set<(int, int)>, fronts: Seq<Seq<usize>>, cap: nat) -> bool {
    &&& forall|k: int| 0 < k < fronts.len() ==> #[trigger] total_upto(fronts, k as nat) < cap
    &&& exhausted(n, edges, fronts) || (fronts.len() > 0 && total_upto(fronts, fronts.len())
        >= cap)
}

/// `m` is a member of `s` that no member of `s` dominates.
pub open spec fn minimal_in(edges: Set<(int, int)>, s: Set<int>, m: int) -> bool {
    s.contains(m) && forall|p: int| s.contains(p) ==> !edges.contains((p, m))
}

/// `s` is a non-empty set of solutions.
pub open spec fn inhabited(n: nat, s: Set<int>) -> bool {
    (exists|q: int| s.contains(q)) && (forall|q: int| s.contains(q) ==> 0 <= q < n)
}

/// Every non-empty set of solutions has a member that no other member
/// dominates. On a finite set this says that the relation has no cycle.
pub open spec fn well_founded(n: nat, edges: Set<(int, int)>) -> bool {
    forall|s: Set<int>| #[trigger]
        inhabited(n, s) ==> exists|m: int| #[trigger] minimal_in(edges, s, m)
}

/// Some front holds solution `q`.
pub open spec fn appears(fronts: Seq<Seq<usize>>, q: int) -> bool {
    exists|k: int, i: int|
        0 <= k < fronts.len() && 0 <= i < fronts[k].len() && #[trigger] fronts[k][i] == q
}

/// The first `k` fronts of a list do not change when a front is appended.
pub proof fn lemma_upto_push(fronts: Seq<Seq<usize>>, front: Seq<usize>, k: nat)
    requires
        k <= fronts.len(),
    ensures
        placed_upto(fronts.push(front), k) == placed_upto(fronts, k),
        total_upto(fronts.push(front), k) == total_upto(fronts, k),
    decreases k,
{
    if k > 0 {
        lemma_upto_push(fronts, front, (k - 1) as nat);
        assert(fronts.push(front)[k - 1] == fronts[k - 1]);
    }
}

/// A chain stays a chain when the front that follows it is appended, and every
/// prefix of that front keeps the solutions and totals it had.
pub proof fn lemma_chain_push(
    n: nat,
    edges: Set<(int, int)>,
    fronts: Seq<Seq<usize>>,
    front: Seq<usize>,
)
    requires
        is_front_chain(n, edges, fronts),
        front.len() > 0,
        exact_front(n, edges, placed_upto(fronts, fronts.len()), front),
        if fronts.len() == 0 {
            ascending(front)
        } else {
            follows(edges, fronts[fronts.len() - 1], front)
        },
    ensures
        is_front_chain(n, edges, fronts.push(front)),
        forall|k: int|
            0 <= k <= fronts.len() ==> #[trigger] total_upto(fronts.push(front), k as nat)
                == total_upto(fronts, k as nat),
        placed_upto(fronts.push(front), fronts.len()) == placed_upto(fronts, fronts.len()),
        placed_upto(fronts.push(front), (fronts.len() + 1) as nat) == placed_upto(
            fronts,
            fronts.len(),
        ).union(members(front)),
        total_upto(fronts.push(front), (fronts.len() + 1) as nat) == total_upto(
            fronts,
            fronts.len(),
        ) + front.len(),
{
    let after = fronts.push(front);
    assert forall|k: int| 0 <= k < after.len() implies {
        &&& (#[trigger] after[k]).len() > 0
        &&& exact_front(n, edges, placed_upto(after, k as nat), after[k])
        &&& if k == 0 {
            ascending(after[k])
        } else {
            follows(edges, after[k - 1], after[k])
        }
    } by {
        lemma_upto_push(fronts, front, k as nat);
        if k < fronts.len() {
            assert(after[k] == fronts[k]);
            assert(fronts[k].len() > 0);
        }
        if k > 0 {
            assert(after[k - 1] == fronts[k - 1]);
        }
    }
    assert forall|k: int| 0 <= k <= fronts.len() implies #[trigger] total_upto(after, k as nat)
        == total_upto(fronts, k as nat) by {
        lemma_upto_push(fronts, front, k as nat);
    }
    lemma_upto_push(fronts, front, fronts.len());
    assert(after[fronts.len() as int] == front);
}

/// A solution is among the first `k` fronts exactly when one of them holds it.
pub proof fn lemma_placed_upto(fronts: Seq<Seq<usize>>, k: nat, q: int)
    requires
        k <= fronts.len(),
    ensures
        placed_upto(fronts, k).contains(q) <==> exists|t: int, i: int|
            0 <= t < k && 0 <= i < fronts[t].len() && #[trigger] fronts[t][i] == q,
    decreases k,
{
    if k > 0 {
        lemma_placed_upto(fronts, (k - 1) as nat, q);
        if members(fronts[k - 1]).contains(q) {
            let i = choose|i: int|
                0 <= i < fronts[k - 1].len() && i < fronts[k - 1].len() && #[trigger] fronts[k
                    - 1][i] == q;
            assert(fronts[k - 1][i] == q);
        }
        if exists|t: int, i: int|
            0 <= t < k && 0 <= i < fronts[t].len() && #[trigger] fronts[t][i] == q {
            let (t, i) = choose|t: int, i: int|
                0 <= t < k && 0 <= i < fronts[t].len() && #[trigger] fronts[t][i] == q;
            if t == k - 1 {
                assert(in_prefix(fronts[k - 1], fronts[k - 1].len() as int, q));
            } else {
                assert(fronts[t][i] == q);
            }
        }
    }
}

/// The fronts of a chain hold as many solutions as they take out of the
/// unplaced ones.
pub proof fn lemma_chain_count(n: nat, edges: Set<(int, int)>, fronts: Seq<Seq<usize>>, k: nat)
    requires
        is_front_chain(n, edges, fronts),
        k <= fronts.len(),
    ensures
        total_upto(fronts, k) + unplaced(placed_upto(fronts, k), n) == n,
    decreases k,
{
    if k == 0 {
        lemma_unplaced_zero(Set::empty(), n);
        lemma_unplaced_none(n);
    } else {
        lemma_chain_count(n, edges, fronts, (k - 1) as nat);
        let front = fronts[k - 1];
        let placed = placed_upto(fronts, (k - 1) as nat);
        assert(exact_front(n, edges, placed, front));
        assert forall|i: int| 0 <= i < front.len() implies #[trigger] front[i] < n
            && !placed.contains(front[i] as int) by {
            assert(in_prefix(front, front.len() as int, front[i] as int));
            assert(members(front).contains(front[i] as int));
        }
        lemma_unplaced_front(placed, front, front.len(), n);
        assert(front.take(front.len() as int) =~= front);
    }
}

/// Every front of a chain holds indices below `n` only.
pub proof fn lemma_chain_in_range(n: nat, edges: Set<(int, int)>, fronts: Seq<Seq<usize>>)
    requires
        is_front_chain(n, edges, fronts),
    ensures
        forall|k: int, i: int|
            0 <= k < fronts.len() && 0 <= i < fronts[k].len() ==> #[trigger] fronts[k][i] < n,
{
    assert forall|k: int, i: int|
        0 <= k < fronts.len() && 0 <= i < fronts[k].len() implies #[trigger] fronts[k][i] < n by {
        assert(exact_front(n, edges, placed_upto(fronts, k as nat), fronts[k]));
    }
}

/// A front without repetition, of indices below `n`, holds at most `n` of them.
pub proof fn lemma_front_size(n: nat, front: Seq<usize>)
    requires
        front.no_duplicates(),
        forall|i: int| 0 <= i < front.len() ==> #[trigger] front[i] < n,
    ensures
        front.len() <= n,
{
    lemma_unplaced_front(Set::empty(), front, front.len(), n);
    lemma_unplaced_none(n);
}

/// With nothing placed, all of `0..k` is unplaced.
pub proof fn lemma_unplaced_none(k: nat)
    ensures
        unplaced(Set::empty(), k) == k,
    decreases k,
{
    if k > 0 {
        lemma_unplaced_none((k - 1) as nat);
    }
}

/// The fronts of a chain are disjoint: no solution stands in two fronts, nor
/// twice in one.
pub proof fn lemma_fronts_disjoint(n: nat, edges: Set<(int, int)>, fronts: Seq<Seq<usize>>)
    requires
        is_front_chain(n, edges, fronts),
    ensures
        forall|k: int| 0 <= k < fronts.len() ==> (#[trigger] fronts[k]).no_duplicates(),
        forall|k1: int, k2: int, i: int, j: int|
            0 <= k1 < k2 < fronts.len() && 0 <= i < fronts[k1].len() && 0 <= j < fronts[k2].len()
                ==> #[trigger] fronts[k1][i] != #[trigger] fronts[k2][j],
{
    assert forall|k1: int, k2: int, i: int, j: int|
        0 <= k1 < k2 < fronts.len() && 0 <= i < fronts[k1].len() && 0 <= j < fronts[k2].len()
        implies #[trigger] fronts[k1][i] != #[trigger] fronts[k2][j] by {
        let q = fronts[k2][j] as int;
        assert(exact_front(n, edges, placed_upto(fronts, k2 as nat), fronts[k2]));
        assert(in_prefix(fronts[k2], fronts[k2].len() as int, q));
        assert(members(fronts[k2]).contains(q));
        assert(!placed_upto(fronts, k2 as nat).contains(q));
        lemma_placed_upto(fronts, k2 as nat, q);
    }
}

/// Where no solution outside `placed` is free of unplaced dominators, and the
/// relation has no cycle, `placed` holds every solution.
pub proof fn lemma_nothing_left(n: nat, edges: Set<(int, int)>, placed: Set<int>)
    requires
        relation_ok(n, edges),
        well_founded(n, edges),
        exact_front(n, edges, placed, Seq::empty()),
    ensures
        forall|q: int| 0 <= q < n ==> placed.contains(q),
        unplaced(placed, n) == 0,
{
    let rest = Set::new(|q: int| 0 <= q < n && !placed.contains(q));
    if exists|q: int| rest.contains(q) {
        assert(inhabited(n, rest));
        let m = choose|m: int| #[trigger] minimal_in(edges, rest, m);
        assert forall|p: int| #[trigger] edges.contains((p, m)) implies placed.contains(p) by {
            if !placed.contains(p) {
                assert(rest.contains(p));
            }
        }
        assert(members(Seq::<usize>::empty()).contains(m));
        assert(false);
    }
    assert forall|q: int| 0 <= q < n implies placed.contains(q) by {
        if !placed.contains(q) {
            assert(rest.contains(q));
        }
    }
    lemma_unplaced_zero(placed, n);
}

/// Once no front can follow, the fronts of a chain hold every solution,
/// provided that the relation has no cycle.
pub proof fn lemma_fronts_cover(n: nat, edges: Set<(int, int)>, fronts: Seq<Seq<usize>>)
    requires
        relation_ok(n, edges),
        well_founded(n, edges),
        is_front_chain(n, edges, fronts),
        exhausted(n, edges, fronts),
    ensures
        forall|q: int| 0 <= q < n ==> #[trigger] appears(fronts, q),
{
    let placed = placed_upto(fronts, fronts.len());
    lemma_nothing_left(n, edges, placed);
    assert forall|q: int| 0 <= q < n implies #[trigger] appears(fronts, q) by {
        lemma_placed_upto(fronts, fronts.len(), q);
    }
}

/// A sort that was asked for at least as many solutions as there are returns
/// every solution in exactly one front, provided that the relation has no
/// cycle.
pub proof fn lemma_full_sort_partitions(
    n: nat,
    edges: Set<(int, int)>,
    fronts: Seq<Seq<usize>>,
    cap: nat,
)
    requires
        relation_ok(n, edges),
        well_founded(n, edges),
        is_front_chain(n, edges, fronts),
        stops_at(n, edges, fronts, cap),
        cap >= n,
    ensures
        forall|q: int| 0 <= q < n ==> #[trigger] appears(fronts, q),
        forall|k: int| 0 <= k < fronts.len() ==> (#[trigger] fronts[k]).no_duplicates(),
        forall|k1: int, k2: int, i: int, j: int|
            0 <= k1 < k2 < fronts.len() && 0 <= i < fronts[k1].len() && 0 <= j < fronts[k2].len()
                ==> #[trigger] fronts[k1][i] != #[trigger] fronts[k2][j],
        forall|k: int, i: int|
            0 <= k < fronts.len() && 0 <= i < fronts[k].len() ==> #[trigger] fronts[k][i] < n,
{
    lemma_fronts_disjoint(n, edges, fronts);
    if exhausted(n, edges, fronts) {
        lemma_fronts_cover(n, edges, fronts);
    } else {
        let placed = placed_upto(fronts, fronts.len());
        lemma_chain_count(n, edges, fronts, fronts.len());
        lemma_unplaced_zero(placed, n);
        assert forall|q: int| 0 <= q < n implies #[trigger] appears(fronts, q) by {
            lemma_placed_upto(fronts, fronts.len(), q);
        }
    }
    assert forall|k: int, i: int|
        0 <= k < fronts.len() && 0 <= i < fronts[k].len() implies #[trigger] fronts[k][i] < n by {
        assert(exact_front(n, edges, placed_upto(fronts, k as nat), fronts[k]));
    }
}

/// Some solution of `prev` dominates `q`.
pub open spec fn has_dominator_in(edges: Set<(int, int)>, prev: Seq<usize>, q: int) -> bool {
    exists|j: int| 0 <= j < prev.len() && edges.contains((#[trigger] prev[j] as int, q))
}

/// The fronts of a full sort under a relation without a cycle hold as many
/// solutions as there are.
pub proof fn lemma_full_sort_total(n: nat, edges: Set<(int, int)>, fronts: Seq<Seq<usize>>)
    requires
        well_founded(n, edges),
        is_front_chain(n, edges, fronts),
        stops_at(n, edges, fronts, n),
        relation_ok(n, edges),
    ensures
        total_upto(fronts, fronts.len()) == n,
{
    lemma_chain_count(n, edges, fronts, fronts.len());
    if exhausted(n, edges, fronts) {
        lemma_nothing_left(n, edges, placed_upto(fronts, fronts.len()));
    }
}

/// The fronts are disjoint lists of solutions, and hold every solution if at
/// least as many were asked for as there are and the relation has no cycle.
pub open spec fn partitions(n: nat, edges: Set<(int, int)>, fronts: Seq<Seq<usize>>, cap: nat) -> bool {
    &&& forall|k: int| 0 <= k < fronts.len() ==> (#[trigger] fronts[k]).no_duplicates()
    &&& forall|k1: int, k2: int, i: int, j: int|
        0 <= k1 < k2 < fronts.len() && 0 <= i < fronts[k1].len() && 0 <= j < fronts[k2].len()
            ==> #[trigger] fronts[k1][i] != #[trigger] fronts[k2][j]
    &&& forall|k: int, i: int|
        0 <= k < fronts.len() && 0 <= i < fronts[k].len() ==> #[trigger] fronts[k][i] < n
    &&& cap >= n && well_founded(n, edges) ==> forall|q: int|
        0 <= q < n ==> #[trigger] appears(fronts, q)
}

/// The fronts that a sort returns partition the solutions they hold, and hold
/// all solutions if at least as many were asked for as there are and the
/// relation has no cycle.
pub proof fn lemma_partitions(n: nat, edges: Set<(int, int)>, fronts: Seq<Seq<usize>>, cap: nat)
    requires
        relation_ok(n, edges),
        is_front_chain(n, edges, fronts),
        stops_at(n, edges, fronts, cap),
    ensures
        partitions(n, edges, fronts, cap),
{
    lemma_fronts_disjoint(n, edges, fronts);
    lemma_chain_in_range(n, edges, fronts);
    if cap >= n && well_founded(n, edges) {
        lemma_full_sort_partitions(n, edges, fronts, cap);
    }
}

/// Every solution of a front after the first is dominated by a solution of the
/// front just before it.
pub proof fn lemma_front_dominated(n: nat, edges: Set<(int, int)>, fronts: Seq<Seq<usize>>)
    requires
        is_front_chain(n, edges, fronts),
    ensures
        forall|k: int, i: int|
            0 < k < fronts.len() && 0 <= i < fronts[k].len() ==> has_dominator_in(
                edges,
                fronts[k - 1],
                #[trigger] fronts[k][i] as int,
            ),
{
    assert forall|k: int, i: int|
        0 < k < fronts.len() && 0 <= i < fronts[k].len() implies has_dominator_in(
        edges,
        fronts[k - 1],
        #[trigger] fronts[k][i] as int,
    ) by {
        assert(follows(edges, fronts[k - 1], fronts[k]));
        assert(dominated_from(edges, fronts[k - 1], fronts[k][i] as int));
        let t = choose|t: int| #[trigger] last_dominator(edges, fronts[k - 1], fronts[k][i] as int, t);
        assert(edges.contains((fronts[k - 1][t] as int, fronts[k][i] as int)));
    }
}

/// Whenever `a` dominates `b` and `b` dominates `c`, `a` dominates `c`.
pub open spec fn transitive(edges: Set<(int, int)>) -> bool {
    forall|a: int, b: int, c: int|
        #![trigger edges.contains((a, b)), edges.contains((b, c))]
        edges.contains((a, b)) && edges.contains((b, c)) ==> edges.contains((a, c))
}

/// `m` is a member of `s` below `k` that no member of `s` below `k` dominates.
spec fn minimal_below(edges: Set<(int, int)>, s: Set<int>, k: nat, m: int) -> bool {
    0 <= m < k && s.contains(m) && forall|p: int|
        0 <= p < k && s.contains(p) ==> !edges.contains((p, m))
}

/// A relation that is transitive, and by its shape irreflexive, has no cycle.
pub proof fn lemma_transitive_well_founded(n: nat, edges: Set<(int, int)>)
    requires
        relation_ok(n, edges),
        transitive(edges),
    ensures
        well_founded(n, edges),
{
    assert forall|s: Set<int>| #[trigger] inhabited(n, s) implies exists|m: int| #[trigger]
        minimal_in(edges, s, m) by {
        let q0 = choose|q: int| s.contains(q);
        let m = lemma_minimal_below(n, edges, s, n, q0);
        assert(minimal_in(edges, s, m));
    }
}

/// In a transitive relation, the members of `s` below `k`, if there are any,
/// have one that no member of `s` below `k` dominates.
proof fn lemma_minimal_below(n: nat, edges: Set<(int, int)>, s: Set<int>, k: nat, q: int) -> (m:
    int)
    requires
        relation_ok(n, edges),
        transitive(edges),
        forall|x: int| s.contains(x) ==> 0 <= x < n,
        k <= n,
        0 <= q < k,
        s.contains(q),
    ensures
        minimal_below(edges, s, k, m),
    decreases k,
{
    let x = k - 1;
    if q < x {
        let m = lemma_minimal_below(n, edges, s, (k - 1) as nat, q);
        if s.contains(x) && edges.contains((x, m)) {
            assert forall|p: int| 0 <= p < k && s.contains(p) implies !edges.contains((p, x)) by {
                if edges.contains((p, x)) {
                    assert(edges.contains((p, m)));
                    assert(p != x);
                }
            }
            x
        } else {
            m
        }
    } else {
        if exists|y: int| 0 <= y < x && s.contains(y) {
            let y = choose|y: int| 0 <= y < x && s.contains(y);
            let m = lemma_minimal_below(n, edges, s, (k - 1) as nat, y);
            if edges.contains((x, m)) {
                assert forall|p: int| 0 <= p < k && s.contains(p) implies !edges.contains(
                    (p, x),
                ) by {
                    if edges.contains((p, x)) {
                        assert(edges.contains((p, m)));
                        assert(p != x);
                    }
                }
                x
            } else {
                m
            }
        } else {
            assert forall|p: int| 0 <= p < k && s.contains(p) implies !edges.contains((p, x)) by {
                assert(p == x);
            }
            x
        }
    }
}

} // verus!
