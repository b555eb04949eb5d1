use nsga2::crowding_distance::{Crowding, Entry, CROWDING_UNIT};
use nsga2::multi_objective::MultiObjective;
use nsga2::objective::Objective;
use nsga2::round_robin::{draw_members, pool_sizes, round_robin_plan, Slot};
use nsga2::grouping::{is_near, Tolerance};
use nsga2::pools::{mean, Member};
use nsga2::select_nsgp::{nsgp_pools, random_draws, selection_nsgp};
use rand::{SeedableRng, StdRng};
use std::cmp::Ordering;

type Fit = (i64, i64);

struct First;
struct Second;

impl Objective<Fit, i64> for First {
    fn total_order(&self, a: &Fit, b: &Fit) -> Ordering {
        a.0.cmp(&b.0)
    }

    fn distance(&self, a: &Fit, b: &Fit) -> i64 {
        a.0 - b.0
    }
}

impl Objective<Fit, i64> for Second {
    fn total_order(&self, a: &Fit, b: &Fit) -> Ordering {
        a.1.cmp(&b.1)
    }

    fn distance(&self, a: &Fit, b: &Fit) -> i64 {
        a.1 - b.1
    }
}

fn seeded(seed: usize) -> StdRng {
    let seed: &[usize] = &[seed, 2, 3, 4];
    StdRng::from_seed(seed)
}

fn tenth() -> Tolerance {
    Tolerance { numerator: 1, denominator: 10 }
}

fn slots(plan: &[Slot]) -> Vec<(usize, usize)> {
    plan.iter().map(|slot| (slot.pool, slot.left)).collect()
}

#[test]
fn test_is_near() {
    // Less than a tenth of the spread.
    assert!(is_near(tenth(), 9, 100));
    assert!(!is_near(tenth(), 10, 100));
    assert!(!is_near(tenth(), 11, 100));
    assert!(is_near(tenth(), 0, 100));
    // Without a spread only solutions with no gap are near.
    assert!(is_near(tenth(), 0, 0));
    assert!(!is_near(tenth(), 1, 0));
    // A tolerance of zero is never met where there is a spread.
    assert!(!is_near(Tolerance { numerator: 0, denominator: 1 }, 0, 5));
    assert!(is_near(
        Tolerance { numerator: u64::MAX, denominator: 1 },
        u64::MAX - 1,
        u64::MAX
    ));
}

#[test]
fn test_mean() {
    let entry = |distance| Entry { position: 0, distance };
    assert_eq!(Crowding::Finite(4), mean(&vec![entry(Crowding::Finite(4))]));
    assert_eq!(
        Crowding::Finite(3),
        mean(&vec![entry(Crowding::Finite(1)), entry(Crowding::Finite(2)), entry(Crowding::Finite(7))])
    );
    // The mean is rounded down.
    assert_eq!(
        Crowding::Finite(2),
        mean(&vec![entry(Crowding::Finite(1)), entry(Crowding::Finite(2)), entry(Crowding::Finite(5))])
    );
    assert_eq!(
        Crowding::Infinite,
        mean(&vec![entry(Crowding::Finite(1)), entry(Crowding::Infinite)])
    );
    let large = Crowding::Finite(1 << 96);
    assert_eq!(large, mean(&vec![entry(large), entry(large), entry(large)]));
}

#[test]
fn test_round_robin_plan() {
    // Three pools of three, one and two members.
    let sizes = vec![3, 1, 2];
    assert_eq!(
        vec![(0, 3), (1, 1), (2, 2), (0, 2), (2, 1), (0, 1)],
        slots(&round_robin_plan(&sizes, 6))
    );
    assert_eq!(
        vec![(0, 3), (1, 1), (2, 2), (0, 2), (2, 1), (0, 1)],
        slots(&round_robin_plan(&sizes, 100))
    );
    assert_eq!(vec![(0, 3), (1, 1), (2, 2), (0, 2)], slots(&round_robin_plan(&sizes, 4)));
    assert_eq!(vec![(0, 3)], slots(&round_robin_plan(&sizes, 1)));
    assert!(round_robin_plan(&sizes, 0).is_empty());
    assert!(round_robin_plan(&vec![], 5).is_empty());
    // Empty pools are passed over.
    assert_eq!(vec![(1, 2), (3, 1), (1, 1)], slots(&round_robin_plan(&vec![0, 2, 0, 1], 9)));
}

#[test]
fn test_draw_members() {
    let pools = vec![vec!['a', 'b', 'c'], vec!['x'], vec!['p', 'q']];
    let plan = round_robin_plan(&pool_sizes(&pools), 6);
    // Always the first member that is left.
    assert_eq!(
        vec!['a', 'x', 'p', 'b', 'q', 'c'],
        draw_members(pools.clone(), &plan, &vec![0, 0, 0, 0, 0, 0])
    );
    // Always the last member that is left.
    assert_eq!(
        vec!['c', 'x', 'q', 'b', 'p', 'a'],
        draw_members(pools.clone(), &plan, &vec![2, 0, 1, 1, 0, 0])
    );
    let short = round_robin_plan(&pool_sizes(&pools), 4);
    assert_eq!(vec!['b', 'x', 'p', 'c'], draw_members(pools, &short, &vec![1, 0, 0, 1]));
}

#[test]
fn test_random_draws() {
    let mut rng = seeded(1);
    let plan = round_robin_plan(&vec![5, 1, 3], 9);
    for _ in 0..50 {
        let draws = random_draws(&plan, &mut rng);
        assert_eq!(plan.len(), draws.len());
        assert_eq!(0, draws[0]);
        for (slot, draw) in plan.iter().zip(draws.iter()) {
            assert!(*draw < slot.left);
        }
    }
    assert!(random_draws(&vec![], &mut rng).is_empty());
}

#[test]
fn test_pools_group_similar_solutions() {
    let mo = MultiObjective::<Fit, i64>::new(&[&First, &Second]);
    // One front on a line from (0, 100) to (100, 0), with a crowd near (50, 50).
    let solutions = vec![(0, 100), (50, 50), (51, 49), (52, 48), (100, 0), (60, 60)];
    let pools = nsgp_pools(&solutions, &mo, tenth());
    let indices: Vec<Vec<usize>> =
        pools.iter().map(|pool| pool.iter().map(|m| m.index).collect()).collect();
    // The groups of the first front in order of the first objective, then the
    // second front.
    assert_eq!(vec![vec![0], vec![1, 2, 3], vec![4], vec![5]], indices);
    assert!(pools[0].iter().all(|m| m.rank == 0 && m.crowd == 1));
    assert!(pools[1].iter().all(|m| m.rank == 0 && m.crowd == 3));
    assert!(pools[3].iter().all(|m| m.rank == 1 && m.crowd == 1));
    assert_eq!(Crowding::Infinite, pools[0][0].distance);
    assert_eq!(Crowding::Infinite, pools[2][0].distance);
    assert_eq!(Crowding::Infinite, pools[3][0].distance);
    // The crowd shares the mean of its distances. Sorted by either objective
    // the front reads 0, 1, 2, 3, 4 or its reverse, and the spread is 100:
    // solution 1 lies between 0 and 2, 51 apart, 2 between 1 and 3, 2 apart,
    // 3 between 2 and 4, 49 apart.
    let part = |gap: u128| 2 * (gap * CROWDING_UNIT / 200);
    let expected = (part(51) + part(2) + part(49)) / 3;
    assert!(pools[1].iter().all(|m| m.distance == Crowding::Finite(expected)));
}

#[test]
fn test_no_tolerance_no_groups() {
    let mo = MultiObjective::<Fit, i64>::new(&[&First, &Second]);
    let solutions = vec![(0, 100), (50, 50), (51, 49), (52, 48), (100, 0)];
    let pools = nsgp_pools(&solutions, &mo, Tolerance { numerator: 0, denominator: 1 });
    assert_eq!(5, pools.len());
    assert!(pools.iter().all(|pool| pool.len() == 1 && pool[0].crowd == 1));
    // With a tolerance above one the whole front is one group.
    let pools = nsgp_pools(&solutions, &mo, Tolerance { numerator: 2, denominator: 1 });
    assert_eq!(1, pools.len());
    let indices: Vec<usize> = pools[0].iter().map(|m| m.index).collect();
    assert_eq!(vec![0, 1, 2, 3, 4], indices);
    assert!(pools[0].iter().all(|m| m.distance == Crowding::Infinite && m.crowd == 5));
}

#[test]
fn test_selection_nsgp_is_fair_to_groups() {
    let mo = MultiObjective::<Fit, i64>::new(&[&First, &Second]);
    let solutions = vec![(0, 100), (50, 50), (51, 49), (52, 48), (100, 0), (60, 60)];
    for seed in 0..20 {
        let mut rng = seeded(seed);
        // One from each of the three groups of the first front, then the
        // second front, then the crowd again.
        let selected = selection_nsgp(&solutions, 5, &mo, tenth(), &mut rng);
        assert_eq!(5, selected.len());
        assert_eq!(0, selected[0].index);
        assert!([1, 2, 3].contains(&selected[1].index));
        assert_eq!(4, selected[2].index);
        assert_eq!(5, selected[3].index);
        assert!([1, 2, 3].contains(&selected[4].index));
        assert_ne!(selected[1].index, selected[4].index);
    }
}

#[test]
fn test_selection_nsgp_size_and_elite() {
    let mo = MultiObjective::<Fit, i64>::new(&[&First, &Second]);
    let solutions: Vec<Fit> = (0..40).map(|i| ((i * 7) % 11, (i * 5) % 13)).collect();
    // The best solution of the first front under the first objective.
    let elite = (0..solutions.len())
        .filter(|&q| solutions.iter().all(|p| !(p.0 <= solutions[q].0 && p.1 <= solutions[q].1 && p != &solutions[q])))
        .min_by_key(|&q| solutions[q].0)
        .unwrap();
    for n in 0..50 {
        let mut rng = seeded(n);
        let selected = selection_nsgp(&solutions, n, &mo, tenth(), &mut rng);
        assert_eq!(n.min(solutions.len()), selected.len());
        let mut indices: Vec<usize> = selected.iter().map(|m: &Member| m.index).collect();
        indices.sort();
        indices.dedup();
        assert_eq!(selected.len(), indices.len());
        if n > 0 {
            assert_eq!(elite, selected[0].index);
            assert_eq!(0, selected[0].rank);
        }
    }
    let mut rng = seeded(0);
    assert!(selection_nsgp(&Vec::<Fit>::new(), 3, &mo, tenth(), &mut rng).is_empty());
}

#[test]
fn test_selection_nsgp_is_repeatable() {
    let mo = MultiObjective::<Fit, i64>::new(&[&First, &Second]);
    let solutions: Vec<Fit> = (0..60).map(|i| ((i * 7) % 11, (i * 5) % 13)).collect();
    let wide = Tolerance { numerator: 1, denominator: 2 };
    let first = selection_nsgp(&solutions, 20, &mo, wide, &mut seeded(5));
    let second = selection_nsgp(&solutions, 20, &mo, wide, &mut seeded(5));
    assert_eq!(first, second);
}
