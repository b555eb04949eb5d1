use nsga2::crowding_distance::{Crowding, CROWDING_UNIT};
use nsga2::multi_objective::MultiObjective;
use nsga2::objective::Objective;
use nsga2::selection::selection_nsga;
use std::cmp::Ordering;

#[derive(Debug, Eq, PartialEq, Copy, Clone)]
struct Tuple(usize, usize);

struct Objective1;
struct Objective2;

impl Objective<Tuple, i64> for Objective1 {
    fn total_order(&self, a: &Tuple, b: &Tuple) -> Ordering {
        a.0.cmp(&b.0)
    }

    fn distance(&self, a: &Tuple, b: &Tuple) -> i64 {
        (a.0 as i64) - (b.0 as i64)
    }
}

impl Objective<Tuple, i64> for Objective2 {
    fn total_order(&self, a: &Tuple, b: &Tuple) -> Ordering {
        a.1.cmp(&b.1)
    }

    fn distance(&self, a: &Tuple, b: &Tuple) -> i64 {
        (a.1 as i64) - (b.1 as i64)
    }
}

fn get_solutions() -> Vec<Tuple> {
    vec![Tuple(1, 2), Tuple(1, 2), Tuple(2, 1), Tuple(1, 3), Tuple(0, 2)]
}

#[test]
fn test_selection_nsga_takes_the_best_fronts() {
    let mo = MultiObjective::<Tuple, i64>::new(&[&Objective1, &Objective2]);
    let solutions = get_solutions();
    let selected = selection_nsga(&solutions, 3, &mo);
    assert_eq!(3, selected.len());

    // The two solutions of rank 0, then one of rank 1.
    let ranks: Vec<usize> = selected.iter().map(|s| s.rank).collect();
    assert_eq!(vec![0, 0, 1], ranks);
    let mut first: Vec<usize> = selected[..2].iter().map(|s| s.index).collect();
    first.sort();
    assert_eq!(vec![2, 4], first);

    // Solutions 0 and 1 are equal, so both are extremes of their front: the
    // one with the smaller index is taken.
    assert_eq!(0, selected[2].index);
    assert_eq!(Crowding::Infinite, selected[2].crowding_distance);
    for s in &selected {
        assert_eq!(&solutions[s.index], s.solution);
    }
}

#[test]
fn test_selection_nsga_size() {
    let mo = MultiObjective::<Tuple, i64>::new(&[&Objective1, &Objective2]);
    let solutions: Vec<Tuple> = (0..30usize).map(|i| Tuple((i * 7) % 11, (i * 5) % 13)).collect();
    for n in 0..40 {
        let selected = selection_nsga(&solutions, n, &mo);
        assert_eq!(n.min(solutions.len()), selected.len());
        // No solution is selected twice.
        let mut indices: Vec<usize> = selected.iter().map(|s| s.index).collect();
        indices.sort();
        indices.dedup();
        assert_eq!(selected.len(), indices.len());
        // Ranks never go down.
        assert!(selected.windows(2).all(|w| w[0].rank <= w[1].rank));
    }
}

#[test]
fn test_selection_nsga_of_nothing() {
    let mo = MultiObjective::<Tuple, i64>::new(&[&Objective1, &Objective2]);
    let solutions: Vec<Tuple> = Vec::new();
    assert!(selection_nsga(&solutions, 5, &mo).is_empty());
    assert!(selection_nsga(&get_solutions(), 0, &mo).is_empty());
}

#[test]
fn test_selection_nsga_prefers_isolated_solutions() {
    // One front of five solutions on a line; three are asked for. The
    // extremes are infinite. Of the others, solution 2 has neighbours 1 and 4,
    // which are furthest apart.
    let mo = MultiObjective::<Tuple, i64>::new(&[&Objective1, &Objective2]);
    let solutions =
        vec![Tuple(0, 100), Tuple(10, 90), Tuple(50, 50), Tuple(95, 5), Tuple(100, 0)];
    let selected = selection_nsga(&solutions, 3, &mo);
    let indices: Vec<usize> = selected.iter().map(|s| s.index).collect();
    assert_eq!(vec![4, 0, 2], indices);
    assert_eq!(Crowding::Infinite, selected[0].crowding_distance);
    assert_eq!(Crowding::Infinite, selected[1].crowding_distance);
    // Two objectives, spread 100 each, neighbours 85 apart under both:
    // 2 * 85 / (2 * 100).
    assert_eq!(Crowding::Finite(2 * (85 * CROWDING_UNIT / 200)), selected[2].crowding_distance);
    assert!(selected.iter().all(|s| s.rank == 0));
}

#[test]
fn test_selection_nsga_whole_population() {
    let mo = MultiObjective::<Tuple, i64>::new(&[&Objective1, &Objective2]);
    let solutions = get_solutions();
    let selected = selection_nsga(&solutions, 100, &mo);
    assert_eq!(5, selected.len());
    let ranks: Vec<usize> = selected.iter().map(|s| s.rank).collect();
    assert_eq!(vec![0, 0, 1, 1, 2], ranks);
    assert_eq!(3, selected[4].index);
}
