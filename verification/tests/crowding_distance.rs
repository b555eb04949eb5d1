use nsga2::crowding_distance::{
    assign_crowding_distance, crowding_entries, magnitude, share, Crowding, CROWDING_UNIT,
};
use nsga2::multi_objective::MultiObjective;
use nsga2::non_dominated_sort::non_dominated_sort;
use nsga2::objective::Objective;
use std::cmp::Ordering;

#[derive(Debug, Eq, PartialEq, Copy, Clone)]
struct Tuple(usize, usize);

struct Objective1;
struct Objective2;

impl Objective<Tuple, i64> for Objective1 {
    fn total_order(&self, a: &Tuple, b: &Tuple) -> Ordering {
        a.0.cmp(&b.0)
    }

    fn distance(&self, a: &Tuple, b: &Tuple) -> i64 {
        (a.0 as i64) - (b.0 as i64)
    }
}

impl Objective<Tuple, i64> for Objective2 {
    fn total_order(&self, a: &Tuple, b: &Tuple) -> Ordering {
        a.1.cmp(&b.1)
    }

    fn distance(&self, a: &Tuple, b: &Tuple) -> i64 {
        (a.1 as i64) - (b.1 as i64)
    }
}

#[test]
fn test_crowding_distance() {
    // construct a multi objective over a Tuple
    let mo = MultiObjective::<Tuple, i64>::new(&[&Objective1, &Objective2]);

    let a = Tuple(1, 3);
    let b = Tuple(3, 1);
    let c = Tuple(3, 3);
    let d = Tuple(2, 2);

    let solutions = vec![a, b, c, d];

    let fronts = non_dominated_sort(&solutions, &mo, solutions.len());
    assert_eq!(2, fronts.len());
    let f0 = &fronts[0];
    let f1 = &fronts[1];

    assert_eq!(3, f0.len());
    assert_eq!(&a, f0[0].1);
    assert_eq!(&b, f0[1].1);
    assert_eq!(&d, f0[2].1);
    assert_eq!(1, f1.len());
    assert_eq!(&c, f1[0].1);

    let (crowding, stat) = assign_crowding_distance(f0, 0, &mo);

    assert_eq!(2, stat.len());
    assert_eq!(2, stat[0].spread);
    assert_eq!(2, stat[1].spread);

    // Same number as solutions in front
    assert_eq!(3, crowding.len());
    // All have rank 0
    assert_eq!(0, crowding[0].rank);
    assert_eq!(0, crowding[1].rank);
    assert_eq!(0, crowding[2].rank);

    let ca = crowding.iter().find(|i| i.solution.eq(&a)).unwrap();
    let cb = crowding.iter().find(|i| i.solution.eq(&b)).unwrap();
    let cd = crowding.iter().find(|i| i.solution.eq(&d)).unwrap();

    assert_eq!(Crowding::Infinite, ca.crowding_distance);
    assert_eq!(Crowding::Infinite, cb.crowding_distance);

    // only cd is in the middle. spread is in both dimensions the same
    // (2). norm is 1 / (spread * #objectives) = 1 / 4. As we
    // add two times one half, the crowding distance should be one.
    assert_eq!(Crowding::Finite(CROWDING_UNIT), cd.crowding_distance);
    assert_eq!(0, ca.index);
    assert_eq!(1, cb.index);
    assert_eq!(3, cd.index);
}

#[test]
fn test_crowding_of_small_fronts() {
    let mo = MultiObjective::<Tuple, i64>::new(&[&Objective1, &Objective2]);
    let a = Tuple(1, 3);
    let b = Tuple(3, 1);

    // One solution: it is both extremes.
    let (crowding, _) = assign_crowding_distance(&[(0, &a)], 7, &mo);
    assert_eq!(1, crowding.len());
    assert_eq!(Crowding::Infinite, crowding[0].crowding_distance);
    assert_eq!(7, crowding[0].rank);

    // Two solutions: both are extremes.
    let (crowding, stat) = assign_crowding_distance(&[(0, &a), (1, &b)], 0, &mo);
    assert_eq!(2, crowding.len());
    assert!(crowding.iter().all(|c| c.crowding_distance == Crowding::Infinite));
    assert_eq!(2, stat[0].spread);
}

#[test]
fn test_crowding_with_zero_spread() {
    // All solutions agree on the first component: that objective adds nothing.
    let mo = MultiObjective::<Tuple, i64>::new(&[&Objective1, &Objective2]);
    let solutions = [Tuple(5, 0), Tuple(5, 4), Tuple(5, 1), Tuple(5, 3)];
    let front: Vec<(usize, &Tuple)> = solutions.iter().enumerate().collect();
    let (crowding, stat) = assign_crowding_distance(&front, 0, &mo);
    assert_eq!(0, stat[0].spread);
    assert_eq!(4, stat[1].spread);
    let of = |index: usize| crowding.iter().find(|c| c.index == index).unwrap().crowding_distance;
    // Sorted by the first objective the front keeps its order: 0 and 3 are
    // the extremes there. Sorted by the second: 0, 2, 3, 1.
    assert_eq!(Crowding::Infinite, of(0));
    assert_eq!(Crowding::Infinite, of(3));
    assert_eq!(Crowding::Infinite, of(1));
    // Solution 2 lies between 0 and 3: |3 - 0| / (2 * 4) = 3 / 8.
    assert_eq!(Crowding::Finite(3 * CROWDING_UNIT / 8), of(2));
    // The entries come in the order of the last objective.
    let order: Vec<usize> = crowding.iter().map(|c| c.index).collect();
    assert_eq!(vec![0, 2, 3, 1], order);
}

#[test]
fn test_crowding_without_objectives() {
    let mo = MultiObjective::<Tuple, i64>::new(&[]);
    let solutions = [Tuple(5, 0), Tuple(5, 4), Tuple(1, 1)];
    let front: Vec<(usize, &Tuple)> = solutions.iter().enumerate().collect();
    let (entries, stat) = crowding_entries(&front, &mo);
    assert!(stat.is_empty());
    assert_eq!(3, entries.len());
    for (place, entry) in entries.iter().enumerate() {
        assert_eq!(place, entry.position);
        assert_eq!(Crowding::Finite(0), entry.distance);
    }
}

#[test]
fn test_at_least_two_extremes() {
    let mo = MultiObjective::<Tuple, i64>::new(&[&Objective1, &Objective2]);
    for len in 2..12usize {
        let solutions: Vec<Tuple> = (0..len).map(|i| Tuple(i, len - i)).collect();
        let front: Vec<(usize, &Tuple)> = solutions.iter().enumerate().collect();
        let (crowding, _) = assign_crowding_distance(&front, 0, &mo);
        let infinite = crowding.iter().filter(|c| c.crowding_distance.is_infinite()).count();
        assert!(infinite >= 2);
        assert_eq!(len, crowding.len());
    }
}

#[test]
fn test_magnitude_and_share() {
    assert_eq!(0, magnitude(0));
    assert_eq!(5, magnitude(5));
    assert_eq!(5, magnitude(-5));
    assert_eq!(1u64 << 63, magnitude(i64::MIN));
    assert_eq!(i64::MAX as u64, magnitude(i64::MAX));

    assert_eq!(CROWDING_UNIT / 2, share(2, 2, 2));
    assert_eq!(CROWDING_UNIT, share(3, 3, 1));
    assert_eq!(0, share(0, 7, 3));
    // 1 / 3 of a unit, rounded down.
    assert_eq!(1431655765, share(1, 1, 3));
    assert_eq!((u64::MAX as u128) << 32, share(u64::MAX, 1, 1));
}

#[test]
fn test_crowding_order() {
    let small = Crowding::Finite(1);
    let large = Crowding::Finite(2);
    assert!(large.is_larger_than(&small));
    assert!(!small.is_larger_than(&large));
    assert!(!small.is_larger_than(&small));
    assert!(Crowding::Infinite.is_larger_than(&large));
    assert!(!large.is_larger_than(&Crowding::Infinite));
    assert!(!Crowding::Infinite.is_larger_than(&Crowding::Infinite));
    assert!(Crowding::Infinite.is_infinite());
    assert!(!small.is_infinite());
}
