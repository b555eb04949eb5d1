use nsga2::domination::{Domination, DominationOrd};
use nsga2::non_dominated_sort::{non_dominated_sort, NonDominatedSorter};
use nsga2::sort::{fast_non_dominated_sort, FastNonDominatedSorter};
use std::cell::Cell;
use std::cmp::Ordering;

#[derive(Debug, Eq, PartialEq, Copy, Clone)]
struct Tuple(usize, usize);

struct TupleDominationOrd;

fn tuple_order(a: &Tuple, b: &Tuple) -> Ordering {
    if a.0 < b.0 && a.1 <= b.1 {
        Ordering::Less
    } else if a.0 <= b.0 && a.1 < b.1 {
        Ordering::Less
    } else if a.0 > b.0 && a.1 >= b.1 {
        Ordering::Greater
    } else if a.0 >= b.0 && a.1 > b.1 {
        Ordering::Greater
    } else {
        Ordering::Equal
    }
}

impl DominationOrd for TupleDominationOrd {
    type Solution = Tuple;

    fn domination_ord(&self, a: &Tuple, b: &Tuple) -> Ordering {
        tuple_order(a, b)
    }
}

impl Domination for Tuple {
    fn domination_ord(&self, rhs: &Self, objectives: &[usize]) -> Ordering {
        let mut less = 0;
        let mut greater = 0;
        for &objective in objectives {
            let (l, r) = if objective == 0 { (self.0, rhs.0) } else { (self.1, rhs.1) };
            if l < r {
                less += 1;
            } else if l > r {
                greater += 1;
            }
        }
        if less > 0 && greater == 0 {
            Ordering::Less
        } else if greater > 0 && less == 0 {
            Ordering::Greater
        } else {
            Ordering::Equal
        }
    }
}

/// Counts how often it is asked.
struct Counting {
    calls: Cell<usize>,
}

impl DominationOrd for Counting {
    type Solution = Tuple;

    fn domination_ord(&self, a: &Tuple, b: &Tuple) -> Ordering {
        self.calls.set(self.calls.get() + 1);
        tuple_order(a, b)
    }
}

fn get_solutions() -> Vec<Tuple> {
    vec![Tuple(1, 2), Tuple(1, 2), Tuple(2, 1), Tuple(1, 3), Tuple(0, 2)]
}

fn keep_only_index(front: &[(usize, &Tuple)]) -> Vec<usize> {
    front.iter().map(|&(i, _)| i).collect()
}

fn assert_front_eq(expected: &[usize], front: &[(usize, &Tuple)]) {
    assert_eq!(expected.to_owned(), keep_only_index(front));
}

#[test]
fn test_non_dominated_sort() {
    let solutions = get_solutions();
    let fronts = non_dominated_sort(&solutions, &TupleDominationOrd, solutions.len());

    assert_eq!(3, fronts.len());
    assert_front_eq(&[2, 4], &fronts[0]);
    assert_front_eq(&[0, 1], &fronts[1]);
    assert_front_eq(&[3], &fronts[2]);
}

#[test]
fn test_non_dominated_sort_iter() {
    let solutions = get_solutions();
    let mut fronts = NonDominatedSorter::new(&solutions, &TupleDominationOrd);
    let f = &|front: Vec<_>| keep_only_index(&front);

    assert_eq!(Some(vec![2, 4]), fronts.next().map(f));
    assert_eq!(Some(vec![0, 1]), fronts.next().map(f));
    assert_eq!(Some(vec![3]), fronts.next().map(f));
    assert_eq!(None, fronts.next().map(f));
    // Asking again after the end yields nothing, and does not fail.
    assert_eq!(None, fronts.next().map(f));
}

#[test]
fn test_fronts_carry_their_solutions() {
    let solutions = get_solutions();
    let fronts = non_dominated_sort(&solutions, &TupleDominationOrd, solutions.len());
    for front in &fronts {
        for &(index, solution) in front {
            assert_eq!(&solutions[index], solution);
        }
    }
}

#[test]
fn test_sort_stops_at_the_cap() {
    let solutions = get_solutions();
    // The first front holds two solutions: caps of 0, 1 and 2 all end there.
    for cap in 0..3 {
        let fronts = non_dominated_sort(&solutions, &TupleDominationOrd, cap);
        assert_eq!(1, fronts.len());
        assert_front_eq(&[2, 4], &fronts[0]);
    }
    let fronts = non_dominated_sort(&solutions, &TupleDominationOrd, 3);
    assert_eq!(2, fronts.len());
    let fronts = non_dominated_sort(&solutions, &TupleDominationOrd, 100);
    assert_eq!(3, fronts.len());
}

#[test]
fn test_sort_of_nothing() {
    let solutions: Vec<Tuple> = Vec::new();
    let fronts = non_dominated_sort(&solutions, &TupleDominationOrd, 10);
    assert!(fronts.is_empty());
    let mut sorter = NonDominatedSorter::new(&solutions, &TupleDominationOrd);
    assert!(sorter.next().is_none());
}

#[test]
fn test_every_pair_is_compared_once() {
    for n in 0..12usize {
        let solutions: Vec<Tuple> = (0..n).map(|i| Tuple(i % 4, (7 * i) % 5)).collect();
        let counting = Counting { calls: Cell::new(0) };
        let mut sorter = NonDominatedSorter::new(&solutions, &counting);
        assert_eq!(n * n.saturating_sub(1) / 2, counting.calls.get());
        while sorter.next().is_some() {}
        assert_eq!(n * n.saturating_sub(1) / 2, counting.calls.get());
    }
}

#[test]
fn test_fronts_partition_the_indices() {
    let solutions: Vec<Tuple> = (0..40usize).map(|i| Tuple((i * 7) % 11, (i * 5) % 13)).collect();
    let fronts = non_dominated_sort(&solutions, &TupleDominationOrd, solutions.len());
    let mut seen = vec![0usize; solutions.len()];
    for front in &fronts {
        assert!(!front.is_empty());
        for &(index, _) in front {
            seen[index] += 1;
        }
    }
    assert!(seen.iter().all(|&count| count == 1));
}

#[test]
fn test_later_fronts_are_dominated_by_the_front_before() {
    let solutions: Vec<Tuple> = (0..40usize).map(|i| Tuple((i * 7) % 11, (i * 5) % 13)).collect();
    let fronts = non_dominated_sort(&solutions, &TupleDominationOrd, solutions.len());
    for r in 1..fronts.len() {
        for &(_, q) in &fronts[r] {
            assert!(fronts[r - 1].iter().any(|&(_, p)| TupleDominationOrd.dominates(p, q)));
        }
    }
    for &(_, q) in &fronts[0] {
        assert!(solutions.iter().all(|p| !TupleDominationOrd.dominates(p, q)));
    }
}

#[test]
fn test_fast_non_dominated_sort() {
    let solutions = get_solutions();
    let fronts = fast_non_dominated_sort(&solutions, solutions.len(), &[0, 1]);
    assert_eq!(vec![vec![2, 4], vec![0, 1], vec![3]], fronts);

    // Under the first objective alone only the value 0 is in front.
    let fronts = fast_non_dominated_sort(&solutions, solutions.len(), &[0]);
    assert_eq!(vec![vec![4], vec![0, 1, 3], vec![2]], fronts);

    // With no objective nothing dominates.
    let fronts = fast_non_dominated_sort(&solutions, solutions.len(), &[]);
    assert_eq!(vec![vec![0, 1, 2, 3, 4]], fronts);
}

#[test]
fn test_fast_non_dominated_sorter_with_map() {
    let solutions: Vec<(char, Tuple)> =
        get_solutions().into_iter().map(|tuple| ('x', tuple)).collect();
    let mut sorter = FastNonDominatedSorter::new(&solutions, &|s: &(char, Tuple)| &s.1, &[0, 1]);
    assert_eq!(Some(vec![2, 4]), sorter.next());
    assert_eq!(Some(vec![0, 1]), sorter.next());
    assert_eq!(Some(vec![3]), sorter.next());
    assert_eq!(None, sorter.next());
    assert_eq!(None, sorter.next());
}

#[test]
fn test_order_inside_a_front_follows_the_last_dominator() {
    // Front 0 is [0, 1]. Solution 2 is dominated by solution 1 only, solution 3
    // by solution 0 only: solution 3 is released first.
    let solutions = vec![Tuple(0, 5), Tuple(5, 0), Tuple(6, 1), Tuple(1, 6)];
    let fronts = fast_non_dominated_sort(&solutions, solutions.len(), &[0, 1]);
    assert_eq!(vec![vec![0, 1], vec![3, 2]], fronts);
}
