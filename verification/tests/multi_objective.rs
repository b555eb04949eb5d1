use nsga2::domination::DominationOrd;
use nsga2::multi_objective::MultiObjective;
use nsga2::objective::Objective;
use nsga2::verdict::Verdict;
use std::cmp::Ordering;

#[derive(Debug, Eq, PartialEq, Copy, Clone)]
struct Tuple(usize, usize);

struct Objective1;
struct Objective2;
struct Objective3;

impl Objective<Tuple, f64> for Objective1 {
    fn total_order(&self, a: &Tuple, b: &Tuple) -> Ordering {
        a.0.cmp(&b.0)
    }

    fn distance(&self, a: &Tuple, b: &Tuple) -> f64 {
        (a.0 as f64) - (b.0 as f64)
    }
}

impl Objective<Tuple, f64> for Objective2 {
    fn total_order(&self, a: &Tuple, b: &Tuple) -> Ordering {
        a.1.cmp(&b.1)
    }

    fn distance(&self, a: &Tuple, b: &Tuple) -> f64 {
        (a.1 as f64) - (b.1 as f64)
    }
}

impl Objective<Tuple, f64> for Objective3 {
    fn total_order(&self, a: &Tuple, b: &Tuple) -> Ordering {
        (a.0 + a.1).cmp(&(b.0 + b.1))
    }

    fn distance(&self, a: &Tuple, b: &Tuple) -> f64 {
        (a.0 + a.1) as f64 - (b.0 + b.1) as f64
    }
}

#[test]
fn test_multi_objective() {
    // construct a multi objective over a Tuple
    let mo = MultiObjective::<Tuple, f64>::new(&[&Objective1, &Objective2, &Objective3]);

    let a = Tuple(1, 2);
    let b = Tuple(2, 1);
    let c = Tuple(1, 3);

    assert_eq!(Ordering::Equal, mo.domination_ord(&a, &a));
    assert_eq!(Ordering::Equal, mo.domination_ord(&a, &b));
    assert_eq!(Ordering::Equal, mo.domination_ord(&b, &b));

    assert_eq!(Ordering::Less, mo.domination_ord(&a, &c));
    assert_eq!(Ordering::Greater, mo.domination_ord(&c, &a));
}

#[test]
fn test_compare_agrees_with_domination_ord() {
    let mo = MultiObjective::<Tuple, f64>::new(&[&Objective1, &Objective2]);
    let a = Tuple(1, 2);
    let b = Tuple(2, 1);
    let c = Tuple(1, 3);

    assert_eq!(Verdict::Equal, mo.compare(&a, &b));
    assert_eq!(Verdict::Less, mo.compare(&a, &c));
    assert_eq!(Verdict::Greater, mo.compare(&c, &a));
    assert!(mo.dominates(&a, &c));
    assert!(!mo.dominates(&c, &a));
}

#[test]
fn test_dominance_is_asymmetric_and_reflexive_on_a_grid() {
    let mo = MultiObjective::<Tuple, f64>::new(&[&Objective1, &Objective2]);
    for x in 0..4 {
        for y in 0..4 {
            let a = Tuple(x, y);
            assert_eq!(Verdict::Equal, mo.compare(&a, &a));
            for u in 0..4 {
                for v in 0..4 {
                    let b = Tuple(u, v);
                    assert!(!(mo.dominates(&a, &b) && mo.dominates(&b, &a)));
                    assert_eq!(mo.compare(&a, &b).reverse(), mo.compare(&b, &a));
                }
            }
        }
    }
}

#[test]
fn test_no_objectives_never_dominate() {
    let mo = MultiObjective::<Tuple, f64>::new(&[]);
    assert_eq!(Verdict::Equal, mo.compare(&Tuple(0, 0), &Tuple(5, 5)));
}

#[test]
fn test_verdict_from_counts() {
    assert_eq!(Verdict::Less, Verdict::from_counts(2, 0));
    assert_eq!(Verdict::Greater, Verdict::from_counts(0, 1));
    assert_eq!(Verdict::Equal, Verdict::from_counts(0, 0));
    assert_eq!(Verdict::Equal, Verdict::from_counts(3, 1));
    assert_eq!(Ordering::Less, Verdict::Less.to_ordering());
    assert_eq!(Verdict::Greater, Verdict::from_ordering(Ordering::Greater));
    assert_eq!(Verdict::Greater, Verdict::Less.reverse());
    assert_eq!(Verdict::Equal, Verdict::Equal.reverse());
}
