use nsga2::domination::DominationOrd;
use nsga2::multi_objective::MultiObjective;
use nsga2::objective::Objective;
use nsga2::prob::Prob;
use nsga2::prob_domination::{flip_coins, ProbabilisticDominationHelper};
use nsga2::verdict::Verdict;
use rand::{SeedableRng, StdRng};
use std::cmp::Ordering;

#[derive(Debug, PartialEq, Copy, Clone)]
struct Pair(f32, f32);

struct First;
struct Second;

impl Objective<Pair, f32> for First {
    fn total_order(&self, a: &Pair, b: &Pair) -> Ordering {
        a.0.partial_cmp(&b.0).unwrap()
    }

    fn distance(&self, a: &Pair, b: &Pair) -> f32 {
        a.0 - b.0
    }
}

impl Objective<Pair, f32> for Second {
    fn total_order(&self, a: &Pair, b: &Pair) -> Ordering {
        a.1.partial_cmp(&b.1).unwrap()
    }

    fn distance(&self, a: &Pair, b: &Pair) -> f32 {
        a.1 - b.1
    }
}

fn seeded() -> StdRng {
    let seed: &[usize] = &[1, 2, 3, 4];
    StdRng::from_seed(seed)
}

#[test]
fn test_probabilistic_domination() {
    let mo = MultiObjective::<Pair, f32>::new(&[&First, &Second]);
    let m12 = Pair(1.0, 2.0);
    let m21 = Pair(2.0, 1.0);
    let m13 = Pair(1.0, 3.0);
    let m02 = Pair(0.0, 2.0);

    {
        assert_eq!(Ordering::Equal, mo.domination_ord(&m12, &m12));
        assert_eq!(Ordering::Equal, mo.domination_ord(&m12, &m21));
        assert_eq!(Ordering::Less, mo.domination_ord(&m12, &m13));
        assert_eq!(Ordering::Less, mo.domination_ord(&m02, &m12));
        assert_eq!(Ordering::Greater, mo.domination_ord(&m13, &m12));
        assert_eq!(Ordering::Greater, mo.domination_ord(&m12, &m02));
    }

    {
        let mut rng = seeded();
        let objective_probs = [Prob::new(1, 1), Prob::new(1, 1)];
        let mut prob_domination = ProbabilisticDominationHelper::new(&objective_probs, &mut rng);

        assert_eq!(Ordering::Equal, prob_domination.domination_ord(&mo, &m12, &m12));
        assert_eq!(Ordering::Equal, prob_domination.domination_ord(&mo, &m12, &m21));
        assert_eq!(Ordering::Less, prob_domination.domination_ord(&mo, &m12, &m13));
        assert_eq!(Ordering::Less, prob_domination.domination_ord(&mo, &m02, &m12));
        assert_eq!(Ordering::Greater, prob_domination.domination_ord(&mo, &m13, &m12));
        assert_eq!(Ordering::Greater, prob_domination.domination_ord(&mo, &m12, &m02));
    }

    {
        let mut rng = seeded();
        let objective_probs = [Prob::new(1, 1), Prob::new(0, 1)];
        let mut prob_domination = ProbabilisticDominationHelper::new(&objective_probs, &mut rng);

        assert_eq!(Ordering::Equal, prob_domination.domination_ord(&mo, &m12, &m12));
        assert_eq!(Ordering::Less, prob_domination.domination_ord(&mo, &m12, &m21));
        assert_eq!(Ordering::Equal, prob_domination.domination_ord(&mo, &m12, &m13));
        assert_eq!(Ordering::Less, prob_domination.domination_ord(&mo, &m02, &m12));
        assert_eq!(Ordering::Equal, prob_domination.domination_ord(&mo, &m13, &m12));
        assert_eq!(Ordering::Greater, prob_domination.domination_ord(&mo, &m12, &m02));
    }

    {
        let mut rng = seeded();
        let objective_probs = [Prob::new(0, 1), Prob::new(1, 1)];
        let mut prob_domination = ProbabilisticDominationHelper::new(&objective_probs, &mut rng);

        assert_eq!(Ordering::Equal, prob_domination.domination_ord(&mo, &m12, &m12));
        assert_eq!(Ordering::Greater, prob_domination.domination_ord(&mo, &m12, &m21));
        assert_eq!(Ordering::Less, prob_domination.domination_ord(&mo, &m12, &m13));
        assert_eq!(Ordering::Equal, prob_domination.domination_ord(&mo, &m02, &m12));
        assert_eq!(Ordering::Greater, prob_domination.domination_ord(&mo, &m13, &m12));
        assert_eq!(Ordering::Equal, prob_domination.domination_ord(&mo, &m12, &m02));
    }

    {
        let mut rng = seeded();
        let objective_probs = [Prob::new(0, 1), Prob::new(0, 1)];
        let mut prob_domination = ProbabilisticDominationHelper::new(&objective_probs, &mut rng);

        assert_eq!(Ordering::Equal, prob_domination.domination_ord(&mo, &m12, &m12));
        assert_eq!(Ordering::Equal, prob_domination.domination_ord(&mo, &m12, &m21));
        assert_eq!(Ordering::Equal, prob_domination.domination_ord(&mo, &m12, &m13));
        assert_eq!(Ordering::Equal, prob_domination.domination_ord(&mo, &m02, &m12));
        assert_eq!(Ordering::Equal, prob_domination.domination_ord(&mo, &m13, &m12));
        assert_eq!(Ordering::Equal, prob_domination.domination_ord(&mo, &m12, &m02));
    }
}

#[test]
fn test_compare_selected() {
    let mo = MultiObjective::<Pair, f32>::new(&[&First, &Second]);
    let m12 = Pair(1.0, 2.0);
    let m21 = Pair(2.0, 1.0);
    assert_eq!(Verdict::Equal, mo.compare_selected(&m12, &m21, &[true, true]));
    assert_eq!(Verdict::Less, mo.compare_selected(&m12, &m21, &[true, false]));
    assert_eq!(Verdict::Greater, mo.compare_selected(&m12, &m21, &[false, true]));
    assert_eq!(Verdict::Equal, mo.compare_selected(&m12, &m21, &[false, false]));
    // Objectives beyond the end of the marks take no part.
    assert_eq!(Verdict::Less, mo.compare_selected(&m12, &m21, &[true]));
    assert_eq!(Verdict::Equal, mo.compare_selected(&m12, &m21, &[]));
    // Marks beyond the objectives are of no account.
    assert_eq!(Verdict::Equal, mo.compare_selected(&m12, &m21, &[true, true, true]));
}

#[test]
fn test_selected_objectives() {
    let mo = MultiObjective::<Pair, f32>::new(&[&First, &Second]);
    let m12 = Pair(1.0, 2.0);
    let m21 = Pair(2.0, 1.0);
    assert_eq!(2, mo.len());
    assert_eq!(2, mo.objectives().len());
    assert_eq!(&[0, 1], mo.selected());
    let first = mo.select(&[0]).unwrap();
    assert_eq!(1, first.len());
    assert_eq!(2, first.objectives().len());
    assert_eq!(&[0], first.selected());
    assert_eq!(Verdict::Less, first.compare(&m12, &m21));
    let second = mo.select(&[1]).unwrap();
    assert_eq!(Verdict::Greater, second.compare(&m12, &m21));
    assert_eq!(Verdict::Greater, second.order(0, &m12, &m21));
    assert_eq!(1.0, second.gap(0, &m12, &m21));
    let swapped = mo.select(&[1, 0]).unwrap();
    assert_eq!(Verdict::Greater, swapped.order(0, &m12, &m21));
    assert_eq!(Verdict::Less, swapped.order(1, &m12, &m21));
    assert_eq!(Verdict::Equal, swapped.compare(&m12, &m21));
    let none = mo.select(&[]).unwrap();
    assert_eq!(Verdict::Equal, none.compare(&m12, &m21));
    assert!(mo.select(&[0, 2]).is_none());
    // A selection of a selection still indexes the whole list.
    assert_eq!(Verdict::Less, second.select(&[0]).unwrap().compare(&m12, &m21));
}

#[test]
fn test_flip_coins() {
    let mut rng = seeded();
    let probs = [Prob::new(1, 1), Prob::new(0, 5), Prob::new(3, 3), Prob::new(1, 2)];
    for _ in 0..50 {
        let heads = flip_coins(&probs, 4, &mut rng);
        assert_eq!(4, heads.len());
        assert!(heads[0]);
        assert!(!heads[1]);
        assert!(heads[2]);
    }
    assert_eq!(2, flip_coins(&probs, 2, &mut rng).len());
    assert_eq!(4, flip_coins(&probs, 9, &mut rng).len());
    assert!(flip_coins(&probs, 0, &mut rng).is_empty());
}

#[test]
fn test_prob_shows() {
    let p = Prob::new(3, 10);
    assert!(p.shows(0));
    assert!(p.shows(2));
    assert!(!p.shows(3));
    assert!(!p.shows(9));
    assert!(!Prob::new(0, 1).shows(0));
    assert!(Prob::new(1, 1).shows(0));
}

#[test]
fn test_fair_coin_shows_both_sides() {
    let mut rng = seeded();
    let p = Prob::new(1, 2);
    let heads = (0..1000).filter(|_| p.flip(&mut rng)).count();
    assert!(heads > 400 && heads < 600);
}

#[test]
fn test_probabilistic_sort() {
    let mo = MultiObjective::<Pair, f32>::new(&[&First, &Second]);
    let solutions =
        vec![Pair(1.0, 2.0), Pair(1.0, 2.0), Pair(2.0, 1.0), Pair(1.0, 3.0), Pair(0.0, 2.0)];
    // With both objectives certain the sort is the plain one.
    {
        let mut rng = seeded();
        let probs = [Prob::new(1, 1), Prob::new(1, 1)];
        let mut helper = ProbabilisticDominationHelper::new(&probs, &mut rng);
        let mut sorter = helper.sort(&mo, &solutions);
        assert_eq!(Some(vec![2, 4]), sorter.next());
        assert_eq!(Some(vec![0, 1]), sorter.next());
        assert_eq!(Some(vec![3]), sorter.next());
        assert_eq!(None, sorter.next());
    }
    // With the first objective alone only the smallest first part is in front.
    {
        let mut rng = seeded();
        let probs = [Prob::new(1, 1), Prob::new(0, 1)];
        let mut helper = ProbabilisticDominationHelper::new(&probs, &mut rng);
        let mut sorter = helper.sort(&mo, &solutions);
        assert_eq!(Some(vec![4]), sorter.next());
        assert_eq!(Some(vec![0, 1, 3]), sorter.next());
        assert_eq!(Some(vec![2]), sorter.next());
        assert_eq!(None, sorter.next());
    }
    // With no objective nothing dominates.
    {
        let mut rng = seeded();
        let probs = [Prob::new(0, 1), Prob::new(0, 1)];
        let mut helper = ProbabilisticDominationHelper::new(&probs, &mut rng);
        let mut sorter = helper.sort(&mo, &solutions);
        assert_eq!(Some(vec![0, 1, 2, 3, 4]), sorter.next());
        assert_eq!(None, sorter.next());
    }
}
