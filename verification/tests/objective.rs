use nsga2::objective::Objective;
use std::cmp::Ordering;

// Our multi-variate fitness/solution value
#[derive(Debug, Eq, PartialEq, Copy, Clone)]
pub struct Tuple(pub usize, pub usize);

// We define three objectives
pub struct Objective1;
pub struct Objective2;
pub struct Objective3;

impl Objective<Tuple, f64> for Objective1 {
    fn total_order(&self, a: &Tuple, b: &Tuple) -> Ordering {
        a.0.cmp(&b.0)
    }

    fn distance(&self, a: &Tuple, b: &Tuple) -> f64 {
        (a.0 as f64) - (b.0 as f64)
    }
}

impl Objective<Tuple, f64> for Objective2 {
    fn total_order(&self, a: &Tuple, b: &Tuple) -> Ordering {
        a.1.cmp(&b.1)
    }

    fn distance(&self, a: &Tuple, b: &Tuple) -> f64 {
        (a.1 as f64) - (b.1 as f64)
    }
}

// Objective3 is defined on the sum of the tuple values.
impl Objective<Tuple, f64> for Objective3 {
    fn total_order(&self, a: &Tuple, b: &Tuple) -> Ordering {
        (a.0 + a.1).cmp(&(b.0 + b.1))
    }

    fn distance(&self, a: &Tuple, b: &Tuple) -> f64 {
        (a.0 + a.1) as f64 - (b.0 + b.1) as f64
    }
}

#[test]
fn test_objectives() {
    let a = &Tuple(1, 2);
    let b = &Tuple(2, 1);
    assert_eq!(Ordering::Less, Objective1.total_order(a, b));
    assert_eq!(Ordering::Greater, Objective2.total_order(a, b));
    assert_eq!(Ordering::Equal, Objective3.total_order(a, b));

    assert_eq!(-1.0, Objective1.distance(a, b));
    assert_eq!(1.0, Objective2.distance(a, b));
    assert_eq!(0.0, Objective3.distance(a, b));
}
