use nsga2::driver::{Driver, DriverConfig};
use nsga2::multi_objective::MultiObjective;
use nsga2::objective::Objective;
use nsga2::population::{RankedPopulation, SelectionPolicy};
use rand::{Closed01, Rng, SeedableRng, StdRng};
use std::cmp::Ordering;

/// The first ZDT function with its `g` held at one, where every genome lies on
/// the optimal pareto front (f_1, 1 - sqrt(f_1)).
/// 0 <= x[i] <= 1.0
fn zdt1(x: &[f32]) -> (f32, f32) {
    let f1 = x[0];
    let g = 1.0;
    let f2 = g * (1.0 - (f1 / g).sqrt());
    (f1, f2)
}

fn sbx_beta_bounded(u: f32, eta: f32, gamma: f32) -> f32 {
    let g = 1.0 - gamma;
    let ug = u * g;
    if u <= 0.5 / g {
        2.0 * ug
    } else {
        1.0 / (2.0 * (1.0 - ug))
    }
    .powf(1.0 / (eta + 1.0))
}

fn gamma(beta: f32, eta: f32) -> f32 {
    1.0 / (2.0 * beta.powf(eta + 1.0))
}

fn sbx_ordered(rng: &mut StdRng, p: (f32, f32), bounds: (f32, f32), eta: f32) -> (f32, f32) {
    let (a, b) = bounds;
    let p_diff = p.1 - p.0;
    let beta_a = 1.0 + (p.0 - a) / p_diff;
    let beta_b = 1.0 + (b - p.1) / p_diff;
    let u = rng.gen::<f32>();
    let beta_ua = sbx_beta_bounded(u, eta, gamma(beta_a, eta));
    let beta_ub = sbx_beta_bounded(u, eta, gamma(beta_b, eta));
    let c = (
        0.5 * (((1.0 + beta_ua) * p.0) + ((1.0 - beta_ua) * p.1)),
        0.5 * (((1.0 - beta_ub) * p.0) + ((1.0 + beta_ub) * p.1)),
    );
    (c.0.max(a).min(b), c.1.max(a).min(b))
}

fn sbx(rng: &mut StdRng, p: (f32, f32), bounds: (f32, f32), eta: f32) -> (f32, f32) {
    if p.0 < p.1 {
        sbx_ordered(rng, (p.0, p.1), bounds, eta)
    } else if p.0 > p.1 {
        let r = sbx_ordered(rng, (p.1, p.0), bounds, eta);
        (r.1, r.0)
    } else {
        (p.0, p.1)
    }
}

type ZdtGenome = Vec<f32>;
type ZdtFitness = (f32, f32);

struct ZdtObjective1;
struct ZdtObjective2;

fn steps(distance: f32) -> i64 {
    (distance as f64 * 1e9).round() as i64
}

impl Objective<ZdtFitness, i64> for ZdtObjective1 {
    fn total_order(&self, a: &ZdtFitness, b: &ZdtFitness) -> Ordering {
        a.0.partial_cmp(&b.0).unwrap()
    }

    fn distance(&self, a: &ZdtFitness, b: &ZdtFitness) -> i64 {
        steps(a.0 - b.0)
    }
}

impl Objective<ZdtFitness, i64> for ZdtObjective2 {
    fn total_order(&self, a: &ZdtFitness, b: &ZdtFitness) -> Ordering {
        a.1.partial_cmp(&b.1).unwrap()
    }

    fn distance(&self, a: &ZdtFitness, b: &ZdtFitness) -> i64 {
        steps(a.1 - b.1)
    }
}

struct ZdtDriver {
    zdt_order: usize,
    mating_eta: f32,
}

impl Driver for ZdtDriver {
    type GENOME = ZdtGenome;
    type FIT = ZdtFitness;

    fn random_genome(&self, rng: &mut StdRng) -> ZdtGenome {
        (0..self.zdt_order).map(|_| rng.gen::<Closed01<f32>>().0).collect()
    }

    fn fitness(&self, individual: &ZdtGenome) -> ZdtFitness {
        zdt1(&individual[..])
    }

    fn mate(&self, rng: &mut StdRng, parent1: &ZdtGenome, parent2: &ZdtGenome) -> ZdtGenome {
        let mut child = Vec::with_capacity(parent1.len());
        for (&x1, &x2) in parent1.iter().zip(parent2.iter()) {
            child.push(sbx(rng, (x1, x2), (0.0, 1.0), self.mating_eta).0);
        }
        child
    }
}

#[test]
fn test_zdt1_converges_to_the_front() {
    let seed: &[usize] = &[1, 2, 3, 4];
    let mut rng = StdRng::from_seed(seed);
    let driver = ZdtDriver { zdt_order: 2, mating_eta: 2.0 };
    let config = DriverConfig { mu: 100, lambda: 100, k: 2, ngen: 100, objectives: vec![0, 1] };
    let mo = MultiObjective::new(&[&ZdtObjective1, &ZdtObjective2]);
    let logger = |_: usize, _: u64, _: usize, _: &RankedPopulation<ZdtGenome, ZdtFitness>| {};
    let parents = driver.run(&mut rng, &config, &mo, &SelectionPolicy::Nsga, &logger);

    assert_eq!(100, parents.len());
    assert!(parents.max_rank().is_some());
    for individual in parents.individuals() {
        assert!(individual.genome().iter().all(|&x| (0.0..=1.0).contains(&x)));
    }
    let front: Vec<ZdtFitness> = parents
        .individuals()
        .iter()
        .filter(|i| i.rank() == 0)
        .map(|i| *i.fitness())
        .collect();
    assert!(!front.is_empty());
    for (f0, f1) in front {
        assert!((f1 - (1.0 - f0.sqrt())).abs() < 0.05);
    }
}
