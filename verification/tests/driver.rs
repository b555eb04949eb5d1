use nsga2::driver::{elapsed, next_step, Driver, DriverConfig, Step};
use nsga2::multi_objective::MultiObjective;
use nsga2::objective::Objective;
use nsga2::population::{RankedPopulation, RatedPopulation, SelectionPolicy, UnratedPopulation};
use nsga2::grouping::Tolerance;
use rand::{Rng, SeedableRng, StdRng};
use std::cell::RefCell;
use std::cmp::Ordering;

type Genome = (i64, i64);
type Fit = (i64, i64);

struct First;
struct Second;

impl Objective<Fit, i64> for First {
    fn total_order(&self, a: &Fit, b: &Fit) -> Ordering {
        a.0.cmp(&b.0)
    }

    fn distance(&self, a: &Fit, b: &Fit) -> i64 {
        a.0 - b.0
    }
}

impl Objective<Fit, i64> for Second {
    fn total_order(&self, a: &Fit, b: &Fit) -> Ordering {
        a.1.cmp(&b.1)
    }

    fn distance(&self, a: &Fit, b: &Fit) -> i64 {
        a.1 - b.1
    }
}

/// Minimize both x^2 and (x - 100)^2, with x the sum of the genome.
struct Problem {
    solved_below: i64,
}

impl Driver for Problem {
    type GENOME = Genome;
    type FIT = Fit;

    fn random_genome(&self, rng: &mut StdRng) -> Genome {
        (rng.gen_range(-1000, 1000), rng.gen_range(-1000, 1000))
    }

    fn fitness(&self, genome: &Genome) -> Fit {
        let x = genome.0 + genome.1;
        (x * x, (x - 100) * (x - 100))
    }

    fn mate(&self, rng: &mut StdRng, a: &Genome, b: &Genome) -> Genome {
        ((a.0 + b.0) / 2 + rng.gen_range(-3, 4), (a.1 + b.1) / 2 + rng.gen_range(-3, 4))
    }

    fn is_solution(&self, _genome: &Genome, fit: &Fit) -> bool {
        fit.0 + fit.1 < self.solved_below
    }
}

/// A problem that keeps every default.
struct Plain;

impl Driver for Plain {
    type GENOME = Genome;
    type FIT = Fit;

    fn random_genome(&self, rng: &mut StdRng) -> Genome {
        (rng.gen_range(0, 100), rng.gen_range(0, 100))
    }

    fn fitness(&self, genome: &Genome) -> Fit {
        *genome
    }

    fn mate(&self, _rng: &mut StdRng, a: &Genome, b: &Genome) -> Genome {
        (a.0, b.1)
    }
}

/// A problem whose population metric overwrites the second fitness value.
struct Flattening;

impl Driver for Flattening {
    type GENOME = Genome;
    type FIT = Fit;

    fn random_genome(&self, rng: &mut StdRng) -> Genome {
        (rng.gen_range(0, 100), rng.gen_range(0, 100))
    }

    fn fitness(&self, genome: &Genome) -> Fit {
        *genome
    }

    fn mate(&self, _rng: &mut StdRng, a: &Genome, b: &Genome) -> Genome {
        (a.0, b.1)
    }

    fn population_metric(&self, population: &mut RatedPopulation<Genome, Fit>) {
        for index in 0..population.len() {
            let first = population.fitness(index).0;
            population.set_fitness(index, (first, 0));
        }
    }
}

fn seeded(seed: usize) -> StdRng {
    let seed: &[usize] = &[seed, 2, 3, 4];
    StdRng::from_seed(seed)
}

fn config(mu: usize, lambda: usize, ngen: usize) -> DriverConfig {
    DriverConfig { mu, lambda, k: 2, ngen, objectives: vec![0, 1] }
}

fn genomes(population: &RankedPopulation<Genome, Fit>) -> Vec<Genome> {
    population.individuals().iter().map(|i| *i.genome()).collect()
}

#[test]
fn test_next_step() {
    assert_eq!(Step::Continue(1), next_step(0, 0, 5));
    assert_eq!(Step::Continue(5), next_step(0, 4, 5));
    assert_eq!(Step::Stop, next_step(0, 5, 5));
    assert_eq!(Step::Stop, next_step(0, 0, 0));
    assert_eq!(Step::Stop, next_step(1, 0, 5));
    assert_eq!(Step::Stop, next_step(3, 5, 5));
    assert_eq!(Step::Stop, next_step(0, usize::MAX, usize::MAX));
}

#[test]
fn test_elapsed() {
    assert_eq!(5, elapsed(10, 15));
    assert_eq!(0, elapsed(10, 10));
    assert_eq!(0, elapsed(15, 10));
    assert_eq!(u64::MAX, elapsed(0, u64::MAX));
}

#[test]
fn test_driver_runs_all_generations() {
    let mo = MultiObjective::<Fit, i64>::new(&[&First, &Second]);
    let log = RefCell::new(Vec::new());
    let logger = |generation: usize, _ns: u64, found: usize, parents: &RankedPopulation<Genome, Fit>| {
        log.borrow_mut().push((generation, found, parents.len()));
    };
    let problem = Problem { solved_below: i64::MIN };
    let parents = problem.run(&mut seeded(1), &config(20, 30, 10), &mo, &SelectionPolicy::Nsga, &logger);
    assert_eq!(20, parents.len());
    // The logger is told once per generation: the first and ten more.
    let log = log.into_inner();
    assert_eq!(11, log.len());
    for (number, entry) in log.iter().enumerate() {
        assert_eq!((number, 0, 20), *entry);
    }
    // The parents come in order of rank and crowding distance.
    for pair in parents.individuals().windows(2) {
        assert!(!pair[1].has_better_rank_and_crowding(&pair[0]));
    }
}

#[test]
fn test_driver_improves_the_population() {
    let mo = MultiObjective::<Fit, i64>::new(&[&First, &Second]);
    let logger = |_: usize, _: u64, _: usize, _: &RankedPopulation<Genome, Fit>| {};
    let problem = Problem { solved_below: i64::MIN };
    let parents = problem.run(&mut seeded(2), &config(30, 30, 60), &mo, &SelectionPolicy::Nsga, &logger);
    // The Pareto set is 0 <= x <= 100.
    let on_front = parents
        .individuals()
        .iter()
        .filter(|i| i.rank() == 0)
        .filter(|i| {
            let x = i.genome().0 + i.genome().1;
            (0..=100).contains(&x)
        })
        .count();
    assert!(on_front >= 25);
}

#[test]
fn test_early_termination() {
    let mo = MultiObjective::<Fit, i64>::new(&[&First, &Second]);
    let log = RefCell::new(Vec::new());
    let logger = |generation: usize, _ns: u64, found: usize, parents: &RankedPopulation<Genome, Fit>| {
        log.borrow_mut().push((generation, found, parents.len()));
    };
    // Everything is a solution: the run ends after the first generation.
    let problem = Problem { solved_below: i64::MAX };
    let parents = problem.run(&mut seeded(3), &config(15, 40, 100), &mo, &SelectionPolicy::Nsga, &logger);
    assert_eq!(15, parents.len());
    assert_eq!(vec![(0, 15, 15)], log.into_inner());
}

#[test]
fn test_no_generations_after_the_first() {
    let mo = MultiObjective::<Fit, i64>::new(&[&First, &Second]);
    let log = RefCell::new(Vec::new());
    let logger = |generation: usize, _ns: u64, found: usize, parents: &RankedPopulation<Genome, Fit>| {
        log.borrow_mut().push((generation, found, parents.len()));
    };
    let parents = Plain.run(&mut seeded(4), &config(8, 3, 0), &mo, &SelectionPolicy::Nsga, &logger);
    assert_eq!(8, parents.len());
    assert_eq!(vec![(0, 0, 8)], log.into_inner());
}

#[test]
fn test_driver_is_repeatable() {
    let mo = MultiObjective::<Fit, i64>::new(&[&First, &Second]);
    let logger = |_: usize, _: u64, _: usize, _: &RankedPopulation<Genome, Fit>| {};
    let problem = Problem { solved_below: i64::MIN };
    let first = problem.run(&mut seeded(11), &config(25, 25, 15), &mo, &SelectionPolicy::Nsga, &logger);
    let second = problem.run(&mut seeded(11), &config(25, 25, 15), &mo, &SelectionPolicy::Nsga, &logger);
    assert_eq!(genomes(&first), genomes(&second));
    let ranks = |p: &RankedPopulation<Genome, Fit>| -> Vec<usize> {
        p.individuals().iter().map(|i| i.rank()).collect()
    };
    assert_eq!(ranks(&first), ranks(&second));
    let other = problem.run(&mut seeded(12), &config(25, 25, 15), &mo, &SelectionPolicy::Nsga, &logger);
    assert_ne!(genomes(&first), genomes(&other));
}

#[test]
fn test_driver_uses_the_listed_objectives() {
    let mo = MultiObjective::<Fit, i64>::new(&[&First, &Second]);
    let logger = |_: usize, _: u64, _: usize, _: &RankedPopulation<Genome, Fit>| {};
    // With the first objective alone, the front is the smallest first value.
    let only_first = DriverConfig { mu: 10, lambda: 10, k: 2, ngen: 0, objectives: vec![0] };
    let parents = Plain.run(&mut seeded(5), &only_first, &mo, &SelectionPolicy::Nsga, &logger);
    let least = parents.individuals().iter().map(|i| i.fitness().0).min().unwrap();
    assert_eq!(least, parents.individuals()[0].fitness().0);
    for individual in parents.individuals() {
        assert_eq!(individual.rank() == 0, individual.fitness().0 == least);
    }
}

#[test]
fn test_population_metric_is_applied() {
    let mo = MultiObjective::<Fit, i64>::new(&[&First, &Second]);
    let logger = |_: usize, _: u64, _: usize, _: &RankedPopulation<Genome, Fit>| {};
    let parents = Flattening.run(&mut seeded(6), &config(10, 10, 3), &mo, &SelectionPolicy::Nsga, &logger);
    assert_eq!(10, parents.len());
    assert!(parents.individuals().iter().all(|i| i.fitness().1 == 0));
}

#[test]
fn test_initial_population_and_defaults() {
    let mut rng = seeded(8);
    let population = Plain.initial_population(&mut rng, 12);
    assert_eq!(12, population.len());
    assert_eq!(0, Plain.initial_population(&mut rng, 0).len());
    assert_eq!(0, Plain.empty_parent_population().len());
    assert!(!Plain.is_solution(&(0, 0), &(0, 0)));
}

#[test]
fn test_driver_with_groups() {
    let mo = MultiObjective::<Fit, i64>::new(&[&First, &Second]);
    let logger = |_: usize, _: u64, _: usize, _: &RankedPopulation<Genome, Fit>| {};
    let problem = Problem { solved_below: i64::MIN };
    let policy = SelectionPolicy::Nsgp(Tolerance { numerator: 1, denominator: 20 });
    let parents = problem.run(&mut seeded(21), &config(30, 30, 40), &mo, &policy, &logger);
    assert_eq!(30, parents.len());
    for pair in parents.individuals().windows(2) {
        assert!(!pair[1].has_better_rank_and_crowding(&pair[0]));
    }
    // The best individual under the first objective is never lost.
    let best = parents.individuals().iter().map(|i| i.fitness().0).min().unwrap();
    assert!(best <= 100);
    let again = problem.run(&mut seeded(21), &config(30, 30, 40), &mo, &policy, &logger);
    assert_eq!(genomes(&parents), genomes(&again));
}

fn unrated(genomes: &[Genome]) -> UnratedPopulation<Genome, Fit> {
    let mut population = UnratedPopulation::new();
    for genome in genomes {
        population.push(*genome);
    }
    population
}

#[test]
fn test_count_solutions() {
    let mo = MultiObjective::<Fit, i64>::new(&[&First, &Second]);
    // x = 50, 0, 100, 49: fitness sums 5000, 10000, 10000, 5002.
    let found = |solved_below: i64| {
        let problem = Problem { solved_below };
        let rated = unrated(&[(50, 0), (0, 0), (60, 40), (40, 9)]).rate(&|g: &Genome| problem.fitness(g));
        problem.count_solutions(&rated.select(4, &mo))
    };
    assert_eq!(0, found(5000));
    assert_eq!(1, found(5001));
    assert_eq!(2, found(5003));
    assert_eq!(4, found(10001));
    let parents = unrated(&[(1, 2), (3, 4)]).rate(&|g: &Genome| *g).select(2, &mo);
    assert_eq!(0, Plain.count_solutions(&parents));
}

#[test]
fn test_merge_and_select() {
    let mo = MultiObjective::<Fit, i64>::new(&[&First, &Second]);
    let mut rng = seeded(3);
    let parents = unrated(&[(1, 2), (2, 1)]).rate(&|g: &Genome| *g).select(2, &mo);
    let offspring = unrated(&[(1, 3), (0, 2), (1, 2)]);
    let selected = Plain.merge_and_select(
        parents,
        offspring,
        &mut rng,
        &config(3, 3, 0),
        &mo,
        &SelectionPolicy::Nsga,
    );
    // The first front is (2, 1) and (0, 2); the two (1, 2) follow, and the
    // parent among them stood first.
    assert_eq!(3, selected.len());
    let mut first_front = genomes(&selected)[..2].to_vec();
    first_front.sort();
    assert_eq!(vec![(0, 2), (2, 1)], first_front);
    assert_eq!((1, 2), genomes(&selected)[2]);
    assert_eq!(vec![0, 0, 1], selected.individuals().iter().map(|i| i.rank()).collect::<Vec<_>>());
    assert!(selected.individuals().iter().all(|i| i.is_selected()));
    assert!(selected.individuals().iter().all(|i| *i.fitness() == *i.genome()));
}

#[test]
fn test_merge_and_select_applies_the_metric() {
    let mo = MultiObjective::<Fit, i64>::new(&[&First, &Second]);
    let mut rng = seeded(3);
    let parents = unrated(&[(5, 9)]).rate(&|g: &Genome| *g).select(1, &mo);
    let selected = Flattening.merge_and_select(
        parents,
        unrated(&[(3, 7), (4, 1)]),
        &mut rng,
        &config(2, 2, 0),
        &mo,
        &SelectionPolicy::Nsga,
    );
    // With the second value flattened, the order is that of the first.
    assert_eq!(vec![(3, 7), (4, 1)], genomes(&selected));
    assert_eq!(vec![(3, 0), (4, 0)], selected.individuals().iter().map(|i| *i.fitness()).collect::<Vec<_>>());
}

#[test]
fn test_reproduce_mates_parents() {
    let mo = MultiObjective::<Fit, i64>::new(&[&First, &Second]);
    let mut rng = seeded(5);
    let parents = unrated(&[(1, 20), (2, 10), (3, 30)]).rate(&|g: &Genome| *g).select(3, &mo);
    let offspring = Plain.reproduce(&parents, &mut rng, &config(3, 7, 0));
    assert_eq!(7, offspring.len());
    for child in offspring.individuals() {
        let (a, b) = *child.genome();
        assert!([1, 2, 3].contains(&a));
        assert!([10, 20, 30].contains(&b));
        assert!(!child.is_selected());
    }
}

#[test]
fn test_logger_is_told_every_generation() {
    let mo = MultiObjective::<Fit, i64>::new(&[&First, &Second]);
    let told: RefCell<Vec<(usize, usize, usize)>> = RefCell::new(Vec::new());
    let logger = |generation: usize, _: u64, found: usize, parents: &RankedPopulation<Genome, Fit>| {
        told.borrow_mut().push((generation, found, parents.len()));
    };
    let parents = Plain.run(&mut seeded(9), &config(6, 4, 3), &mo, &SelectionPolicy::Nsga, &logger);
    assert_eq!(vec![(0, 0, 6), (1, 0, 6), (2, 0, 6), (3, 0, 6)], *told.borrow());
    assert_eq!(6, parents.len());
}
