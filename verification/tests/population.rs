use nsga2::crowding_distance::Crowding;
use nsga2::multi_objective::MultiObjective;
use nsga2::objective::Objective;
use nsga2::population::{
    Individual, RankKey, RankedPopulation, RatedPopulation, SelectionPolicy, UnratedPopulation,
};
use nsga2::grouping::Tolerance;
use rand::{Rng, SeedableRng, StdRng};
use std::cell::Cell;
use std::cmp::Ordering;

type Fit = (i64, i64);

struct First;
struct Second;

impl Objective<Fit, i64> for First {
    fn total_order(&self, a: &Fit, b: &Fit) -> Ordering {
        a.0.cmp(&b.0)
    }

    fn distance(&self, a: &Fit, b: &Fit) -> i64 {
        a.0 - b.0
    }
}

impl Objective<Fit, i64> for Second {
    fn total_order(&self, a: &Fit, b: &Fit) -> Ordering {
        a.1.cmp(&b.1)
    }

    fn distance(&self, a: &Fit, b: &Fit) -> i64 {
        a.1 - b.1
    }
}

fn seeded(seed: usize) -> StdRng {
    let seed: &[usize] = &[seed, 2, 3, 4];
    StdRng::from_seed(seed)
}

fn unrated(genomes: &[Fit]) -> UnratedPopulation<Fit, Fit> {
    let mut population = UnratedPopulation::new();
    for &genome in genomes {
        population.push(genome);
    }
    population
}

fn five_tuples() -> Vec<Fit> {
    vec![(1, 2), (1, 2), (2, 1), (1, 3), (0, 2)]
}

#[test]
fn test_individual() {
    let mut individual: Individual<u8, u16> = Individual::from_genome(7);
    assert_eq!(&7, individual.genome());
    assert_eq!(usize::MAX, individual.rank());
    assert_eq!(Crowding::Finite(0), individual.dist());
    assert_eq!(1, individual.crowd());
    assert!(!individual.is_selected());

    individual.rate(300);
    assert_eq!(&300, individual.fitness());
    *individual.fitness_mut() += 1;
    assert_eq!(&301, individual.fitness());
    *individual.rank_mut() = 2;
    *individual.dist_mut() = Crowding::Infinite;
    individual.set_crowd(5);
    individual.select();
    assert_eq!(2, individual.rank());
    assert_eq!(Crowding::Infinite, individual.dist());
    assert_eq!(5, individual.crowd());
    assert!(individual.is_selected());
    individual.unselect();
    assert!(!individual.is_selected());
    assert_eq!((7, Some(301)), individual.into_parts());

    let ranked: Individual<u8, u16> = Individual::ranked(1, 2, 3, Crowding::Finite(4), 6);
    assert_eq!(3, ranked.rank());
    assert_eq!(Crowding::Finite(4), ranked.dist());
    assert!(ranked.is_selected());
    assert_eq!(6, ranked.crowd());
    assert_eq!(1, ranked.into_genome());
}

#[test]
fn test_better_rank_and_crowding() {
    let make = |rank, distance| -> Individual<u8, u8> { Individual::ranked(0, 0, rank, distance, 1) };
    let front0 = make(0, Crowding::Finite(1));
    let front1 = make(1, Crowding::Infinite);
    let crowded = make(1, Crowding::Finite(5));
    assert!(front0.has_better_rank_and_crowding(&front1));
    assert!(!front1.has_better_rank_and_crowding(&front0));
    assert!(front1.has_better_rank_and_crowding(&crowded));
    assert!(!crowded.has_better_rank_and_crowding(&front1));
    assert!(!crowded.has_better_rank_and_crowding(&crowded));
}

#[test]
fn test_unrated_population() {
    let mut population: UnratedPopulation<u8, u8> = UnratedPopulation::new();
    assert_eq!(0, population.len());
    population.push(3);
    population.push(4);
    assert_eq!(2, population.len());

    let mut other = UnratedPopulation::new();
    other.push(5);
    let merged = population.merge(other);
    assert_eq!(3, merged.len());
    let genomes: Vec<u8> = merged.individuals().iter().map(|i| *i.genome()).collect();
    assert_eq!(vec![3, 4, 5], genomes);
    let individuals = merged.as_vec();
    assert_eq!(3, individuals.len());
    assert!(individuals.iter().all(|i| !i.is_selected() && i.rank() == usize::MAX));
}

#[test]
fn test_rate_keeps_the_order() {
    let genomes: Vec<Fit> = (0..50).map(|i| (i, 2 * i)).collect();
    let rated = unrated(&genomes).rate(&|g: &Fit| (g.0 + g.1, g.0 - g.1));
    assert_eq!(50, rated.len());
    for (i, individual) in rated.individuals().iter().enumerate() {
        assert_eq!(&genomes[i], individual.genome());
        assert_eq!(&(3 * i as i64, -(i as i64)), individual.fitness());
        assert_eq!(individual.fitness(), rated.fitness(i));
    }
}

#[test]
fn test_rate_in_parallel_keeps_the_order() {
    let genomes: Vec<Fit> = (0..500).map(|i| (i, 2 * i)).collect();
    let rated = unrated(&genomes).rate_in_parallel(&|g: &Fit| (g.0 + g.1, g.0 - g.1));
    assert_eq!(500, rated.len());
    for (i, individual) in rated.individuals().iter().enumerate() {
        assert_eq!(&genomes[i], individual.genome());
        assert_eq!(&(3 * i as i64, -(i as i64)), individual.fitness());
    }
    // Rating nothing gives nothing.
    assert_eq!(0, unrated(&[]).rate_in_parallel(&|g: &Fit| *g).len());
}

#[test]
fn test_set_fitness() {
    let mut rated = unrated(&five_tuples()).rate(&|g: &Fit| *g);
    rated.set_fitness(3, (9, 9));
    assert_eq!(&(9, 9), rated.fitness(3));
    assert_eq!(&(1, 3), rated.individuals()[3].genome());
    assert_eq!(&(1, 2), rated.fitness(0));
    assert_eq!(0, RatedPopulation::<u8, u8>::new().len());
}

#[test]
fn test_select() {
    let mo = MultiObjective::<Fit, i64>::new(&[&First, &Second]);
    let rated = unrated(&five_tuples()).rate(&|g: &Fit| *g);
    let ranked = rated.select(3, &mo);
    assert_eq!(3, ranked.len());
    let individuals = ranked.individuals();
    let ranks: Vec<usize> = individuals.iter().map(|i| i.rank()).collect();
    assert_eq!(vec![0, 0, 1], ranks);
    // Both solutions of the first front are extremes: they keep the order
    // they had in the population.
    assert_eq!(&(2, 1), individuals[0].genome());
    assert_eq!(&(0, 2), individuals[1].genome());
    assert_eq!(&(1, 2), individuals[2].genome());
    assert!(individuals.iter().all(|i| i.dist() == Crowding::Infinite));
    assert!(individuals.iter().all(|i| i.is_selected() && i.genome() == i.fitness()));
    assert_eq!(Some(1), ranked.max_rank());
}

#[test]
fn test_select_orders_by_rank_then_crowding() {
    let mo = MultiObjective::<Fit, i64>::new(&[&First, &Second]);
    let genomes: Vec<Fit> = (0..40).map(|i| ((i * 7) % 11, (i * 5) % 13)).collect();
    for size in [0usize, 1, 5, 17, 40, 60] {
        let ranked = unrated(&genomes).rate(&|g: &Fit| *g).select(size, &mo);
        assert_eq!(size.min(genomes.len()), ranked.len());
        let individuals = ranked.individuals();
        for pair in individuals.windows(2) {
            assert!(!pair[1].has_better_rank_and_crowding(&pair[0]));
        }
        assert_eq!(individuals.iter().map(|i| i.rank()).max(), ranked.max_rank());
        for individual in individuals {
            assert!(genomes.contains(individual.genome()));
        }
    }
    assert_eq!(None, unrated(&[]).rate(&|g: &Fit| *g).select(3, &mo).max_rank());
}

#[test]
fn test_merge_and_into_unrated() {
    let mo = MultiObjective::<Fit, i64>::new(&[&First, &Second]);
    let ranked = unrated(&five_tuples()).rate(&|g: &Fit| *g).select(2, &mo);
    let offspring = unrated(&[(5, 5), (6, 6)]).rate(&|g: &Fit| *g);
    let merged = ranked.merge(offspring);
    assert_eq!(4, merged.len());
    let genomes: Vec<Fit> = merged.individuals().iter().map(|i| *i.genome()).collect();
    assert_eq!(vec![(2, 1), (0, 2), (5, 5), (6, 6)], genomes);

    let ranked = merged.select(3, &mo);
    let again = ranked.into_unrated();
    assert_eq!(3, again.len());
    assert!(again.individuals().iter().all(|i| i.rank() == usize::MAX && !i.is_selected()));
    assert_eq!(0, RankedPopulation::<u8, u8>::new().len());
}

#[test]
fn test_all_and_all_of_rank() {
    let mo = MultiObjective::<Fit, i64>::new(&[&First, &Second]);
    let ranked = unrated(&five_tuples()).rate(&|g: &Fit| *g).select(5, &mo);
    let seen = Cell::new(0);
    ranked.all(&|genome: &Fit, fitness: &Fit| {
        assert_eq!(genome, fitness);
        seen.set(seen.get() + 1);
    });
    assert_eq!(5, seen.get());
    for (rank, expected) in [(0, 2), (1, 2), (2, 1), (3, 0)] {
        let seen = Cell::new(0);
        ranked.all_of_rank(rank, &|_: &Fit, _: &Fit| seen.set(seen.get() + 1));
        assert_eq!(expected, seen.get());
    }
    assert_eq!(Some(2), ranked.max_rank());
}

#[test]
fn test_reproduce() {
    let mo = MultiObjective::<Fit, i64>::new(&[&First, &Second]);
    let ranked = unrated(&five_tuples()).rate(&|g: &Fit| *g).select(4, &mo);
    let mut rng = seeded(5);
    let mate = |rng: &mut StdRng, a: &Fit, b: &Fit| -> Fit {
        if rng.gen::<bool>() {
            (a.0, b.1)
        } else {
            (b.0, a.1)
        }
    };
    let offspring = ranked.reproduce(&mut rng, 30, 2, &mate);
    assert_eq!(30, offspring.len());
    let parents: Vec<Fit> = ranked.individuals().iter().map(|i| *i.genome()).collect();
    for child in offspring.individuals() {
        let (x, y) = *child.genome();
        assert!(parents.iter().any(|p| p.0 == x));
        assert!(parents.iter().any(|p| p.1 == y));
        assert_eq!(usize::MAX, child.rank());
    }
    assert_eq!(0, ranked.reproduce(&mut rng, 0, 2, &mate).len());

    // The same seed gives the same offspring.
    let first = ranked.reproduce(&mut seeded(9), 20, 3, &mate);
    let second = ranked.reproduce(&mut seeded(9), 20, 3, &mate);
    let genomes = |p: &UnratedPopulation<Fit, Fit>| -> Vec<Fit> {
        p.individuals().iter().map(|i| *i.genome()).collect()
    };
    assert_eq!(genomes(&first), genomes(&second));
}

#[test]
fn test_pick_parent_prefers_the_front() {
    let mo = MultiObjective::<Fit, i64>::new(&[&First, &Second]);
    // One solution dominates all others.
    let genomes: Vec<Fit> = vec![(5, 5), (6, 6), (0, 0), (7, 7), (8, 8)];
    let ranked = unrated(&genomes).rate(&|g: &Fit| *g).select(5, &mo);
    assert_eq!(&(0, 0), ranked.individuals()[0].genome());
    let mut rng = seeded(3);
    let mut best = 0;
    for _ in 0..100 {
        let parent = ranked.pick_parent(&mut rng, 50);
        assert!(parent < 5);
        if parent == 0 {
            best += 1;
        }
    }
    assert!(best >= 99);
}

#[test]
fn test_select_nsgp() {
    let mo = MultiObjective::<Fit, i64>::new(&[&First, &Second]);
    // One front on a line, with a crowd near (50, 50), and one dominated point.
    let genomes: Vec<Fit> = vec![(0, 100), (50, 50), (51, 49), (52, 48), (100, 0), (60, 60)];
    let tenth = Tolerance { numerator: 1, denominator: 10 };
    for seed in 0..10 {
        let mut rng = seeded(seed);
        let ranked = unrated(&genomes).rate(&|g: &Fit| *g).select_nsgp(4, &mo, tenth, &mut rng);
        assert_eq!(4, ranked.len());
        let individuals = ranked.individuals();
        // One of each group of the first front, and the second front.
        let mut chosen: Vec<Fit> = individuals.iter().map(|i| *i.genome()).collect();
        chosen.sort();
        assert_eq!((0, 100), chosen[0]);
        assert!([(50, 50), (51, 49), (52, 48)].contains(&chosen[1]));
        assert_eq!((60, 60), chosen[2]);
        assert_eq!((100, 0), chosen[3]);
        for pair in individuals.windows(2) {
            assert!(!pair[1].has_better_rank_and_crowding(&pair[0]));
        }
        // The member of the crowd knows the size of its crowd.
        let crowded = individuals.iter().find(|i| i.genome().0 > 40 && i.genome().0 < 55).unwrap();
        assert_eq!(3, crowded.crowd());
        assert_eq!(1, individuals[3].rank());
        assert_eq!(&(60, 60), individuals[3].genome());
    }
}

#[test]
fn test_select_by_policy() {
    let mo = MultiObjective::<Fit, i64>::new(&[&First, &Second]);
    let genomes: Vec<Fit> = (0..40).map(|i| ((i * 7) % 11, (i * 5) % 13)).collect();
    let policies = [
        SelectionPolicy::Nsga,
        SelectionPolicy::Nsgp(Tolerance { numerator: 1, denominator: 4 }),
    ];
    for policy in &policies {
        for size in [0usize, 1, 7, 40, 55] {
            let mut rng = seeded(size);
            let ranked =
                unrated(&genomes).rate(&|g: &Fit| *g).select_by(size, &mo, policy, &mut rng);
            assert_eq!(size.min(genomes.len()), ranked.len());
            for pair in ranked.individuals().windows(2) {
                assert!(!pair[1].has_better_rank_and_crowding(&pair[0]));
            }
        }
    }
}

#[test]
fn test_assemble() {
    let key = |index, rank, distance| RankKey { index, rank, distance, crowd: 2 };
    let keys = vec![
        key(2, 0, Crowding::Infinite),
        key(0, 0, Crowding::Finite(5)),
        key(3, 1, Crowding::Finite(7)),
    ];
    let ranked = RatedPopulation::assemble(vec!['a', 'b', 'c', 'd'], vec![10, 11, 12, 13], &keys);
    let found: Vec<(char, i32, usize, usize)> = ranked
        .individuals()
        .iter()
        .map(|i| (*i.genome(), *i.fitness(), i.rank(), i.crowd()))
        .collect();
    assert_eq!(vec![('c', 12, 0, 2), ('a', 10, 0, 2), ('d', 13, 1, 2)], found);
}
