//! Populations of individuals in their three states: unrated, rated, and
//! ranked.
//!
//! An unrated population holds genomes. Rating gives every individual a
//! fitness. Selecting from a rated population gives a ranked one: its
//! individuals carry the rank of their Pareto front and their crowding
//! distance, and come in order of rank, then of crowding distance. A ranked
//! population reproduces into a new unrated one.

use crate::crowding_distance::{AssignedCrowdingDistance, Crowding};
use crate::fronts::well_founded;
use crate::grouping::Tolerance;
use crate::multi_objective::MultiObjective;
use crate::parallel::par_map;
use crate::pools::{member_key, Member};
use crate::select_nsgp::{nsgp_outcome, selection_nsgp};
use crate::selection::{capped, selection_nsga};
use crate::stable_sort::{
    asymmetric, distinct_by, in_order, lemma_sorted_all, lemma_sorted_distinct,
    lemma_sorted_in_order, lemma_sorted_keeps, negatively_transitive, sort_by, sorted_by,
};
use crate::tournament_selection::{
    answers_as, champion, lemma_wins_champion, tournament_selection_fast, wins,
};
use crate::vectors::{reversed, take_at, wrapped};
use rand::StdRng;
use vstd::prelude::*;

verus! {

/// A genome, and what has been found out about it.
pub struct Individual<G, F> {
    genome: G,
    // The fitness, once the individual has been rated.
    fitness: Option<F>,
    // Which Pareto front the individual belongs to, once it has been ranked.
    pareto_rank: usize,
    // The crowding distance to neighbouring individuals of the same front.
    crowding_distance: Crowding,
    // The number of individuals in the crowd of this one.
    crowd_size: usize,
    selected: bool,
}

/// What an individual holds.
pub struct IndividualView<G, F> {
    pub genome: G,
    pub fitness: Option<F>,
    pub rank: usize,
    pub distance: Crowding,
    pub crowd: usize,
    pub selected: bool,
}

impl<G, F> View for Individual<G, F> {
    type V = IndividualView<G, F>;

    closed spec fn view(&self) -> IndividualView<G, F> {
        IndividualView {
            genome: self.genome,
            fitness: self.fitness,
            rank: self.pareto_rank,
            distance: self.crowding_distance,
            crowd: self.crowd_size,
            selected: self.selected,
        }
    }
}

impl<G, F> Individual<G, F> {
    /// A new individual: not rated, not ranked, not selected, in a crowd of
    /// its own.
    pub fn from_genome(genome: G) -> (individual: Self)
        ensures
            individual@ == (IndividualView::<G, F> {
                genome,
                fitness: None,
                rank: usize::MAX,
                distance: Crowding::Finite(0),
                crowd: 1,
                selected: false,
            }),
    {
        Individual {
            genome,
            fitness: None,
            pareto_rank: usize::MAX,
            crowding_distance: Crowding::Finite(0),
            crowd_size: 1,
            selected: false,
        }
    }

    /// A rated, ranked and selected individual.
    pub fn ranked(genome: G, fitness: F, rank: usize, distance: Crowding, crowd: usize) -> (individual:
        Self)
        ensures
            individual@ == (IndividualView {
                genome,
                fitness: Some(fitness),
                rank,
                distance,
                crowd,
                selected: true,
            }),
    {
        Individual {
            genome,
            fitness: Some(fitness),
            pareto_rank: rank,
            crowding_distance: distance,
            crowd_size: crowd,
            selected: true,
        }
    }

    /// Takes the individual apart into its genome and its fitness.
    pub fn into_parts(self) -> (parts: (G, Option<F>))
        ensures
            parts.0 == self@.genome,
            parts.1 == self@.fitness,
    {
        (self.genome, self.fitness)
    }

    pub fn genome(&self) -> (genome: &G)
        ensures
            *genome == self@.genome,
    {
        &self.genome
    }

    pub fn into_genome(self) -> (genome: G)
        ensures
            genome == self@.genome,
    {
        self.genome
    }

    /// The fitness of a rated individual.
    pub fn fitness(&self) -> (fitness: &F)
        requires
            self@.fitness is Some,
        ensures
            Some(*fitness) == self@.fitness,
    {
        self.fitness.as_ref().unwrap()
    }

    /// The fitness of a rated individual, to be changed in place.
    pub fn fitness_mut(&mut self) -> (fitness: &mut F)
        requires
            old(self)@.fitness is Some,
        ensures
            Some(*fitness) == old(self)@.fitness,
            final(self)@ == (IndividualView { fitness: Some(*final(fitness)), ..old(self)@ }),
    {
        match &mut self.fitness {
            Some(fitness) => fitness,
            None => vstd::pervasive::unreached(),
        }
    }

    /// Gives the individual a fitness.
    pub fn rate(&mut self, fitness: F)
        ensures
            final(self)@ == (IndividualView { fitness: Some(fitness), ..old(self)@ }),
    {
        self.fitness = Some(fitness);
    }

    /// The rank, to be changed in place.
    pub fn rank_mut(&mut self) -> (rank: &mut usize)
        ensures
            *rank == old(self)@.rank,
            final(self)@ == (IndividualView { rank: *final(rank), ..old(self)@ }),
    {
        &mut self.pareto_rank
    }

    /// The crowding distance, to be changed in place.
    pub fn dist_mut(&mut self) -> (distance: &mut Crowding)
        ensures
            *distance == old(self)@.distance,
            final(self)@ == (IndividualView { distance: *final(distance), ..old(self)@ }),
    {
        &mut self.crowding_distance
    }

    /// The rank of the Pareto front of the individual; 0 is the best front.
    pub fn rank(&self) -> (rank: usize)
        ensures
            rank == self@.rank,
    {
        self.pareto_rank
    }

    /// The crowding distance of the individual.
    pub fn dist(&self) -> (distance: Crowding)
        ensures
            distance == self@.distance,
    {
        self.crowding_distance
    }

    /// Marks the individual as selected. It must not be selected yet.
    pub fn select(&mut self)
        requires
            !old(self)@.selected,
        ensures
            final(self)@ == (IndividualView { selected: true, ..old(self)@ }),
    {
        self.selected = true;
    }

    pub fn unselect(&mut self)
        ensures
            final(self)@ == (IndividualView { selected: false, ..old(self)@ }),
    {
        self.selected = false;
    }

    pub fn is_selected(&self) -> (selected: bool)
        ensures
            selected == self@.selected,
    {
        self.selected
    }

    /// The number of individuals in the crowd of this one.
    pub fn crowd(&self) -> (crowd: usize)
        ensures
            crowd == self@.crowd,
    {
        self.crowd_size
    }

    pub fn set_crowd(&mut self, crowd: usize)
        ensures
            final(self)@ == (IndividualView { crowd, ..old(self)@ }),
    {
        self.crowd_size = crowd;
    }

    /// Is this individual better than `other`: of a lower rank, or of the same
    /// rank and less crowded?
    pub fn has_better_rank_and_crowding(&self, other: &Self) -> (better: bool)
        ensures
            better == better_ranked(self@, other@),
    {
        self.pareto_rank < other.pareto_rank || (self.pareto_rank == other.pareto_rank
            && self.crowding_distance.is_larger_than(&other.crowding_distance))
    }
}

/// `a` is of a lower rank than `b`, or of the same rank and less crowded.
pub open spec fn better_ranked<G, F>(a: IndividualView<G, F>, b: IndividualView<G, F>) -> bool {
    a.rank < b.rank || (a.rank == b.rank && a.distance.exceeds(b.distance))
}

/// What each of the individuals holds.
pub open spec fn views_of<G, F>(individuals: Seq<Individual<G, F>>) -> Seq<IndividualView<G, F>> {
    Seq::new(individuals.len(), |i: int| individuals[i]@)
}

/// The genomes of the individuals.
pub open spec fn genomes_of<G, F>(individuals: Seq<IndividualView<G, F>>) -> Seq<G> {
    Seq::new(individuals.len(), |i: int| individuals[i].genome)
}

/// The fitness values of rated individuals.
pub open spec fn fitness_of<G, F>(individuals: Seq<IndividualView<G, F>>) -> Seq<F> {
    Seq::new(individuals.len(), |i: int| individuals[i].fitness->0)
}

/// `after` is `before` with the fitness that `eval` finds for its genome.
pub open spec fn rates<G, F, E: Fn(&G) -> F>(
    eval: E,
    before: IndividualView<G, F>,
    after: IndividualView<G, F>,
) -> bool {
    &&& after.fitness is Some
    &&& call_ensures(eval, (&before.genome,), after.fitness->0)
    &&& after == (IndividualView { fitness: after.fitness, ..before })
}

/// A new individual with the genome `genome`.
pub open spec fn fresh<G, F>(genome: G) -> IndividualView<G, F> {
    IndividualView {
        genome,
        fitness: None,
        rank: usize::MAX,
        distance: Crowding::Finite(0),
        crowd: 1,
        selected: false,
    }
}

/// The place that a selected individual had in its population, with the
/// rank, the crowding distance and the size of the crowd that the selection
/// gave it.
#[derive(Clone, Copy)]
pub struct RankKey {
    pub index: usize,
    pub rank: usize,
    pub distance: Crowding,
    pub crowd: usize,
}

/// The ways of selecting the survivors of a generation.
#[derive(Clone, Copy, Debug)]
pub enum SelectionPolicy {
    /// By front rank, then by crowding distance.
    Nsga,
    /// By front rank and by groups of solutions that are similar within the
    /// tolerance given.
    Nsgp(Tolerance),
}

/// Key `x` must come after key `y`: it has the higher rank, or the same rank
/// and the smaller crowding distance, or the same of both and the higher
/// index.
pub open spec fn ranked_after() -> spec_fn(RankKey, RankKey) -> bool {
    |x: RankKey, y: RankKey|
        x.rank > y.rank || (x.rank == y.rank && (y.distance.exceeds(x.distance) || (x.distance
            == y.distance && x.index > y.index)))
}

/// The keys of the solutions that a selection chose.
pub open spec fn keys_of<'a, F>(picked: Seq<AssignedCrowdingDistance<'a, F>>) -> Seq<RankKey> {
    Seq::new(
        picked.len(),
        |i: int|
            RankKey {
                index: picked[i].index,
                rank: picked[i].rank,
                distance: picked[i].crowding_distance,
                crowd: 1,
            },
    )
}

/// The keys of the members that a selection by groups chose.
pub open spec fn keys_of_members(picked: Seq<Member>) -> Seq<RankKey> {
    Seq::new(
        picked.len(),
        |i: int|
            RankKey {
                index: picked[i].index,
                rank: picked[i].rank,
                distance: picked[i].distance,
                crowd: picked[i].crowd,
            },
    )
}

/// The index of a key, as a key for telling keys apart.
pub open spec fn key_index() -> spec_fn(RankKey) -> int {
    |k: RankKey| k.index as int
}

/// The individuals that the keys stand for, made of the genomes and fitness
/// values at the indices of the keys, in the order of the keys.
pub open spec fn assembled<G, F>(genomes: Seq<G>, fits: Seq<F>, keys: Seq<RankKey>) -> Seq<
    IndividualView<G, F>,
> {
    Seq::new(
        keys.len(),
        |i: int|
            IndividualView {
                genome: genomes[keys[i].index as int],
                fitness: Some(fits[keys[i].index as int]),
                rank: keys[i].rank,
                distance: keys[i].distance,
                crowd: keys[i].crowd,
                selected: true,
            },
    )
}

/// Puts the keys of the members that a selection by groups chose in order of
/// rank, then of falling crowding distance, then of index.
pub fn rank_members(members: &Vec<Member>, len: usize) -> (keys: Vec<RankKey>)
    requires
        distinct_by(members@, member_key()),
        forall|t: int| 0 <= t < members@.len() ==> (#[trigger] members@[t]).index < len,
    ensures
        keys@ == sorted_by(keys_of_members(members@), ranked_after()),
        keys@.len() == members@.len(),
        distinct_by(keys@, key_index()),
        forall|t: int| 0 <= t < keys@.len() ==> (#[trigger] keys@[t]).index < len,
{
    let mut keys: Vec<RankKey> = Vec::new();
    let mut i: usize = 0;
    while i < members.len()
        invariant
            i <= members@.len(),
            keys@.len() == i,
            forall|t: int| 0 <= t < i ==> #[trigger] keys@[t] == keys_of_members(members@)[t],
        decreases members@.len() - i,
    {
        keys.push(
            RankKey {
                index: members[i].index,
                rank: members[i].rank,
                distance: members[i].distance,
                crowd: members[i].crowd,
            },
        );
        i = i + 1;
    }
    let ghost unsorted = keys@;
    let ghost inside = |k: RankKey| k.index < len;
    proof {
        assert(unsorted =~= keys_of_members(members@));
        assert forall|a: int, b: int| 0 <= a < b < unsorted.len() implies key_index()(
            #[trigger] unsorted[a],
        ) != key_index()(#[trigger] unsorted[b]) by {
            assert(member_key()(members@[a]) != member_key()(
                members@[b],
            ));
        }
        assert forall|t: int| 0 <= t < unsorted.len() implies inside(#[trigger] unsorted[t]) by {
            assert(members@[t].index < len);
        }
    }
    let after = |x: &RankKey, y: &RankKey| -> (r: bool)
        ensures
            r == ranked_after()(*x, *y),
        { comes_after(x, y) };
    sort_by(&mut keys, &after, Ghost(ranked_after()), Ghost(inside));
    proof {
        lemma_sorted_keeps(unsorted, ranked_after(), inside);
        lemma_sorted_all(unsorted, ranked_after(), inside);
        lemma_sorted_distinct(unsorted, ranked_after(), key_index());
        assert forall|t: int| 0 <= t < keys@.len() implies (#[trigger] keys@[t]).index < len by {
            assert(inside(keys@[t]));
        }
    }
    keys
}

/// The individual of `population` that `key` stands for, ranked as `key`
/// says.
pub open spec fn ranked_view<G, F>(population: Seq<IndividualView<G, F>>, key: RankKey) -> IndividualView<
    G,
    F,
> {
    IndividualView {
        genome: population[key.index as int].genome,
        fitness: population[key.index as int].fitness,
        rank: key.rank,
        distance: key.distance,
        crowd: key.crowd,
        selected: true,
    }
}

/// The individuals that the keys stand for, in the order of the keys.
pub open spec fn ranked_views<G, F>(population: Seq<IndividualView<G, F>>, keys: Seq<RankKey>) -> Seq<
    IndividualView<G, F>,
> {
    Seq::new(keys.len(), |i: int| ranked_view(population, keys[i]))
}

/// The ranked population that the keys give: the individuals they stand for,
/// in order of rank, then of falling crowding distance, then of index.
pub open spec fn ranking<G, F>(population: Seq<IndividualView<G, F>>, keys: Seq<RankKey>) -> Seq<
    IndividualView<G, F>,
> {
    ranked_views(population, sorted_by(keys, ranked_after()))
}

/// `ranked` is what a selection of `size` individuals in the manner of NSGA
/// makes of `population`: the individuals that survive the selection of their
/// fitness values, with the ranks and crowding distances found, in ranked
/// order.
pub open spec fn ranked_by_nsga<G, F>(
    population: Seq<IndividualView<G, F>>,
    multi_objective: &MultiObjective<F, i64>,
    size: nat,
    ranked: Seq<IndividualView<G, F>>,
) -> bool {
    exists|fronts: Seq<Seq<(usize, &F)>>| #[trigger]
        multi_objective.fronts_for(
            fitness_of(population),
            capped(size, population.len()),
            fronts,
        ) && ranked == ranking(
            population,
            keys_of(
                multi_objective.selection(fronts, capped(size, population.len()), fronts.len()),
            ),
        )
}

/// `ranked` is what a selection of `size` individuals in the manner of NSGP
/// can make of `population`: the individuals that some outcome of the
/// selection of their fitness values names, with the ranks, crowding distances
/// and crowd sizes found, in ranked order.
pub open spec fn ranked_by_nsgp<G, F>(
    population: Seq<IndividualView<G, F>>,
    multi_objective: &MultiObjective<F, i64>,
    tolerance: Tolerance,
    size: nat,
    ranked: Seq<IndividualView<G, F>>,
) -> bool {
    exists|fronts: Seq<Seq<(usize, &F)>>, draws: Seq<usize>, members: Seq<Member>|
        multi_objective.fronts_for(fitness_of(population), population.len(), fronts)
            && #[trigger] nsgp_outcome(multi_objective, fronts, tolerance, size, draws, members)
            && ranked == ranking(population, keys_of_members(members))
}

/// `ranked` is what a selection of `size` individuals by `policy` can make
/// of `population`.
pub open spec fn ranked_by<G, F>(
    population: Seq<IndividualView<G, F>>,
    multi_objective: &MultiObjective<F, i64>,
    policy: SelectionPolicy,
    size: nat,
    ranked: Seq<IndividualView<G, F>>,
) -> bool {
    match policy {
        SelectionPolicy::Nsga => ranked_by_nsga(population, multi_objective, size, ranked),
        SelectionPolicy::Nsgp(tolerance) => ranked_by_nsgp(
            population,
            multi_objective,
            tolerance,
            size,
            ranked,
        ),
    }
}

/// Is key `x` to come after key `y`?
pub fn comes_after(x: &RankKey, y: &RankKey) -> (after: bool)
    ensures
        after == ranked_after()(*x, *y),
{
    x.rank > y.rank || (x.rank == y.rank && (y.distance.is_larger_than(&x.distance) || (
    x.distance == y.distance && x.index > y.index)))
}

/// The order of the keys is the strict part of a total order.
pub proof fn lemma_ranked_after_orders()
    ensures
        asymmetric(ranked_after()),
        negatively_transitive(ranked_after()),
{
    let gt = ranked_after();
    assert forall|a: RankKey, b: RankKey| #[trigger] gt(a, b) implies !gt(b, a) by {}
    assert forall|a: RankKey, b: RankKey, c: RankKey|
        #![trigger gt(a, b), gt(b, c)]
        !gt(a, b) && !gt(b, c) implies !gt(a, c) by {}
}

/// Takes rated individuals apart into their genomes and their fitness values.
pub fn unzip<G, F>(individuals: Vec<Individual<G, F>>) -> (parts: (Vec<G>, Vec<F>))
    requires
        all_rated(views_of(individuals@)),
    ensures
        parts.0@ == genomes_of(views_of(individuals@)),
        parts.1@ == fitness_of(views_of(individuals@)),
{
    let ghost views = views_of(individuals@);
    let mut rest = reversed(individuals);
    let ghost backwards = rest@;
    let mut genomes: Vec<G> = Vec::new();
    let mut fits: Vec<F> = Vec::new();
    while rest.len() > 0
        invariant
            rest@.len() + genomes@.len() == views.len(),
            genomes@.len() == fits@.len(),
            backwards.len() == views.len(),
            all_rated(views),
            forall|i: int|
                0 <= i < backwards.len() ==> (#[trigger] backwards[i])@ == views[views.len() - 1 - i],
            forall|i: int| 0 <= i < rest@.len() ==> #[trigger] rest@[i] == backwards[i],
            forall|i: int| 0 <= i < genomes@.len() ==> #[trigger] genomes@[i] == views[i].genome,
            forall|i: int| 0 <= i < fits@.len() ==> Some(#[trigger] fits@[i]) == views[i].fitness,
        decreases rest@.len(),
    {
        let ghost at = genomes@.len() as int;
        let individual = rest.pop();
        proof {
            assert(backwards[views.len() - 1 - at]@ == views[at]);
        }
        match individual {
            Some(individual) => {
                let (genome, fitness) = individual.into_parts();
                match fitness {
                    Some(fitness) => {
                        genomes.push(genome);
                        fits.push(fitness);
                    },
                    None => {
                        proof {
                            assert(views[at].fitness is Some);
                        }
                    },
                }
            },
            None => {},
        }
    }
    proof {
        assert(genomes@ =~= genomes_of(views));
        assert(fits@ =~= fitness_of(views));
    }
    (genomes, fits)
}

/// An unrated population of individuals: none of them has a fitness.
pub struct UnratedPopulation<G, F> {
    individuals: Vec<Individual<G, F>>,
}

/// A rated population of individuals: each of them has a fitness.
pub struct RatedPopulation<G, F> {
    individuals: Vec<Individual<G, F>>,
}

/// A ranked population: each individual has a fitness, the rank of its Pareto
/// front and a crowding distance, and the individuals come in order of rank,
/// those of one rank in order of falling crowding distance.
pub struct RankedPopulation<G, F> {
    individuals: Vec<Individual<G, F>>,
}

/// None of the individuals has a fitness.
pub open spec fn all_unrated<G, F>(individuals: Seq<IndividualView<G, F>>) -> bool {
    forall|i: int| 0 <= i < individuals.len() ==> (#[trigger] individuals[i]).fitness is None
}

/// Each of the individuals has a fitness.
pub open spec fn all_rated<G, F>(individuals: Seq<IndividualView<G, F>>) -> bool {
    forall|i: int| 0 <= i < individuals.len() ==> (#[trigger] individuals[i]).fitness is Some
}

/// The individuals come in order of rank, those of one rank in order of
/// falling crowding distance.
pub open spec fn in_rank_order<G, F>(individuals: Seq<IndividualView<G, F>>) -> bool {
    forall|i: int, j: int|
        0 <= i < j < individuals.len() ==> !better_ranked(
            #[trigger] individuals[j],
            #[trigger] individuals[i],
        )
}

impl<G, F> View for UnratedPopulation<G, F> {
    type V = Seq<IndividualView<G, F>>;

    closed spec fn view(&self) -> Seq<IndividualView<G, F>> {
        views_of(self.individuals@)
    }
}

impl<G, F> View for RatedPopulation<G, F> {
    type V = Seq<IndividualView<G, F>>;

    closed spec fn view(&self) -> Seq<IndividualView<G, F>> {
        views_of(self.individuals@)
    }
}

impl<G, F> View for RankedPopulation<G, F> {
    type V = Seq<IndividualView<G, F>>;

    closed spec fn view(&self) -> Seq<IndividualView<G, F>> {
        views_of(self.individuals@)
    }
}

impl<G, F> UnratedPopulation<G, F> {
    #[verifier::type_invariant]
    spec fn inv(self) -> bool {
        all_unrated(views_of(self.individuals@))
    }

    pub fn individuals(&self) -> (individuals: &[Individual<G, F>])
        ensures
            views_of(individuals@) == self@,
            all_unrated(self@),
    {
        proof {
            use_type_invariant(self);
        }
        self.individuals.as_slice()
    }

    pub fn as_vec(self) -> (individuals: Vec<Individual<G, F>>)
        ensures
            views_of(individuals@) == self@,
    {
        self.individuals
    }

    /// The individuals of `self` followed by those of `other`.
    pub fn merge(self, other: Self) -> (merged: Self)
        ensures
            merged@ == self@ + other@,
    {
        proof {
            use_type_invariant(&self);
            use_type_invariant(&other);
        }
        let mut ind = self.individuals;
        let mut rest = other.individuals;
        let ghost first = ind@;
        let ghost second = rest@;
        ind.append(&mut rest);
        proof {
            assert(views_of(ind@) =~= views_of(first) + views_of(second));
        }
        UnratedPopulation { individuals: ind }
    }

    pub fn new() -> (population: Self)
        ensures
            population@.len() == 0,
    {
        UnratedPopulation { individuals: Vec::new() }
    }

    /// Adds a new individual with the genome `genome`.
    pub fn push(&mut self, genome: G)
        ensures
            final(self)@ == old(self)@.push(
                IndividualView::<G, F> {
                    genome,
                    fitness: None,
                    rank: usize::MAX,
                    distance: Crowding::Finite(0),
                    crowd: 1,
                    selected: false,
                },
            ),
    {
        proof {
            use_type_invariant(&*self);
        }
        let individual = Individual::from_genome(genome);
        let ghost before = self.individuals@;
        let mut individuals: Vec<Individual<G, F>> = Vec::new();
        std::mem::swap(&mut self.individuals, &mut individuals);
        individuals.push(individual);
        proof {
            assert(views_of(individuals@) =~= views_of(before).push(individual@));
        }
        std::mem::swap(&mut self.individuals, &mut individuals);
    }

    pub fn len(&self) -> (len: usize)
        ensures
            len == self@.len(),
    {
        self.individuals.len()
    }

    /// Rate the individuals one after the other.
    pub fn rate<E: Fn(&G) -> F>(self, eval: &E) -> (rated: RatedPopulation<G, F>)
        requires
            forall|i: int|
                0 <= i < self@.len() ==> call_requires(*eval, (&(#[trigger] self@[i]).genome,)),
        ensures
            rated@.len() == self@.len(),
            forall|i: int| 0 <= i < self@.len() ==> rates(*eval, self@[i], #[trigger] rated@[i]),
    {
        let ghost before = self@;
        let mut individuals = self.individuals;
        let mut i: usize = 0;
        while i < individuals.len()
            invariant
                i <= individuals@.len(),
                individuals@.len() == before.len(),
                forall|t: int|
                    0 <= t < before.len() ==> call_requires(*eval, (&(#[trigger] before[t]).genome,)),
                forall|t: int| 0 <= t < i ==> rates(*eval, before[t], (#[trigger] individuals@[t])@),
                forall|t: int| i <= t < before.len() ==> (#[trigger] individuals@[t])@ == before[t],
            decreases individuals@.len() - i,
        {
            proof {
                assert(individuals@[i as int]@ == before[i as int]);
            }
            let fitness = eval(individuals[i].genome());
            individuals[i].rate(fitness);
            i = i + 1;
        }
        proof {
            assert forall|t: int| 0 <= t < individuals@.len() implies (#[trigger] views_of(
                individuals@,
            )[t]).fitness is Some by {
                assert(rates(*eval, before[t], individuals@[t]@));
            }
        }
        RatedPopulation { individuals }
    }

    /// Rate the individuals in parallel.
    pub fn rate_in_parallel<E: Fn(&G) -> F + Sync>(self, eval: &E) -> (rated: RatedPopulation<G, F>) where
        G: Sync,
        F: Send,

        requires
            forall|i: int|
                0 <= i < self@.len() ==> call_requires(*eval, (&(#[trigger] self@[i]).genome,)),
        ensures
            rated@.len() == self@.len(),
            forall|i: int| 0 <= i < self@.len() ==> rates(*eval, self@[i], #[trigger] rated@[i]),
    {
        let ghost before = self@;
        let mut individuals = self.individuals;
        let mut genomes: Vec<&G> = Vec::new();
        let mut i: usize = 0;
        while i < individuals.len()
            invariant
                i <= individuals@.len(),
                genomes@.len() == i,
                before == views_of(individuals@),
                forall|t: int| 0 <= t < i ==> *(#[trigger] genomes@[t]) == before[t].genome,
            decreases individuals@.len() - i,
        {
            proof {
                assert(individuals@[i as int]@ == before[i as int]);
            }
            genomes.push(individuals[i].genome());
            i = i + 1;
        }
        proof {
            assert forall|t: int| 0 <= t < genomes@.len() implies call_requires(
                *eval,
                (#[trigger] genomes@[t],),
            ) by {
                assert(call_requires(*eval, (&before[t].genome,)));
                assert(*genomes@[t] == before[t].genome);
            }
        }
        let ghost asked = genomes@;
        let found = par_map(genomes, eval);
        let ghost results = found@;
        let mut rest = reversed(found);
        let mut i: usize = 0;
        while i < individuals.len()
            invariant
                i <= individuals@.len(),
                individuals@.len() == before.len(),
                results.len() == before.len(),
                asked.len() == before.len(),
                rest@.len() + i == before.len(),
                forall|t: int| 0 <= t < rest@.len() ==> #[trigger] rest@[t] == results[results.len() - 1 - t],
                forall|t: int| 0 <= t < before.len() ==> *(#[trigger] asked[t]) == before[t].genome,
                forall|t: int|
                    0 <= t < results.len() ==> call_ensures(*eval, (asked[t],), #[trigger] results[t]),
                forall|t: int| 0 <= t < i ==> rates(*eval, before[t], (#[trigger] individuals@[t])@),
                forall|t: int| i <= t < before.len() ==> (#[trigger] individuals@[t])@ == before[t],
            decreases individuals@.len() - i,
        {
            let fitness = rest.pop();
            match fitness {
                Some(fitness) => {
                    proof {
                        assert(fitness == results[i as int]);
                        assert(call_ensures(*eval, (asked[i as int],), results[i as int]));
                        assert(individuals@[i as int]@ == before[i as int]);
                    }
                    individuals[i].rate(fitness);
                },
                None => {},
            }
            i = i + 1;
        }
        proof {
            assert forall|t: int| 0 <= t < individuals@.len() implies (#[trigger] views_of(
                individuals@,
            )[t]).fitness is Some by {
                assert(rates(*eval, before[t], individuals@[t]@));
            }
        }
        RatedPopulation { individuals }
    }
}

impl<G, F> RatedPopulation<G, F> {
    #[verifier::type_invariant]
    spec fn inv(self) -> bool {
        all_rated(views_of(self.individuals@))
    }

    pub fn individuals(&self) -> (individuals: &[Individual<G, F>])
        ensures
            views_of(individuals@) == self@,
            all_rated(self@),
    {
        proof {
            use_type_invariant(self);
        }
        self.individuals.as_slice()
    }

    pub fn new() -> (population: Self)
        ensures
            population@.len() == 0,
    {
        RatedPopulation { individuals: Vec::new() }
    }

    pub fn len(&self) -> (len: usize)
        ensures
            len == self@.len(),
    {
        self.individuals.len()
    }

    /// Selects `population_size` individuals, or all if there are fewer, in the
    /// manner of NSGA, and returns them ranked: in order of rank, then of
    /// falling crowding distance, then of the place they had in `self`.
    pub fn select(self, population_size: usize, multi_objective: &MultiObjective<F, i64>) -> (ranked:
        RankedPopulation<G, F>)
        ensures
            ranked@.len() <= population_size,
            ranked@.len() <= self@.len(),
            well_founded(self@.len(), multi_objective.dominance_edges(fitness_of(self@)))
                ==> ranked@.len() == capped(population_size as nat, self@.len()),
            ranked_by_nsga(self@, multi_objective, population_size as nat, ranked@),
    {
        proof {
            use_type_invariant(&self);
        }
        let ghost population = self@;
        let (genomes, fits) = unzip(self.individuals);
        let ghost cap = capped(population_size as nat, population.len());
        let keys = Self::rank(&fits, population_size, multi_objective);
        let ghost fronts = choose|fronts: Seq<Seq<(usize, &F)>>| #[trigger]
            multi_objective.fronts_for(fits@, cap, fronts) && keys@ == sorted_by(
                keys_of(multi_objective.selection(fronts, cap, fronts.len())),
                ranked_after(),
            );
        proof {
            lemma_ranked_after_orders();
            lemma_sorted_in_order(
                keys_of(multi_objective.selection(fronts, cap, fronts.len())),
                ranked_after(),
            );
            assert(assembled(genomes@, fits@, keys@) =~= ranked_views(population, keys@));
        }
        Self::assemble(genomes, fits, &keys)
    }

    /// Selects `population_size` individuals, or all if there are fewer, in
    /// the manner of NSGP, and returns them ranked: in order of rank, then of
    /// falling crowding distance, then of the place they had in `self`.
    pub fn select_nsgp(
        self,
        population_size: usize,
        multi_objective: &MultiObjective<F, i64>,
        tolerance: Tolerance,
        rng: &mut StdRng,
    ) -> (ranked: RankedPopulation<G, F>)
        ensures
            ranked@.len() <= population_size,
            ranked@.len() <= self@.len(),
            well_founded(self@.len(), multi_objective.dominance_edges(fitness_of(self@)))
                ==> ranked@.len() == capped(population_size as nat, self@.len()),
            ranked_by_nsgp(self@, multi_objective, tolerance, population_size as nat, ranked@),
    {
        proof {
            use_type_invariant(&self);
        }
        let ghost population = self@;
        let (genomes, fits) = unzip(self.individuals);
        let members = selection_nsgp(
            fits.as_slice(),
            population_size,
            multi_objective,
            tolerance,
            rng,
        );
        let keys = rank_members(&members, fits.len());
        proof {
            lemma_ranked_after_orders();
            lemma_sorted_in_order(keys_of_members(members@), ranked_after());
            assert(assembled(genomes@, fits@, keys@) =~= ranked_views(population, keys@));
        }
        Self::assemble(genomes, fits, &keys)
    }

    /// Selects `population_size` individuals, or all if there are fewer, by the
    /// policy given, and returns them ranked.
    pub fn select_by(
        self,
        population_size: usize,
        multi_objective: &MultiObjective<F, i64>,
        policy: &SelectionPolicy,
        rng: &mut StdRng,
    ) -> (ranked: RankedPopulation<G, F>)
        ensures
            ranked@.len() <= population_size,
            ranked@.len() <= self@.len(),
            well_founded(self@.len(), multi_objective.dominance_edges(fitness_of(self@)))
                ==> ranked@.len() == capped(population_size as nat, self@.len()),
            ranked_by(self@, multi_objective, *policy, population_size as nat, ranked@),
    {
        match policy {
            SelectionPolicy::Nsga => self.select(population_size, multi_objective),
            SelectionPolicy::Nsgp(tolerance) => self.select_nsgp(
                population_size,
                multi_objective,
                *tolerance,
                rng,
            ),
        }
    }

    /// Builds the ranked population that the keys stand for, out of the
    /// genomes and fitness values of a population.
    pub fn assemble(genomes: Vec<G>, fits: Vec<F>, keys: &Vec<RankKey>) -> (ranked: RankedPopulation<
        G,
        F,
    >)
        requires
            genomes@.len() == fits@.len(),
            distinct_by(keys@, key_index()),
            in_order(keys@, ranked_after()),
            forall|t: int| 0 <= t < keys@.len() ==> (#[trigger] keys@[t]).index < genomes@.len(),
        ensures
            ranked@ == assembled(genomes@, fits@, keys@),
    {
        let ghost all_genomes = genomes@;
        let ghost all_fits = fits@;
        let mut genomes = wrapped(genomes);
        let mut fits = wrapped(fits);
        let mut individuals: Vec<Individual<G, F>> = Vec::new();
        let mut i: usize = 0;
        let ghost mut taken: Set<int> = Set::empty();
        while i < keys.len()
            invariant
                i <= keys@.len(),
                individuals@.len() == i,
                genomes@.len() == all_genomes.len(),
                fits@.len() == all_genomes.len(),
                all_fits.len() == all_genomes.len(),
                distinct_by(keys@, key_index()),
                forall|t: int| 0 <= t < keys@.len() ==> (#[trigger] keys@[t]).index < all_genomes.len(),
                forall|q: int|
                    #[trigger] taken.contains(q) ==> exists|t: int|
                        0 <= t < i && (#[trigger] keys@[t]).index == q,
                forall|q: int|
                    0 <= q < all_genomes.len() && !taken.contains(q) ==> #[trigger] genomes@[q]
                        == Some(all_genomes[q]) && fits@[q] == Some(all_fits[q]),
                forall|t: int|
                    0 <= t < i ==> (#[trigger] individuals@[t])@ == assembled(
                        all_genomes,
                        all_fits,
                        keys@,
                    )[t],
            decreases keys@.len() - i,
        {
            let key = keys[i];
            proof {
                if taken.contains(key.index as int) {
                    let t = choose|t: int| 0 <= t < i && (#[trigger] keys@[t]).index == key.index;
                    assert(key_index()(keys@[t]) != key_index()(keys@[i as int]));
                }
                assert(genomes@[key.index as int] == Some(all_genomes[key.index as int]));
            }
            let ghost taken_before = taken;
            let genome = take_at(&mut genomes, key.index);
            let fitness = take_at(&mut fits, key.index);
            proof {
                taken = taken_before.insert(key.index as int);
                assert forall|q: int| #[trigger] taken.contains(q) implies exists|t: int|
                    0 <= t < i + 1 && (#[trigger] keys@[t]).index == q by {
                    if q == key.index {
                        assert(keys@[i as int].index == q);
                    } else {
                        let t = choose|t: int| 0 <= t < i && (#[trigger] keys@[t]).index == q;
                        assert(keys@[t].index == q);
                    }
                }
            }
            match (genome, fitness) {
                (Some(genome), Some(fitness)) => {
                    individuals.push(
                        Individual::ranked(genome, fitness, key.rank, key.distance, key.crowd),
                    );
                },
                _ => {},
            }
            i = i + 1;
        }
        proof {
            let views = views_of(individuals@);
            assert(views =~= assembled(all_genomes, all_fits, keys@));
            assert forall|a: int, b: int| 0 <= a < b < views.len() implies !better_ranked(
                #[trigger] views[b],
                #[trigger] views[a],
            ) by {
                assert(!ranked_after()(keys@[a], keys@[b]));
            }
        }
        RankedPopulation { individuals }
    }

    /// Ranks the fitness values `fits`: selects `population_size` of them in
    /// the manner of NSGA and returns their keys in order of rank, then of
    /// falling crowding distance, then of index.
    pub fn rank(fits: &Vec<F>, population_size: usize, multi_objective: &MultiObjective<F, i64>) -> (keys:
        Vec<RankKey>)
        ensures
            keys@.len() <= population_size,
            keys@.len() <= fits@.len(),
            distinct_by(keys@, key_index()),
            forall|t: int| 0 <= t < keys@.len() ==> (#[trigger] keys@[t]).index < fits@.len(),
            well_founded(fits@.len(), multi_objective.dominance_edges(fits@)) ==> keys@.len()
                == capped(population_size as nat, fits@.len()),
            exists|fronts: Seq<Seq<(usize, &F)>>| #[trigger]
                multi_objective.fronts_for(
                    fits@,
                    capped(population_size as nat, fits@.len()),
                    fronts,
                ) && keys@ == sorted_by(
                    keys_of(
                        multi_objective.selection(
                            fronts,
                            capped(population_size as nat, fits@.len()),
                            fronts.len(),
                        ),
                    ),
                    ranked_after(),
                ),
    {
        let picked = selection_nsga(fits.as_slice(), population_size, multi_objective);
        let mut keys: Vec<RankKey> = Vec::new();
        let mut i: usize = 0;
        while i < picked.len()
            invariant
                i <= picked@.len(),
                keys@.len() == i,
                forall|t: int| 0 <= t < i ==> #[trigger] keys@[t] == keys_of(picked@)[t],
            decreases picked@.len() - i,
        {
            keys.push(
                RankKey {
                    index: picked[i].index,
                    rank: picked[i].rank,
                    distance: picked[i].crowding_distance,
                    crowd: 1,
                },
            );
            i = i + 1;
        }
        let ghost unsorted = keys@;
        let ghost by_index = key_index();
        let ghost inside = |k: RankKey| k.index < fits@.len();
        proof {
            assert(unsorted =~= keys_of(picked@));
            assert forall|a: int, b: int| 0 <= a < b < unsorted.len() implies by_index(
                #[trigger] unsorted[a],
            ) != by_index(#[trigger] unsorted[b]) by {
                assert(crate::selection::index_key()(picked@[a]) != crate::selection::index_key()(
                    picked@[b],
                ));
            }
            assert forall|t: int| 0 <= t < unsorted.len() implies inside(#[trigger] unsorted[t]) by {
                assert(picked@[t].index < fits@.len());
            }
        }
        let after = |x: &RankKey, y: &RankKey| -> (r: bool)
            ensures
                r == ranked_after()(*x, *y),
            { comes_after(x, y) };
        sort_by(&mut keys, &after, Ghost(ranked_after()), Ghost(inside));
        proof {
            lemma_sorted_keeps(unsorted, ranked_after(), inside);
            lemma_sorted_all(unsorted, ranked_after(), inside);
            lemma_sorted_distinct(unsorted, ranked_after(), by_index);
            assert forall|t: int| 0 <= t < keys@.len() implies (#[trigger] keys@[t]).index
                < fits@.len() by {
                assert(inside(keys@[t]));
            }
        }
        keys
    }

    /// The fitness of the individual at `index`.
    pub fn fitness(&self, index: usize) -> (fitness: &F)
        requires
            index < self@.len(),
        ensures
            Some(*fitness) == self@[index as int].fitness,
    {
        proof {
            use_type_invariant(self);
            assert(views_of(self.individuals@)[index as int].fitness is Some);
        }
        self.individuals[index].fitness()
    }

    /// Gives the individual at `index` another fitness.
    pub fn set_fitness(&mut self, index: usize, fitness: F)
        requires
            index < old(self)@.len(),
        ensures
            final(self)@ == old(self)@.update(
                index as int,
                IndividualView { fitness: Some(fitness), ..old(self)@[index as int] },
            ),
    {
        proof {
            use_type_invariant(&*self);
        }
        let ghost before = self.individuals@;
        let mut individuals: Vec<Individual<G, F>> = Vec::new();
        std::mem::swap(&mut self.individuals, &mut individuals);
        individuals[index].rate(fitness);
        proof {
            assert(views_of(individuals@) =~= views_of(before).update(
                index as int,
                IndividualView { fitness: Some(fitness), ..before[index as int]@ },
            ));
        }
        std::mem::swap(&mut self.individuals, &mut individuals);
    }
}

impl<G, F> RankedPopulation<G, F> {
    #[verifier::type_invariant]
    spec fn inv(self) -> bool {
        all_rated(views_of(self.individuals@)) && in_rank_order(views_of(self.individuals@))
    }

    pub fn new() -> (population: Self)
        ensures
            population@.len() == 0,
    {
        RankedPopulation { individuals: Vec::new() }
    }

    pub fn len(&self) -> (len: usize)
        ensures
            len == self@.len(),
            all_rated(self@),
            in_rank_order(self@),
    {
        proof {
            use_type_invariant(self);
        }
        self.individuals.len()
    }

    pub fn individuals(&self) -> (individuals: &[Individual<G, F>])
        ensures
            views_of(individuals@) == self@,
            all_rated(self@),
            in_rank_order(self@),
    {
        proof {
            use_type_invariant(self);
        }
        self.individuals.as_slice()
    }

    /// Merging a ranked population with a rated population results in a rated
    /// population, as the order of ranks no longer holds: the individuals of
    /// `self`, with the ranks they had, followed by those of `offspring`.
    pub fn merge(self, offspring: RatedPopulation<G, F>) -> (merged: RatedPopulation<G, F>)
        ensures
            merged@ == self@ + offspring@,
    {
        proof {
            use_type_invariant(&self);
            use_type_invariant(&offspring);
        }
        let mut individuals = self.individuals;
        let mut rest = offspring.individuals;
        let ghost first = individuals@;
        let ghost second = rest@;
        individuals.append(&mut rest);
        proof {
            assert(views_of(individuals@) =~= views_of(first) + views_of(second));
        }
        RatedPopulation { individuals }
    }

    /// The genomes of the population as a new, unrated population.
    pub fn into_unrated(self) -> (unrated: UnratedPopulation<G, F>)
        ensures
            unrated@.len() == self@.len(),
            forall|i: int| 0 <= i < self@.len() ==> #[trigger] unrated@[i] == fresh::<G, F>(self@[i].genome),
    {
        let ghost before = self@;
        let mut rest = reversed(self.individuals);
        let ghost backwards = rest@;
        let mut individuals: Vec<Individual<G, F>> = Vec::new();
        while rest.len() > 0
            invariant
                rest@.len() + individuals@.len() == before.len(),
                backwards.len() == before.len(),
                forall|i: int|
                    0 <= i < backwards.len() ==> (#[trigger] backwards[i])@ == before[before.len() - 1
                        - i],
                forall|i: int| 0 <= i < rest@.len() ==> #[trigger] rest@[i] == backwards[i],
                forall|i: int|
                    0 <= i < individuals@.len() ==> (#[trigger] individuals@[i])@ == fresh::<G, F>(
                        before[i].genome,
                    ),
            decreases rest@.len(),
        {
            let ghost at = individuals@.len() as int;
            let individual = rest.pop();
            proof {
                assert(backwards[before.len() - 1 - at]@ == before[at]);
            }
            match individual {
                Some(individual) => {
                    individuals.push(Individual::from_genome(individual.into_genome()));
                },
                None => {},
            }
        }
        proof {
            assert forall|i: int| 0 <= i < individuals@.len() implies (#[trigger] views_of(
                individuals@,
            )[i]).fitness is None by {
                assert(individuals@[i]@ == fresh::<G, F>(before[i].genome));
            }
        }
        UnratedPopulation { individuals }
    }

    /// Who is better, by rank and crowding distance, among the individuals.
    pub open spec fn better(&self) -> spec_fn(usize, usize) -> bool {
        |a: usize, b: usize| better_ranked(self@[a as int], self@[b as int])
    }

    /// `child` is what `mate` makes of two parents of the population, each of
    /// them the champion of a tournament of `k` candidates, or of one
    /// candidate if `k` is zero.
    pub open spec fn breeds<M: Fn(&mut StdRng, &G, &G) -> G>(&self, mate: M, k: usize, child: G) -> bool {
        exists|rng: &mut StdRng, first: Seq<usize>, second: Seq<usize>|
            {
                &&& self.entrants(first, k)
                &&& self.entrants(second, k)
                &&& #[trigger] call_ensures(
                    mate,
                    (
                        rng,
                        &self@[champion(self.better(), first) as int].genome,
                        &self@[champion(self.better(), second) as int].genome,
                    ),
                    child,
                )
            }
    }

    /// `draws` are the candidates of one tournament: `k` individuals of the
    /// population, or one if `k` is zero.
    pub open spec fn entrants(&self, draws: Seq<usize>, k: usize) -> bool {
        &&& draws.len() == if k == 0 {
            1
        } else {
            k as int
        }
        &&& forall|t: int| 0 <= t < draws.len() ==> draws[t] < self@.len()
    }

    /// Picks a parent: the winner of a tournament of `tournament_k`
    /// individuals drawn at random.
    pub fn pick_parent(&self, rng: &mut StdRng, tournament_k: usize) -> (parent: usize)
        requires
            self@.len() > 0,
        ensures
            parent < self@.len(),
            exists|draws: Seq<usize>| #[trigger]
                self.entrants(draws, tournament_k) && parent == champion(self.better(), draws),
    {
        let n = self.individuals.len();
        let better_than = |i1: usize, i2: usize| -> (r: bool)
            requires
                i1 < self.individuals@.len(),
                i2 < self.individuals@.len(),
            ensures
                r == better_ranked(self.individuals@[i1 as int]@, self.individuals@[i2 as int]@),
            { self.individuals[i1].has_better_rank_and_crowding(&self.individuals[i2]) };
        let parent = tournament_selection_fast(rng, better_than, n, tournament_k);
        proof {
            let draws = choose|draws: Seq<usize>|
                {
                    &&& draws.len() == if tournament_k == 0 {
                        1
                    } else {
                        tournament_k as int
                    }
                    &&& forall|t: int| 0 <= t < draws.len() ==> draws[t] < n
                    &&& #[trigger] wins(better_than, draws, parent)
                };
            assert(answers_as(better_than, self.better(), n));
            lemma_wins_champion(better_than, self.better(), n, draws, parent);
            assert(self.entrants(draws, tournament_k));
        }
        parent
    }

    /// Generate an unrated offspring population of `offspring_size`
    /// individuals. Each is made by `mate` from two parents, and each parent
    /// is the winner of a tournament of `tournament_k` individuals drawn at
    /// random.
    pub fn reproduce<M: Fn(&mut StdRng, &G, &G) -> G>(
        &self,
        rng: &mut StdRng,
        offspring_size: usize,
        tournament_k: usize,
        mate: &M,
    ) -> (offspring: UnratedPopulation<G, F>)
        requires
            tournament_k > 0,
            self@.len() > 0,
            forall|r: &mut StdRng, a: int, b: int|
                0 <= a < self@.len() && 0 <= b < self@.len() ==> call_requires(
                    *mate,
                    (r, &self@[a].genome, &self@[b].genome),
                ),
        ensures
            offspring@.len() == offspring_size,
            forall|i: int|
                0 <= i < offspring_size ==> (#[trigger] offspring@[i]) == fresh::<G, F>(
                    offspring@[i].genome,
                ) && self.breeds(*mate, tournament_k, offspring@[i].genome),
    {
        let mut individuals: Vec<Individual<G, F>> = Vec::new();
        let mut i: usize = 0;
        while i < offspring_size
            invariant
                i <= offspring_size,
                individuals@.len() == i,
                self@.len() > 0,
                forall|r: &mut StdRng, a: int, b: int|
                    0 <= a < self@.len() && 0 <= b < self@.len() ==> call_requires(
                        *mate,
                        (r, &self@[a].genome, &self@[b].genome),
                    ),
                forall|t: int|
                    0 <= t < i ==> (#[trigger] individuals@[t])@ == fresh::<G, F>(
                        individuals@[t]@.genome,
                    ) && self.breeds(*mate, tournament_k, individuals@[t]@.genome),
            decreases offspring_size - i,
        {
            // first parent. k candidates
            let parent1 = self.pick_parent(rng, tournament_k);
            // second parent. k candidates
            let parent2 = self.pick_parent(rng, tournament_k);
            proof {
                assert(self.individuals@[parent1 as int]@ == self@[parent1 as int]);
                assert(self.individuals@[parent2 as int]@ == self@[parent2 as int]);
            }
            // cross-over the two parents and produce one child
            let child = mate(rng, self.individuals[parent1].genome(), self.individuals[parent2].genome());
            individuals.push(Individual::from_genome(child));
            i = i + 1;
        }
        proof {
            assert forall|t: int| 0 <= t < individuals@.len() implies (#[trigger] views_of(
                individuals@,
            )[t]).fitness is None by {
                assert(individuals@[t]@ == fresh::<G, F>(individuals@[t]@.genome));
            }
        }
        UnratedPopulation { individuals }
    }

    /// Calls `f` on the genome and the fitness of every individual, in order.
    pub fn all<C: Fn(&G, &F)>(&self, f: &C)
        requires
            forall|i: int|
                0 <= i < self@.len() ==> call_requires(
                    *f,
                    (&self@[i].genome, &self@[i].fitness->0),
                ),
    {
        proof {
            use_type_invariant(self);
        }
        let mut i: usize = 0;
        while i < self.individuals.len()
            invariant
                i <= self.individuals@.len(),
                all_rated(views_of(self.individuals@)),
                forall|t: int|
                    0 <= t < self@.len() ==> call_requires(
                        *f,
                        (&self@[t].genome, &self@[t].fitness->0),
                    ),
            decreases self.individuals@.len() - i,
        {
            proof {
                assert(views_of(self.individuals@)[i as int].fitness is Some);
                assert(self.individuals@[i as int]@ == self@[i as int]);
            }
            f(self.individuals[i].genome(), self.individuals[i].fitness());
            i = i + 1;
        }
    }

    /// Calls `f` on the genome and the fitness of every individual of rank
    /// `rank`, in order.
    pub fn all_of_rank<C: Fn(&G, &F)>(&self, rank: usize, f: &C)
        requires
            forall|i: int|
                0 <= i < self@.len() ==> call_requires(
                    *f,
                    (&self@[i].genome, &self@[i].fitness->0),
                ),
    {
        proof {
            use_type_invariant(self);
        }
        let mut i: usize = 0;
        while i < self.individuals.len()
            invariant
                i <= self.individuals@.len(),
                all_rated(views_of(self.individuals@)),
                forall|t: int|
                    0 <= t < self@.len() ==> call_requires(
                        *f,
                        (&self@[t].genome, &self@[t].fitness->0),
                    ),
            decreases self.individuals@.len() - i,
        {
            proof {
                assert(views_of(self.individuals@)[i as int].fitness is Some);
                assert(self.individuals@[i as int]@ == self@[i as int]);
            }
            if self.individuals[i].rank() == rank {
                f(self.individuals[i].genome(), self.individuals[i].fitness());
            }
            i = i + 1;
        }
    }

    /// The largest rank of the individuals, if there are any.
    pub fn max_rank(&self) -> (max: Option<usize>)
        ensures
            self@.len() == 0 <==> max is None,
            max matches Some(m) ==> (exists|i: int| 0 <= i < self@.len() && self@[i].rank == m)
                && forall|i: int| 0 <= i < self@.len() ==> self@[i].rank <= m,
    {
        let mut max: Option<usize> = None;
        let mut i: usize = 0;
        while i < self.individuals.len()
            invariant
                i <= self.individuals@.len(),
                i == 0 <==> max is None,
                max matches Some(m) ==> (exists|t: int|
                    0 <= t < i && views_of(self.individuals@)[t].rank == m) && forall|t: int|
                    0 <= t < i ==> views_of(self.individuals@)[t].rank <= m,
            decreases self.individuals@.len() - i,
        {
            let rank = self.individuals[i].rank();
            assert(rank == views_of(self.individuals@)[i as int].rank);
            max = match max {
                None => Some(rank),
                Some(m) => if rank > m {
                    Some(rank)
                } else {
                    Some(m)
                },
            };
            i = i + 1;
        }
        max
    }
}

} // verus!
