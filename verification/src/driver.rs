//! The generational driver: configuration and the loop of rating, selecting
//! and reproducing.

use crate::clock::now_ns;
use crate::multi_objective::MultiObjective;
use crate::population::{
    all_rated, fresh, in_rank_order, ranked_by, IndividualView, RankedPopulation, RatedPopulation,
    SelectionPolicy, UnratedPopulation,
};
use crate::tournament_selection::champion;
use rand::StdRng;
use vstd::prelude::*;

verus! {

/// The parameters of a run.
pub struct DriverConfig {
    /// The number of individuals that survive each generation.
    pub mu: usize,
    /// The number of offspring produced in each generation.
    pub lambda: usize,
    /// The number of candidates in each tournament.
    pub k: usize,
    /// The number of generations after the first.
    pub ngen: usize,
    /// The indices of the objectives that take part in the selection.
    pub objectives: Vec<usize>,
}

/// What the driver does after a generation.
#[derive(Clone, Copy, Debug, PartialEq, Eq, Structural)]
pub enum Step {
    /// The run ends with the present parents.
    Stop,
    /// The run goes on with the generation of this number.
    Continue(usize),
}

/// What is to be done after generation `generation`, in which
/// `found_solutions` solutions were found, when `ngen` generations are to
/// follow the first: stop if a solution was found or if the generations are
/// used up.
pub open spec fn step_after(found_solutions: usize, generation: usize, ngen: usize) -> Step {
    if found_solutions > 0 || generation >= ngen {
        Step::Stop
    } else {
        Step::Continue((generation + 1) as usize)
    }
}

/// Decides what is to be done after a generation.
pub fn next_step(found_solutions: usize, generation: usize, ngen: usize) -> (step: Step)
    ensures
        step == step_after(found_solutions, generation, ngen),
{
    if found_solutions > 0 || generation >= ngen {
        Step::Stop
    } else {
        Step::Continue(generation + 1)
    }
}

/// The time from `earlier` to `later`, or zero if the clock went back.
pub fn elapsed(earlier: u64, later: u64) -> (duration: u64)
    ensures
        duration == if later >= earlier {
            later - earlier
        } else {
            0
        },
{
    if later >= earlier {
        later - earlier
    } else {
        0
    }
}

/// The number of answers that are yes.
pub open spec fn yeses(answers: Seq<bool>) -> nat
    decreases answers.len(),
{
    if answers.len() == 0 {
        0
    } else {
        yeses(answers.drop_last()) + if answers.last() {
            1nat
        } else {
            0nat
        }
    }
}

/// There are no more yeses than answers.
pub proof fn lemma_yeses_bound(answers: Seq<bool>)
    ensures
        yeses(answers) <= answers.len(),
    decreases answers.len(),
{
    if answers.len() > 0 {
        lemma_yeses_bound(answers.drop_last());
    }
}

/// `pool` holds the parents as they are, followed by as many individuals
/// as there are offspring, each of them the offspring at its place with a
/// fitness.
pub open spec fn pooled<G, F>(
    parents: Seq<IndividualView<G, F>>,
    offspring: Seq<IndividualView<G, F>>,
    pool: Seq<IndividualView<G, F>>,
) -> bool {
    &&& pool.len() == parents.len() + offspring.len()
    &&& forall|i: int| 0 <= i < parents.len() ==> #[trigger] pool[i] == parents[i]
    &&& forall|i: int|
        0 <= i < offspring.len() ==> (#[trigger] pool[parents.len() + i]).fitness is Some
            && pool[parents.len() + i] == (IndividualView {
            fitness: pool[parents.len() + i].fitness,
            ..offspring[i]
        })
}

/// What happened in one generation of a run.
pub struct Generation<G, F> {
    /// The parents that entered the generation.
    pub parents: RankedPopulation<G, F>,
    /// The offspring that entered the generation.
    pub offspring: UnratedPopulation<G, F>,
    /// The parents that left it.
    pub survivors: RankedPopulation<G, F>,
    /// The number of solutions found among them.
    pub found: usize,
}

/// Another generation follows generation `g`, which left `survivors` parents
/// with `found` solutions among them: no solution was found, generations are
/// left, and so are parents.
pub open spec fn goes_on(found: usize, survivors: nat, g: int, ngen: usize) -> bool {
    found == 0 && g < ngen && survivors > 0
}

/// The parents that left a generation entered the next.
pub open spec fn linked<G, F>(trace: Seq<Generation<G, F>>) -> bool {
    forall|g: int, h: int|
        0 <= g && h == g + 1 && h < trace.len() ==> (#[trigger] trace[h]).parents
            == (#[trigger] trace[g]).survivors
}

/// The generations of `trace` are the course of a run that ends with `result`
/// and selects by the objectives of `selected`: the parents that left a
/// generation entered the next, another generation followed each but the
/// last, and `result` are the parents that left the last.
pub open spec fn course_of<G, F>(
    config: &DriverConfig,
    multi_objective: &MultiObjective<F, i64>,
    selected: MultiObjective<F, i64>,
    trace: Seq<Generation<G, F>>,
    result: RankedPopulation<G, F>,
) -> bool {
    &&& selected.listed() == multi_objective.listed()
    &&& selected.active() == config.objectives@
    &&& 1 <= trace.len() <= config.ngen + 1
    &&& linked(trace)
    &&& forall|g: int|
        0 <= g < trace.len() - 1 ==> goes_on(
            (#[trigger] trace[g]).found,
            trace[g].survivors@.len(),
            g,
            config.ngen,
        )
    &&& !goes_on(
        trace.last().found,
        trace.last().survivors@.len(),
        trace.len() - 1,
        config.ngen,
    )
    &&& result == trace.last().survivors
}

/// `logger` was told of generation `g`: its number, some duration, the number
/// of solutions found and the parents that left it.
pub open spec fn told<G, F, L: Fn(usize, u64, usize, &RankedPopulation<G, F>)>(
    logger: L,
    g: int,
    found: usize,
    survivors: RankedPopulation<G, F>,
) -> bool {
    exists|duration: u64| #[trigger] call_ensures(logger, (g as usize, duration, found, &survivors), ())
}

/// Going on after a generation is what the step after it says, as long as
/// parents are left.
pub proof fn lemma_goes_on(found: usize, survivors: nat, g: usize, ngen: usize)
    ensures
        goes_on(found, survivors, g as int, ngen) <==> survivors > 0 && step_after(found, g, ngen)
            != Step::Stop,
{
}

/// A run ends with the generation in which a solution is found: none
/// follows it.
pub proof fn lemma_ends_at_a_solution<G, F>(
    config: &DriverConfig,
    multi_objective: &MultiObjective<F, i64>,
    selected: MultiObjective<F, i64>,
    trace: Seq<Generation<G, F>>,
    result: RankedPopulation<G, F>,
    g: int,
)
    requires
        course_of(config, multi_objective, selected, trace, result),
        0 <= g < trace.len(),
        trace[g].found > 0,
    ensures
        g == trace.len() - 1,
        result == trace[g].survivors,
{
    if g < trace.len() - 1 {
        assert(goes_on(trace[g].found, trace[g].survivors@.len(), g, config.ngen));
    }
}

/// A run in which no solution is found, and which parents leave every
/// generation of, has one generation and `config.ngen` more.
pub proof fn lemma_runs_to_the_end<G, F>(
    config: &DriverConfig,
    multi_objective: &MultiObjective<F, i64>,
    selected: MultiObjective<F, i64>,
    trace: Seq<Generation<G, F>>,
    result: RankedPopulation<G, F>,
)
    requires
        course_of(config, multi_objective, selected, trace, result),
        forall|g: int|
            0 <= g < trace.len() ==> (#[trigger] trace[g]).found == 0 && trace[g].survivors@.len()
                > 0,
    ensures
        trace.len() == config.ngen + 1,
{
    assert(trace.last() == trace[trace.len() - 1]);
}

/// A problem to be optimized: how to make, rate and mate genomes.
pub trait Driver: Sync {
    type GENOME: Sync + Send;

    type FIT: Send;

    /// Makes a random genome.
    fn random_genome(&self, rng: &mut StdRng) -> Self::GENOME;

    /// Makes `n` random genomes: a new individual of each genome that
    /// `random_genome` makes.
    fn initial_population(&self, rng: &mut StdRng, n: usize) -> (population: UnratedPopulation<
        Self::GENOME,
        Self::FIT,
    >)
        default_ensures
            population@.len() == n,
            forall|i: int|
                0 <= i < n ==> (#[trigger] population@[i]) == fresh::<Self::GENOME, Self::FIT>(
                    population@[i].genome,
                ) && exists|rng: &mut StdRng|
                    call_ensures(Self::random_genome, (self, rng), population@[i].genome),
    {
        let mut pop = UnratedPopulation::new();
        let mut i: usize = 0;
        while i < n
            invariant
                i <= n,
                pop@.len() == i,
                forall|t: int|
                    0 <= t < i ==> (#[trigger] pop@[t]) == fresh::<Self::GENOME, Self::FIT>(
                        pop@[t].genome,
                    ) && exists|rng: &mut StdRng|
                        call_ensures(Self::random_genome, (self, rng), pop@[t].genome),
            decreases n - i,
        {
            let ghost before = pop@;
            let genome = self.random_genome(rng);
            pop.push(genome);
            proof {
                assert(pop@[i as int].genome == genome);
                assert forall|t: int| 0 <= t < i implies #[trigger] pop@[t] == before[t] by {}
            }
            i = i + 1;
        }
        pop
    }

    /// Rates a genome. This is called from any thread.
    fn fitness(&self, ind: &Self::GENOME) -> Self::FIT;

    /// Makes a child of two parents.
    fn mate(&self, rng: &mut StdRng, parent1: &Self::GENOME, parent2: &Self::GENOME) -> Self::GENOME;

    /// Is this individual a solution? The run ends once one is found. Unless
    /// this is replaced, none is a solution.
    fn is_solution(&self, _ind: &Self::GENOME, _fit: &Self::FIT) -> (solution: bool)
        default_ensures
            !solution,
    {
        false
    }

    /// This can be used to update certain objectives in relation to the whole
    /// population. Unless it is replaced, it leaves the population as it is.
    fn population_metric(&self, _population: &mut RatedPopulation<Self::GENOME, Self::FIT>)
        default_ensures
            *final(_population) == *old(_population),
    {
    }

    /// The parents of the first generation: none.
    fn empty_parent_population(&self) -> (parents: RankedPopulation<Self::GENOME, Self::FIT>)
        default_ensures
            parents@.len() == 0,
    {
        RankedPopulation::<Self::GENOME, Self::FIT>::new()
    }

    /// Produces `config.lambda` offspring of the parents: a new individual of
    /// each child that `mate` makes of two parents, each of them the champion
    /// of a tournament of `config.k` candidates.
    fn reproduce(
        &self,
        parents: &RankedPopulation<Self::GENOME, Self::FIT>,
        rng: &mut StdRng,
        config: &DriverConfig,
    ) -> (offspring: UnratedPopulation<Self::GENOME, Self::FIT>)
        requires
            config.k > 0,
            parents@.len() > 0,
        default_ensures
            offspring@.len() == config.lambda,
            forall|i: int|
                0 <= i < config.lambda ==> (#[trigger] offspring@[i]) == fresh::<
                    Self::GENOME,
                    Self::FIT,
                >(offspring@[i].genome) && exists|
                    rng: &mut StdRng,
                    first: Seq<usize>,
                    second: Seq<usize>,
                |
                    {
                        &&& parents.entrants(first, config.k)
                        &&& parents.entrants(second, config.k)
                        &&& #[trigger] call_ensures(
                            Self::mate,
                            (
                                self,
                                rng,
                                &parents@[champion(parents.better(), first) as int].genome,
                                &parents@[champion(parents.better(), second) as int].genome,
                            ),
                            offspring@[i].genome,
                        )
                    },
    {
        let mate = |rng: &mut StdRng, parent1: &Self::GENOME, parent2: &Self::GENOME| -> (child: Self::GENOME)
            ensures
                exists|r: &mut StdRng| call_ensures(Self::mate, (self, r, parent1, parent2), child),
            { self.mate(rng, parent1, parent2) };
        let offspring = parents.reproduce(rng, config.lambda, config.k, &mate);
        proof {
            assert forall|i: int| 0 <= i < config.lambda implies (#[trigger] offspring@[i])
                == fresh::<Self::GENOME, Self::FIT>(offspring@[i].genome) && exists|
                rng: &mut StdRng,
                first: Seq<usize>,
                second: Seq<usize>,
            |
                {
                    &&& parents.entrants(first, config.k)
                    &&& parents.entrants(second, config.k)
                    &&& #[trigger] call_ensures(
                        Self::mate,
                        (
                            self,
                            rng,
                            &parents@[champion(parents.better(), first) as int].genome,
                            &parents@[champion(parents.better(), second) as int].genome,
                        ),
                        offspring@[i].genome,
                    )
                } by {
                assert(parents.breeds(mate, config.k, offspring@[i].genome));
            }
        }
        offspring
    }

    /// Merges the parent population with the offspring population and selects
    /// `config.mu` individuals by the objectives of `multi_objective`,
    /// according to `selection`.
    ///
    /// The offspring is rated by `fitness` and put behind the parents,
    /// `population_metric` is applied to the pool of both, and the survivors
    /// are selected from what it leaves.
    fn merge_and_select(
        &self,
        parents: RankedPopulation<Self::GENOME, Self::FIT>,
        offspring: UnratedPopulation<Self::GENOME, Self::FIT>,
        rng: &mut StdRng,
        config: &DriverConfig,
        multi_objective: &MultiObjective<Self::FIT, i64>,
        selection: &SelectionPolicy,
    ) -> (selected: RankedPopulation<Self::GENOME, Self::FIT>)
        default_ensures
            selected@.len() <= config.mu,
            exists|pool: &mut RatedPopulation<Self::GENOME, Self::FIT>|
                {
                    &&& pooled(parents@, offspring@, (*pool)@)
                    &&& forall|i: int|
                        0 <= i < offspring@.len() ==> call_ensures(
                            Self::fitness,
                            (self, &offspring@[i].genome),
                            (#[trigger] (*pool)@[parents@.len() + i]).fitness->0,
                        )
                    &&& #[trigger] call_ensures(Self::population_metric, (self, pool), ())
                    &&& ranked_by(
                        (*final(pool))@,
                        multi_objective,
                        *selection,
                        config.mu as nat,
                        selected@,
                    )
                },
    {
        let ghost before = parents@;
        let ghost born = offspring@;
        let eval = |ind: &Self::GENOME| -> (fit: Self::FIT)
            ensures
                call_ensures(Self::fitness, (self, ind), fit),
            { self.fitness(ind) };
        let rated_offspring = offspring.rate_in_parallel(&eval);
        let ghost rated = rated_offspring@;
        let mut next_generation = parents.merge(rated_offspring);
        proof {
            assert(next_generation@ == before + rated);
            assert forall|i: int| 0 <= i < born.len() implies (#[trigger] next_generation@[before.len()
                + i]).fitness is Some && next_generation@[before.len() + i] == (IndividualView {
                fitness: next_generation@[before.len() + i].fitness,
                ..born[i]
            }) && call_ensures(
                Self::fitness,
                (self, &born[i].genome),
                next_generation@[before.len() + i].fitness->0,
            ) by {
                assert(next_generation@[before.len() + i] == rated[i]);
                assert(crate::population::rates(eval, born[i], rated[i]));
            }
            assert(pooled(before, born, next_generation@));
        }

        // apply a population metric on the whole population
        self.population_metric(&mut next_generation);

        next_generation.select_by(config.mu, multi_objective, selection, rng)
    }

    /// Counts the individuals that are solutions: those of which `is_solution`
    /// says so.
    fn count_solutions(&self, parents: &RankedPopulation<Self::GENOME, Self::FIT>) -> (found: usize)
        default_ensures
            found <= parents@.len(),
            exists|answers: Seq<bool>|
                {
                    &&& answers.len() == parents@.len()
                    &&& forall|i: int|
                        0 <= i < answers.len() ==> call_ensures(
                            Self::is_solution,
                            (self, &parents@[i].genome, &parents@[i].fitness->0),
                            #[trigger] answers[i],
                        )
                    &&& found == #[trigger] yeses(answers)
                },
    {
        let individuals = parents.individuals();
        let mut found: usize = 0;
        let mut i: usize = 0;
        let ghost mut answers: Seq<bool> = Seq::empty();
        while i < individuals.len()
            invariant
                i <= individuals@.len(),
                found <= i,
                crate::population::views_of(individuals@) == parents@,
                all_rated(parents@),
                answers.len() == i,
                forall|t: int|
                    0 <= t < i ==> call_ensures(
                        Self::is_solution,
                        (self, &parents@[t].genome, &parents@[t].fitness->0),
                        #[trigger] answers[t],
                    ),
                found == yeses(answers),
            decreases individuals@.len() - i,
        {
            proof {
                assert(crate::population::views_of(individuals@)[i as int].fitness is Some);
            }
            let solution = self.is_solution(individuals[i].genome(), individuals[i].fitness());
            proof {
                let longer = answers.push(solution);
                assert(longer.drop_last() =~= answers);
                lemma_yeses_bound(answers);
                answers = longer;
            }
            if solution {
                found = found + 1;
            }
            i = i + 1;
        }
        found
    }

    /// Runs the generations. The first generation is `config.mu` random
    /// genomes. In every generation the offspring is rated and merged with
    /// the parents, and `config.mu` individuals are selected as the new
    /// parents, by those objectives of `multi_objective` that
    /// `config.objectives` lists and according to `selection`. `logger` is
    /// then told the number of the generation, the
    /// nanoseconds since it was last told, the number of solutions among the
    /// parents, and the parents. The run ends when a solution is found, when
    /// `config.ngen` generations have followed the first, or when no parents
    /// are left. Otherwise the parents produce `config.lambda` offspring.
    ///
    /// What is returned is stated over the course of the generations: each
    /// is entered by the parents that left the one before and by the
    /// offspring that `reproduce` made of them, `merge_and_select` makes the
    /// parents that leave it, `count_solutions` finds the solutions among
    /// them, and the parents that leave the last generation are returned.
    ///
    /// A run needs a population and tournaments that are not empty, and at
    /// least one objective to select by.
    fn run<L: Fn(usize, u64, usize, &RankedPopulation<Self::GENOME, Self::FIT>)>(
        &self,
        rng: &mut StdRng,
        config: &DriverConfig,
        multi_objective: &MultiObjective<Self::FIT, i64>,
        selection: &SelectionPolicy,
        logger: &L,
    ) -> (parents: RankedPopulation<Self::GENOME, Self::FIT>)
        requires
            config.mu > 0,
            config.k > 0,
            config.objectives@.len() > 0,
            forall|i: int|
                0 <= i < config.objectives@.len() ==> config.objectives@[i]
                    < multi_objective.listed().len(),
            forall|
                generation: usize,
                duration: u64,
                found: usize,
                parents: &RankedPopulation<Self::GENOME, Self::FIT>,
            | call_requires(*logger, (generation, duration, found, parents)),
        default_ensures
            all_rated(parents@),
            in_rank_order(parents@),
            exists|
                selected: MultiObjective<Self::FIT, i64>,
                trace: Seq<Generation<Self::GENOME, Self::FIT>>,
            |
                {
                    &&& #[trigger] course_of(config, multi_objective, selected, trace, parents)
                    &&& forall|g: int|
                        0 <= g < trace.len() ==> {
                            &&& if g == 0 {
                                call_ensures(
                                    Self::empty_parent_population,
                                    (self,),
                                    (#[trigger] trace[g]).parents,
                                ) && exists|rng: &mut StdRng|
                                    call_ensures(
                                        Self::initial_population,
                                        (self, rng, config.mu),
                                        trace[g].offspring,
                                    )
                            } else {
                                exists|rng: &mut StdRng|
                                    call_ensures(
                                        Self::reproduce,
                                        (self, &trace[g].parents, rng, config),
                                        trace[g].offspring,
                                    )
                            }
                            &&& exists|rng: &mut StdRng|
                                call_ensures(
                                    Self::merge_and_select,
                                    (
                                        self,
                                        trace[g].parents,
                                        trace[g].offspring,
                                        rng,
                                        config,
                                        &selected,
                                        selection,
                                    ),
                                    trace[g].survivors,
                                )
                            &&& call_ensures(
                                Self::count_solutions,
                                (self, &trace[g].survivors),
                                trace[g].found,
                            )
                            &&& told(*logger, g, trace[g].found, trace[g].survivors)
                        }
                },
    {
        let chosen = multi_objective.select(config.objectives.as_slice()).unwrap();
        // this is generation 0. it's empty
        let mut time_last = now_ns();
        let mut parents = self.empty_parent_population();
        let mut offspring = self.initial_population(rng, config.mu);
        let mut generation: usize = 0;
        let mut running = true;
        let ghost mut trace: Seq<Generation<Self::GENOME, Self::FIT>> = Seq::empty();
        while running
            invariant
                config.mu > 0,
                config.k > 0,
                generation <= config.ngen,
                chosen.listed() == multi_objective.listed(),
                chosen.active() == config.objectives@,
                linked(trace),
                running ==> trace.len() == generation,
                running ==> if generation == 0 {
                    call_ensures(Self::empty_parent_population, (self,), parents) && exists|
                        rng: &mut StdRng,
                    |
                        call_ensures(Self::initial_population, (self, rng, config.mu), offspring)
                } else {
                    parents == trace.last().survivors && exists|rng: &mut StdRng|
                        call_ensures(Self::reproduce, (self, &parents, rng, config), offspring)
                },
                running ==> forall|g: int|
                    0 <= g < trace.len() ==> goes_on(
                        (#[trigger] trace[g]).found,
                        trace[g].survivors@.len(),
                        g,
                        config.ngen,
                    ),
                !running ==> all_rated(parents@) && in_rank_order(parents@) && course_of(
                    config,
                    multi_objective,
                    chosen,
                    trace,
                    parents,
                ),
                forall|g: int|
                    0 <= g < trace.len() ==> {
                        &&& if g == 0 {
                            call_ensures(
                                Self::empty_parent_population,
                                (self,),
                                (#[trigger] trace[g]).parents,
                            ) && exists|rng: &mut StdRng|
                                call_ensures(
                                    Self::initial_population,
                                    (self, rng, config.mu),
                                    trace[g].offspring,
                                )
                        } else {
                            exists|rng: &mut StdRng|
                                call_ensures(
                                    Self::reproduce,
                                    (self, &trace[g].parents, rng, config),
                                    trace[g].offspring,
                                )
                        }
                        &&& exists|rng: &mut StdRng|
                            call_ensures(
                                Self::merge_and_select,
                                (
                                    self,
                                    trace[g].parents,
                                    trace[g].offspring,
                                    rng,
                                    config,
                                    &chosen,
                                    selection,
                                ),
                                trace[g].survivors,
                            )
                        &&& call_ensures(
                            Self::count_solutions,
                            (self, &trace[g].survivors),
                            trace[g].found,
                        )
                        &&& told(*logger, g, trace[g].found, trace[g].survivors)
                    },
                forall|
                    generation: usize,
                    duration: u64,
                    found: usize,
                    parents: &RankedPopulation<Self::GENOME, Self::FIT>,
                | call_requires(*logger, (generation, duration, found, parents)),
            decreases
                    if running {
                        config.ngen - generation + 1
                    } else {
                        0
                    },
        {
            let ghost before = trace;
            let ghost entering = parents;
            let ghost born = offspring;
            parents = self.merge_and_select(parents, offspring, rng, config, &chosen, selection);
            let survivors = parents.len();
            let found_solutions = self.count_solutions(&parents);

            let now = now_ns();
            let duration = elapsed(time_last, now);
            time_last = now;

            logger(generation, duration, found_solutions, &parents);

            proof {
                let this = Generation {
                    parents: entering,
                    offspring: born,
                    survivors: parents,
                    found: found_solutions,
                };
                trace = before.push(this);
                lemma_goes_on(found_solutions, survivors as nat, generation, config.ngen);
                assert(told(*logger, generation as int, found_solutions, parents));
                assert forall|g: int| 0 <= g < before.len() implies #[trigger] trace[g]
                    == before[g] by {}
                assert(trace[generation as int] == this);
                assert(call_ensures(Self::count_solutions, (self, &this.survivors), this.found));
                assert(exists|rng: &mut StdRng|
                    call_ensures(
                        Self::merge_and_select,
                        (self, this.parents, this.offspring, rng, config, &chosen, selection),
                        this.survivors,
                    ));
                if generation == 0 {
                    assert(call_ensures(Self::empty_parent_population, (self,), this.parents));
                    assert(exists|rng: &mut StdRng|
                        call_ensures(
                            Self::initial_population,
                            (self, rng, config.mu),
                            this.offspring,
                        ));
                } else {
                    assert(exists|rng: &mut StdRng|
                        call_ensures(
                            Self::reproduce,
                            (self, &this.parents, rng, config),
                            this.offspring,
                        ));
                }
                assert(linked(trace)) by {
                    assert forall|g: int, h: int|
                        0 <= g && h == g + 1 && h < trace.len() implies (#[trigger] trace[h]).parents
                        == (#[trigger] trace[g]).survivors by {
                        if h < before.len() {
                            assert(before[h].parents == before[g].survivors);
                        } else {
                            assert(before.last() == before[g]);
                        }
                    }
                }
            }

            match next_step(found_solutions, generation, config.ngen) {
                Step::Stop => {
                    running = false;
                    offspring = UnratedPopulation::new();
                },
                Step::Continue(next) => {
                    if survivors == 0 {
                        running = false;
                        offspring = UnratedPopulation::new();
                    } else {
                        generation = next;
                        offspring = self.reproduce(&parents, rng, config);
                    }
                },
            }
        }
        parents
    }
}

} // verus!
