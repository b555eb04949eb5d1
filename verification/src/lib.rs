//! Multi-objective selection in the NSGA-II family, with machine-checked contracts.
//!
//! Candidate solutions are scored on several objectives. The crate partitions them
//! into Pareto fronts, measures how crowded each solution is inside its front, and
//! selects a fixed number of survivors that balances front rank with diversity.
//! A generational driver rates, selects and reproduces a population with these
//! means.
//!
//! All arithmetic is on whole numbers: distances between solutions are `i64`,
//! crowding distances count units of 2^-32, and probabilities are fractions.

// Objectives and dominance.
pub mod verdict;
pub mod objective;
pub mod domination;
pub mod multi_objective;

// Pareto fronts.
pub mod graph;
pub mod fronts;
pub mod sort;
pub mod non_dominated_sort;

// Selection by crowding distance.
pub mod stable_sort;
pub mod crowding_distance;
pub mod selection;

// Selection by groups of similar solutions.
pub mod groups;
pub mod grouping;
pub mod pools;
pub mod round_robin;
pub mod select_nsgp;

// Chance.
pub mod random;
pub mod tournament_selection;
pub mod prob;
pub mod prob_domination;

// Populations and the generational loop.
pub mod parallel;
pub mod vectors;
pub mod clock;
pub mod population;
pub mod driver;
