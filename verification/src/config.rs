//! Configuration of the search.  Ratios and penalties are integers in
//! thousandths: a value of `1000` stands for one.

use vstd::prelude::*;

verus! {

/// All tunable parameters, with the usual defaults.
#[derive(Debug, Clone)]
pub struct Config {
    /// Minimum population size per bag.
    pub min_pop_size: usize,
    /// Individuals added per generation before survivor selection.
    pub generation_size: usize,
    /// Elite individuals the diversity weight spares.
    pub n_elite: usize,
    /// Nearest peers feeding the diversity measure.
    pub n_closest: usize,
    /// Neighbour-list size of the local search.
    pub granularity: usize,
    /// Target share of feasible individuals, in thousandths.
    pub target_feasible_ratio: u64,
    /// Starting capacity penalty, in thousandths.
    pub initial_capacity_penalty: u64,
    /// Iterations without improvement before the run stops.
    pub max_iterations_without_improvement: u32,
    /// Optional wall-clock limit, in milliseconds.
    pub time_limit: Option<u64>,
}

impl Default for Config {
    /// The defaults of the solver.
    fn default() -> (r: Config)
        ensures
            r.min_pop_size == 25,
            r.generation_size == 40,
            r.n_elite == 4,
            r.n_closest == 5,
            r.granularity == 20,
            r.target_feasible_ratio == 200,
            r.initial_capacity_penalty == 1000,
            r.max_iterations_without_improvement == 20000,
            r.time_limit == None::<u64>,
    {
        Config {
            min_pop_size: 25,
            generation_size: 40,
            n_elite: 4,
            n_closest: 5,
            granularity: 20,
            target_feasible_ratio: 200,
            initial_capacity_penalty: 1000,
            max_iterations_without_improvement: 20000,
            time_limit: None,
        }
    }
}

impl Config {
    /// A configuration with the default values.
    pub fn new() -> (r: Config)
        ensures
            r.min_pop_size == 25,
            r.generation_size == 40,
            r.n_elite == 4,
            r.n_closest == 5,
            r.granularity == 20,
            r.target_feasible_ratio == 200,
            r.initial_capacity_penalty == 1000,
            r.max_iterations_without_improvement == 20000,
            r.time_limit == None::<u64>,
    {
        Config::default()
    }

    /// Set the minimum population size.
    pub fn with_min_pop_size(self, size: usize) -> (r: Config)
        ensures
            r == (Config { min_pop_size: size, ..self }),
    {
        Config { min_pop_size: size, ..self }
    }

    /// Set the generation size.
    pub fn with_generation_size(self, size: usize) -> (r: Config)
        ensures
            r == (Config { generation_size: size, ..self }),
    {
        Config { generation_size: size, ..self }
    }

    /// Set the number of elite individuals.
    pub fn with_n_elite(self, n: usize) -> (r: Config)
        ensures
            r == (Config { n_elite: n, ..self }),
    {
        Config { n_elite: n, ..self }
    }

    /// Set the number of closest peers in the diversity measure.
    pub fn with_n_closest(self, n: usize) -> (r: Config)
        ensures
            r == (Config { n_closest: n, ..self }),
    {
        Config { n_closest: n, ..self }
    }

    /// Set the neighbour-list size.
    pub fn with_granularity(self, g: usize) -> (r: Config)
        ensures
            r == (Config { granularity: g, ..self }),
    {
        Config { granularity: g, ..self }
    }

    /// Set the target feasible share, in thousandths.
    pub fn with_target_feasible_ratio(self, ratio_per_mille: u64) -> (r: Config)
        ensures
            r == (Config { target_feasible_ratio: ratio_per_mille, ..self }),
    {
        Config { target_feasible_ratio: ratio_per_mille, ..self }
    }

    /// Set the starting capacity penalty, in thousandths.
    pub fn with_initial_capacity_penalty(self, penalty_per_mille: u64) -> (r: Config)
        ensures
            r == (Config { initial_capacity_penalty: penalty_per_mille, ..self }),
    {
        Config { initial_capacity_penalty: penalty_per_mille, ..self }
    }

    /// Set the improvement-free iteration limit.
    pub fn with_max_iterations_without_improvement(self, iterations: u32) -> (r: Config)
        ensures
            r == (Config { max_iterations_without_improvement: iterations, ..self }),
    {
        Config { max_iterations_without_improvement: iterations, ..self }
    }

    /// Set the wall-clock limit, in milliseconds.
    pub fn with_time_limit(self, millis: u64) -> (r: Config)
        ensures
            r == (Config { time_limit: Some(millis), ..self }),
    {
        Config { time_limit: Some(millis), ..self }
    }
}

} // verus!
