//! Hybrid genetic search for the capacitated vehicle routing problem.
//!
//! The solver works on an exact integer model of the plane: node
//! coordinates and demands are integers, an edge's length is the Euclidean
//! distance rounded down to the nearest integer, and the adaptive capacity
//! penalty is kept in thousandths, so a penalty value of `1000` weighs one
//! unit of excess load like one unit of distance.  Every comparison the
//! search makes (move acceptance, feasibility, penalty adaptation) is then
//! exact, and the quantities the contracts speak of are the quantities the
//! code computes.

use vstd::prelude::*;

verus! {

/// Largest node count a problem instance may hold.
pub const MAX_NODES: usize = 65536;

/// Largest absolute coordinate value a node may hold.
pub const COORD_LIMIT: i64 = 1_000_000_000;

/// Largest demand a single node may hold.
pub const DEMAND_LIMIT: u64 = 1_000_000_000;

/// Upper bound on any entry of a distance matrix built from nodes within
/// `COORD_LIMIT`: the diagonal of the bounding square, rounded up.
pub const MAX_DIST: u64 = 3_000_000_000;

/// Scale of the capacity penalty: a penalty of `PENALTY_UNIT` adds one
/// unit of cost per unit of excess load.
pub const PENALTY_UNIT: u64 = 1000;

} // verus!

pub mod problem;
pub mod solution;
pub mod split;
pub mod rng;
pub mod local_search;
pub mod individual;
pub mod genetic;
pub mod config;
pub mod population;
pub mod utils;

use vstd::prelude::*;
use crate::config::Config;
use crate::genetic::Genetic;
use crate::individual::Individual;
use crate::local_search::LocalSearch;
use crate::population::Population;
use crate::problem::Problem;
use crate::solution::{cust_ok, Solution};
use crate::split::Split;

verus! {

#[verifier::external_type_specification]
#[verifier::external_body]
pub struct ExInstant(std::time::Instant);

/// Relies on `std::time::Instant::now`: a reading of the monotonic clock.
/// Nothing is assumed of the value.
#[verifier::external_body]
fn clock_now() -> (r: std::time::Instant) {
    std::time::Instant::now()
}

/// Relies on `Instant::elapsed` and `Duration::as_millis`: how long ago
/// the instant was, in milliseconds, saturated to the result's range.
/// Nothing is assumed of the value: time passes as it pleases.
#[verifier::external_body]
fn elapsed_millis(t: &std::time::Instant) -> (r: u64) {
    let millis = t.elapsed().as_millis();
    if millis > 0xffff_ffff_ffff_ffff {
        0xffff_ffff_ffff_ffff
    } else {
        millis as u64
    }
}

/// A giant tour that is a permutation of the instance's customers.
pub open spec fn perm_ok(p: &Problem, tour: Seq<usize>) -> bool {
    &&& crate::solution::valid_customers(p, tour)
    &&& tour.no_duplicates()
    &&& tour.len() == p.n() - 1
    &&& forall|c: usize| cust_ok(p, c) ==> tour.contains(c)
}

/// Two permutations of the same customers hold the same multiset.
proof fn lemma_perm_ms(p: &Problem, a: Seq<usize>, b: Seq<usize>)
    requires
        perm_ok(p, a),
        perm_ok(p, b),
    ensures
        a.to_multiset() == b.to_multiset(),
{
    broadcast use vstd::seq_lib::group_to_multiset_ensures;

    a.lemma_multiset_has_no_duplicates();
    b.lemma_multiset_has_no_duplicates();
    assert forall|v: usize| a.to_multiset().count(v) == b.to_multiset().count(v) by {
        if cust_ok(p, v) {
            assert(a.contains(v) && b.contains(v));
            assert(a.to_multiset().count(v) > 0 && b.to_multiset().count(v) > 0);
        } else {
            assert(!a.contains(v)) by {
                if a.contains(v) {
                    let w = choose|w: int| 0 <= w < a.len() && a[w] == v;
                }
            }
            assert(!b.contains(v)) by {
                if b.contains(v) {
                    let w = choose|w: int| 0 <= w < b.len() && b[w] == v;
                }
            }
            assert(a.to_multiset().count(v) == 0 && b.to_multiset().count(v) == 0);
        }
    }
    assert(a.to_multiset() =~= b.to_multiset());
}

/// Whether a tour is a permutation of the instance's customers: every
/// entry a customer, none twice, none missing.
pub fn check_giant_tour(problem: &Problem, tour: &Vec<usize>) -> (r: bool)
    requires
        problem.wf(),
    ensures
        r ==> perm_ok(problem, tour@),
{
    let n = problem.nodes.len();
    if tour.len() != n - 1 {
        return false;
    }
    let mut seen: Vec<bool> = vec![false; n];
    let mut k: usize = 0;
    while k < tour.len()
        invariant
            problem.wf(),
            n == problem.n(),
            seen@.len() == n,
            k <= tour@.len(),
            forall|q: int| 0 <= q < k ==> cust_ok(problem, #[trigger] tour@[q]),
            forall|a: int, b: int| 0 <= a < b < k ==> tour@[a] != tour@[b],
            forall|v: usize| (v as int) < n ==> #[trigger] seen@[v as int] == tour@.take(k as int).contains(v),
        decreases tour@.len() - k,
    {
        let c = tour[k];
        if c >= n || c == problem.depot_index {
            return false;
        }
        if seen[c] {
            proof {
                assert(tour@.take(k as int).contains(c));
                let w = choose|w: int| 0 <= w < k && tour@.take(k as int)[w] == c;
                assert(tour@[w] == c && tour@[k as int] == c);
            }
            return false;
        }
        let ghost pre = seen@;
        proof {
            assert(!tour@.take(k as int).contains(c));
            assert forall|a: int| 0 <= a < k implies tour@[a] != tour@[k as int] by {
                if tour@[a] == c {
                    assert(tour@.take(k as int)[a] == c);
                }
            }
        }
        *vstd::std_specs::vec::vec_index_mut(&mut seen, c) = true;
        proof {
            let before = tour@.take(k as int);
            let after = tour@.take(k + 1);
            assert(after.drop_last() =~= before);
            assert(after.last() == tour@[k as int]);
            assert forall|v: usize| (v as int) < n implies seen@[v as int] == after.contains(v) by {
                if v == c {
                    assert(after[k as int] == v);
                } else {
                    assert(seen@[v as int] == pre[v as int]);
                    assert(after.contains(v) == before.contains(v)) by {
                        if after.contains(v) {
                            let w = choose|w: int| 0 <= w < after.len() && after[w] == v;
                            assert(before[w] == v);
                        }
                        if before.contains(v) {
                            let w = choose|w: int| 0 <= w < before.len() && before[w] == v;
                            assert(after[w] == v);
                        }
                    }
                }
            }
        }
        k += 1;
    }
    proof {
        assert(tour@.take(tour@.len() as int) =~= tour@);
    }
    let mut c2: usize = 0;
    while c2 < n
        invariant
            problem.wf(),
            n == problem.n(),
            seen@.len() == n,
            c2 <= n,
            forall|v: usize| (v as int) < n ==> #[trigger] seen@[v as int] == tour@.contains(v),
            forall|v: usize| (v as int) < c2 && cust_ok(problem, v) ==> tour@.contains(v),
        decreases n - c2,
    {
        if c2 != problem.depot_index && !seen[c2] {
            return false;
        }
        c2 += 1;
    }
    proof {
        assert(forall|v: usize| cust_ok(problem, v) ==> #[trigger] tour@.contains(v));
        assert(tour@.no_duplicates());
    }
    true
}

/// Remember the better of the current best and a new feasible candidate.
/// The recorded best solution's cost never increases, and it is only ever
/// replaced by a feasible solution of strictly smaller cost.
pub fn record_best(best: &mut Option<Solution>, candidate: &Solution)
    requires
        candidate.is_feasible,
    ensures
        final(best).is_some(),
        old(best).is_some() ==> final(best).unwrap().cost <= old(best).unwrap().cost,
        *final(best) == *old(best) || {
            &&& final(best).unwrap().is_feasible
            &&& (old(best).is_some() ==> final(best).unwrap().cost < old(best).unwrap().cost)
        },
{
    let replace = match best {
        Some(prev) => candidate.cost < prev.cost,
        None => true,
    };
    if replace {
        *best = Some(candidate.clone());
    }
}

/// The whole solver: problem, population, operators, and best-solution
/// tracking.
pub struct HgsAlgorithm {
    pub problem: Problem,
    pub population: Population,
    pub config: Config,
    pub best_solution: Option<Solution>,
    /// Wall-clock time of the last run, in milliseconds.
    pub run_time: u64,
    pub iterations: u32,
    pub iterations_without_improvement: u32,
    pub genetic: Genetic,
    pub split: Split,
    pub local_search: LocalSearch,
    pub start_time: std::time::Instant,
}

impl HgsAlgorithm {
    /// Assemble a solver for the given instance and configuration.
    pub fn new(problem: Problem, config: Config) -> (r: HgsAlgorithm)
        requires
            problem.wf(),
            config.min_pop_size + config.generation_size <= usize::MAX,
        ensures
            r.problem == problem,
            r.config == config,
            r.best_solution == None::<Solution>,
            r.population.min_pop_size == config.min_pop_size,
            r.population.max_pop_size == config.min_pop_size + config.generation_size,
            r.population.capacity_penalty == config.initial_capacity_penalty,
            r.population.n_elite == config.n_elite,
            r.population.n_closest == config.n_closest,
            r.population.target_feasible_ratio == config.target_feasible_ratio,
            r.population.feasible_individuals@.len() == 0,
            r.population.infeasible_individuals@.len() == 0,
            r.local_search.granularity == config.granularity,
            r.iterations == 0,
            r.iterations_without_improvement == 0,
    {
        let population = Population::new(&config);
        let granularity = config.granularity;
        HgsAlgorithm {
            problem,
            population,
            config,
            best_solution: None,
            run_time: 0,
            iterations: 0,
            iterations_without_improvement: 0,
            genetic: Genetic,
            split: Split,
            local_search: LocalSearch::new(granularity),
            start_time: clock_now(),
        }
    }

    /// Fill the population with random solutions and remember the best
    /// feasible one.
    pub fn initialize(&mut self)
        requires
            old(self).problem.wf(),
            old(self).population.min_pop_size <= usize::MAX / 4,
            crate::population::tours_bounded(old(self).population.feasible_individuals@),
            crate::population::tours_bounded(old(self).population.infeasible_individuals@),
        ensures
            final(self).local_search == old(self).local_search,
            final(self).problem == old(self).problem,
            final(self).config == old(self).config,
            final(self).population.min_pop_size == old(self).population.min_pop_size,
            final(self).population.max_pop_size == old(self).population.max_pop_size,
            final(self).population.n_elite == old(self).population.n_elite,
            final(self).population.n_closest == old(self).population.n_closest,
            final(self).best_solution.is_some() ==> final(self).best_solution.unwrap().is_feasible,
            crate::population::tours_bounded(final(self).population.feasible_individuals@),
            crate::population::tours_bounded(final(self).population.infeasible_individuals@),
            crate::solution::all_demands_fit(&old(self).problem) && old(
                self,
            ).population.min_pop_size >= 1 && crate::population::flagged_feasible(
                old(self).population.feasible_individuals@,
            ) ==> final(self).best_solution.is_some(),
    {
        let ghost fpre = self.population.feasible_individuals@;
        let problem = &self.problem;
        self.population.initialize(problem, &self.config);
        let ghost owed = crate::solution::all_demands_fit(&self.problem)
            && self.population.min_pop_size >= 1 && crate::population::flagged_feasible(fpre);
        let recorded: Option<Solution> = match self.population.get_best_feasible_solution() {
            Some(best) => {
                proof {
                    if owed {
                        let i = choose|i: int|
                            0 <= i < self.population.feasible_individuals@.len() && *best == (
                            self.population.feasible_individuals@[i]).solution;
                        if i < fpre.len() {
                            assert(self.population.feasible_individuals@[i] == fpre[i]) by {
                                assert(self.population.feasible_individuals@.subrange(
                                    0,
                                    fpre.len() as int,
                                )[i] == self.population.feasible_individuals@[i]);
                            }
                            assert(fpre[i].solution.is_feasible);
                        } else {
                            assert(self.population.feasible_individuals@[i].solution.is_feasible);
                        }
                        assert(best.is_feasible);
                    }
                }
                let cloned = best.clone();
                if cloned.is_feasible {
                    Some(cloned)
                } else {
                    None
                }
            },
            None => {
                proof {
                    if owed {
                        assert(self.population.feasible_individuals@.len() >= fpre.len() + 4);
                        assert(false);
                    }
                }
                None
            },
        };
        self.best_solution = recorded;
    }

    /// Whether the run should stop: too many iterations without
    /// improvement, or past the time limit.
    fn should_terminate(&self) -> (r: bool)
        ensures
            self.iterations_without_improvement >= self.config.max_iterations_without_improvement ==> r,
    {
        if self.iterations_without_improvement >= self.config.max_iterations_without_improvement {
            return true;
        }
        match self.config.time_limit {
            Some(limit) => elapsed_millis(&self.start_time) >= limit,
            None => false,
        }
    }

    /// Run the search until termination and return the best feasible
    /// solution found, if any.  The recorded best solution's cost never
    /// increases over the run.
    pub fn run(&mut self) -> (r: Option<Solution>)
        requires
            old(self).problem.wf(),
            old(self).population.min_pop_size <= 250_000,
            old(self).config.min_pop_size + old(self).config.generation_size <= 1_000_000 - 1,
            old(self).population.min_pop_size >= 1,
            old(self).population.max_pop_size
                == old(self).population.min_pop_size + old(self).config.generation_size,
            crate::population::tours_bounded(old(self).population.feasible_individuals@),
            crate::population::tours_bounded(old(self).population.infeasible_individuals@),
            old(self).local_search.neighbors_ok(&old(self).problem),
        ensures
            match r {
                Some(s) => s.is_feasible,
                None => true,
            },
            crate::solution::all_demands_fit(&old(self).problem)
                && crate::population::flagged_feasible(
                old(self).population.feasible_individuals@,
            ) ==> r.is_some(),
    {
        self.start_time = clock_now();
        self.initialize();
        let ghost had_best = self.best_solution.is_some();
        let ghost problem_snapshot = self.problem;
        // Termination comes from the improvement and time limits checked
        // at the top of each iteration; the counter only gives the loop a
        // formal bound, far beyond any reachable iteration count.
        let mut fuel: u64 = 0xffff_ffff_ffff_ffff;
        while fuel > 0
            invariant
                self.problem.wf(),
                self.problem == problem_snapshot,
                self.best_solution.is_some() ==> self.best_solution.unwrap().is_feasible,
                had_best ==> self.best_solution.is_some(),
                self.population.min_pop_size >= 1,
                crate::population::tours_bounded(self.population.feasible_individuals@),
                crate::population::tours_bounded(self.population.infeasible_individuals@),
                self.local_search.neighbors_ok(&self.problem),
            decreases fuel,
        {
            fuel -= 1;
            if self.should_terminate() {
                break ;
            }
            let n_feasible = self.population.feasible_individuals.len();
            let n_infeasible = self.population.infeasible_individuals.len();
            if n_feasible > 1_000_000 || n_infeasible > 1_000_000 {
                break ;
            }
            if n_feasible + n_infeasible < 2 {
                break ;
            }
            self.population.update_ranks();
            let (parent1, parent2) = self.population.select_parents();
            let parents_ok = check_giant_tour(&self.problem, &parent1.solution.giant_tour)
                && check_giant_tour(&self.problem, &parent2.solution.giant_tour);
            if parents_ok {
                proof {
                    lemma_perm_ms(
                        &self.problem,
                        parent2.solution.giant_tour@,
                        parent1.solution.giant_tour@,
                    );
                    assert(self.problem.n() - 1 <= MAX_NODES);
                    assert(forall|q: int|
                        0 <= q < parent1.solution.giant_tour@.len() ==> (
                        #[trigger] parent1.solution.giant_tour@[q] as int) < MAX_NODES);
                }
                let mut offspring = self.genetic.crossover(&parent1, &parent2);
                let ghost cross_tour = offspring.giant_tour@;
                proof {
                    broadcast use vstd::seq_lib::group_to_multiset_ensures;

                    let gt = offspring.giant_tour@;
                    let p1t = parent1.solution.giant_tour@;
                    assert forall|q: int| 0 <= q < gt.len() implies cust_ok(&self.problem, #[trigger] gt[q])
                        by {
                        assert(gt.contains(gt[q]));
                        assert(gt.to_multiset().count(gt[q]) > 0);
                        assert(p1t.to_multiset().count(gt[q]) > 0);
                        assert(p1t.contains(gt[q]));
                    }
                }
                Split::split(&mut offspring, &self.problem);
                let penalty = self.population.capacity_penalty;
                let ghost split_routes = offspring.routes@;
                self.local_search.educate(&mut offspring, &self.problem, penalty);
                offspring.update_giant_tour();
                proof {
                    broadcast use vstd::seq_lib::group_to_multiset_ensures;

                    let gt = offspring.giant_tour@;
                    assert(gt == crate::solution::concat_routes(offspring.routes@));
                    assert(gt.to_multiset() == crate::solution::concat_routes(split_routes).to_multiset());
                    assert(crate::solution::concat_routes(split_routes) == cross_tour);
                    assert(gt.to_multiset().len() == gt.len());
                    assert(cross_tour.to_multiset().len() == cross_tour.len());
                    assert(gt.len() <= 1_000_000_000);
                }
                let previous_best_cost: Option<u128> = match self.population.get_best_feasible_solution() {
                    Some(b) => Some(b.cost),
                    None => None,
                };
                let ghost fpre = self.population.feasible_individuals@;
                let ghost ipre = self.population.infeasible_individuals@;
                self.population.insert_individual(Individual::new(offspring));
                proof {
                    if offspring.is_feasible {
                        assert(crate::population::tours_bounded(self.population.feasible_individuals@)) by {
                            assert(self.population.feasible_individuals@.drop_last() =~= fpre);
                            assert(forall|q: int|
                                0 <= q < fpre.len() ==> self.population.feasible_individuals@[q]
                                    == #[trigger] fpre[q]);
                        }
                    } else {
                        assert(crate::population::tours_bounded(self.population.infeasible_individuals@)) by {
                            assert(self.population.infeasible_individuals@.drop_last() =~= ipre);
                            assert(forall|q: int|
                                0 <= q < ipre.len() ==> self.population.infeasible_individuals@[q]
                                    == #[trigger] ipre[q]);
                        }
                    }
                }
                if self.iterations < 0xffff_ffff {
                    self.iterations += 1;
                }
                let improved: bool = match self.population.get_best_feasible_solution() {
                    Some(curr) => {
                        let better = match previous_best_cost {
                            Some(prev_cost) => curr.cost < prev_cost,
                            None => true,
                        };
                        let curr_clone = curr.clone();
                        if better && curr_clone.is_feasible {
                            record_best(&mut self.best_solution, &curr_clone);
                        }
                        better
                    },
                    None => false,
                };
                if improved {
                    self.iterations_without_improvement = 0;
                } else {
                    if self.iterations_without_improvement < 0xffff_ffff {
                        self.iterations_without_improvement += 1;
                    }
                }
                if self.population.should_manage_size() {
                    let ghost fpre2 = self.population.feasible_individuals@;
                    let ghost ipre2 = self.population.infeasible_individuals@;
                    self.population.select_survivors();
                    proof {
                        broadcast use vstd::seq_lib::group_to_multiset_ensures;

                        assert(crate::population::tours_bounded(self.population.feasible_individuals@)) by {
                            assert forall|q: int|
                                0 <= q < self.population.feasible_individuals@.len() implies (
                            #[trigger] self.population.feasible_individuals@[q]).solution.giant_tour@.len()
                                <= 1_000_000_000 by {
                                assert(fpre2.to_multiset().count(self.population.feasible_individuals@[q]) > 0);
                                assert(fpre2.contains(self.population.feasible_individuals@[q]));
                            }
                        }
                        assert(crate::population::tours_bounded(self.population.infeasible_individuals@)) by {
                            assert forall|q: int|
                                0 <= q < self.population.infeasible_individuals@.len() implies (
                            #[trigger] self.population.infeasible_individuals@[q]).solution.giant_tour@.len()
                                <= 1_000_000_000 by {
                                assert(ipre2.to_multiset().count(self.population.infeasible_individuals@[q]) > 0);
                                assert(ipre2.contains(self.population.infeasible_individuals@[q]));
                            }
                        }
                    }
                }
                self.population.adjust_penalties();
            } else {
                break ;
            }
        }
        self.run_time = elapsed_millis(&self.start_time);
        match &self.best_solution {
            Some(best) => Some(best.clone()),
            None => None,
        }
    }
}

} // verus!
