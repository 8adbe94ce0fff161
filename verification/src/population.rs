//! Population management: the feasible/infeasible split, ranking, parent
//! selection, survivor selection, and penalty adaptation.

use vstd::prelude::*;
use crate::config::Config;
use crate::individual::Individual;
use crate::problem::Problem;
use crate::rng::{rand_below, random_giant_tour};
use crate::solution::Solution;
use crate::split::Split;

verus! {

/// Largest penalty value the adaptation will raise to.
pub const PENALTY_MAX: u64 = 1_000_000_000_000_000_000;

/// Smallest penalty value the adaptation will lower to (a tenth of a unit).
pub const PENALTY_MIN: u64 = 100;

/// The two subpopulations and the adaptive penalty state.
pub struct Population {
    /// Individuals whose solutions respect the capacity.
    pub feasible_individuals: Vec<Individual>,
    /// Individuals whose solutions violate the capacity.
    pub infeasible_individuals: Vec<Individual>,
    /// The penalty per unit of excess load, in thousandths.
    pub capacity_penalty: u64,
    /// Bag size the survivor selection trims to.
    pub min_pop_size: usize,
    /// Bag size beyond which survivor selection fires.
    pub max_pop_size: usize,
    /// How many nearest peers feed the diversity measure.
    pub n_closest: usize,
    /// Target share of feasible individuals, in thousandths.
    pub target_feasible_ratio: u64,
    /// How many elite individuals the diversity weight spares.
    pub n_elite: usize,
}

/// Position `x` holds the first occurrence of its tour.
pub open spec fn first_occurrence(bag: Seq<Individual>, x: int) -> bool {
    forall|y: int| 0 <= y < x ==> (#[trigger] bag[y]).solution.giant_tour@ != bag[x].solution.giant_tour@
}

/// The positions holding the first occurrence of each distinct tour.
pub open spec fn first_occurrence_set(bag: Seq<Individual>) -> Set<int> {
    Set::new(|x: int| 0 <= x < bag.len() && first_occurrence(bag, x))
}

/// No two members of the bag share a giant tour.
pub open spec fn no_clones(bag: Seq<Individual>) -> bool {
    forall|a: int, b: int|
        0 <= a < b < bag.len() ==> (#[trigger] bag[a]).solution.giant_tour@ != (#[trigger] bag[b]).solution.giant_tour@
}

impl Population {
    /// Create an empty population from the configuration.
    pub fn new(config: &Config) -> (r: Population)
        requires
            config.min_pop_size + config.generation_size <= usize::MAX,
        ensures
            r.feasible_individuals@.len() == 0,
            r.infeasible_individuals@.len() == 0,
            r.capacity_penalty == config.initial_capacity_penalty,
            r.min_pop_size == config.min_pop_size,
            r.max_pop_size == config.min_pop_size + config.generation_size,
            r.n_closest == config.n_closest,
            r.target_feasible_ratio == config.target_feasible_ratio,
            r.n_elite == config.n_elite,
    {
        Population {
            feasible_individuals: Vec::new(),
            infeasible_individuals: Vec::new(),
            capacity_penalty: config.initial_capacity_penalty,
            min_pop_size: config.min_pop_size,
            max_pop_size: config.min_pop_size + config.generation_size,
            n_closest: config.n_closest,
            target_feasible_ratio: config.target_feasible_ratio,
            n_elite: config.n_elite,
        }
    }

    /// Fill the population with `4 * min_pop_size` random giant tours,
    /// each split into routes and evaluated under the current penalty.
    pub fn initialize(&mut self, problem: &Problem, _config: &Config)
        requires
            problem.wf(),
            old(self).min_pop_size <= usize::MAX / 4,
            tours_bounded(old(self).feasible_individuals@),
            tours_bounded(old(self).infeasible_individuals@),
        ensures
            tours_bounded(final(self).feasible_individuals@),
            tours_bounded(final(self).infeasible_individuals@),
            final(self).capacity_penalty == old(self).capacity_penalty,
            final(self).min_pop_size == old(self).min_pop_size,
            final(self).max_pop_size == old(self).max_pop_size,
            final(self).n_closest == old(self).n_closest,
            final(self).target_feasible_ratio == old(self).target_feasible_ratio,
            final(self).n_elite == old(self).n_elite,
            final(self).feasible_individuals@.len() + final(self).infeasible_individuals@.len()
                == old(self).feasible_individuals@.len() + old(self).infeasible_individuals@.len()
                + 4 * old(self).min_pop_size,
            final(self).feasible_individuals@.subrange(
                0,
                old(self).feasible_individuals@.len() as int,
            ) == old(self).feasible_individuals@,
            final(self).infeasible_individuals@.subrange(
                0,
                old(self).infeasible_individuals@.len() as int,
            ) == old(self).infeasible_individuals@,
            forall|q: int|
                old(self).feasible_individuals@.len() <= q < final(self).feasible_individuals@.len()
                    ==> (#[trigger] final(self).feasible_individuals@[q]).solution.is_feasible
                        && final(self).feasible_individuals@[q].solution.evaluated(
                        problem,
                        old(self).capacity_penalty,
                    ),
            forall|q: int|
                old(self).infeasible_individuals@.len() <= q
                    < final(self).infeasible_individuals@.len()
                    ==> !(#[trigger] final(self).infeasible_individuals@[q]).solution.is_feasible
                        && final(self).infeasible_individuals@[q].solution.evaluated(
                        problem,
                        old(self).capacity_penalty,
                    ),
            crate::solution::all_demands_fit(problem) ==> final(self).feasible_individuals@.len()
                == old(self).feasible_individuals@.len() + 4 * old(self).min_pop_size
                && final(self).infeasible_individuals == old(self).infeasible_individuals,
    {
        let ghost flen0 = self.feasible_individuals@.len();
        let ghost ilen0 = self.infeasible_individuals@.len();
        let initial_size = 4 * self.min_pop_size;
        let mut k: usize = 0;
        while k < initial_size
            invariant
                problem.wf(),
                k <= initial_size,
                tours_bounded(self.feasible_individuals@),
                tours_bounded(self.infeasible_individuals@),
                self.capacity_penalty == old(self).capacity_penalty,
                self.min_pop_size == old(self).min_pop_size,
                self.max_pop_size == old(self).max_pop_size,
                self.n_closest == old(self).n_closest,
                self.target_feasible_ratio == old(self).target_feasible_ratio,
                self.n_elite == old(self).n_elite,
                flen0 == old(self).feasible_individuals@.len(),
                ilen0 == old(self).infeasible_individuals@.len(),
                self.feasible_individuals@.len() + self.infeasible_individuals@.len() == flen0
                    + ilen0 + k,
                flen0 <= self.feasible_individuals@.len(),
                ilen0 <= self.infeasible_individuals@.len(),
                self.feasible_individuals@.subrange(0, flen0 as int) == old(
                    self,
                ).feasible_individuals@,
                self.infeasible_individuals@.subrange(0, ilen0 as int) == old(
                    self,
                ).infeasible_individuals@,
                forall|q: int|
                    flen0 <= q < self.feasible_individuals@.len() ==> (
                    #[trigger] self.feasible_individuals@[q]).solution.is_feasible
                        && self.feasible_individuals@[q].solution.evaluated(
                        problem,
                        old(self).capacity_penalty,
                    ),
                forall|q: int|
                    ilen0 <= q < self.infeasible_individuals@.len() ==> !(
                    #[trigger] self.infeasible_individuals@[q]).solution.is_feasible
                        && self.infeasible_individuals@[q].solution.evaluated(
                        problem,
                        old(self).capacity_penalty,
                    ),
                crate::solution::all_demands_fit(problem) ==> self.feasible_individuals@.len()
                    == flen0 + k && self.infeasible_individuals == old(self).infeasible_individuals,
            decreases initial_size - k,
        {
            let giant_tour = random_giant_tour(problem);
            let mut solution = Solution::from_giant_tour(giant_tour, problem);
            Split::split(&mut solution, problem);
            let ghost split_routes = solution.routes@;
            solution.evaluate(problem, self.capacity_penalty);
            proof {
                if crate::solution::all_demands_fit(problem) {
                    // Each route is within capacity or a lone customer, so
                    // the split is already feasible.
                    assert forall|q: int| 0 <= q < solution.routes@.len() implies (
                    #[trigger] solution.routes@[q]).wf(problem) && (crate::solution::load_of(
                        problem,
                        solution.routes@[q].customers@,
                    ) <= problem.vehicle_capacity || solution.routes@[q].customers@.len() == 1) by {
                        assert(solution.routes@[q].customers == split_routes[q].customers);
                        assert(crate::solution::load_of(problem, split_routes[q].customers@)
                            <= problem.vehicle_capacity || split_routes[q].customers@.len() == 1);
                    }
                    crate::solution::lemma_fit_excess_zero(problem, solution.routes@);
                    assert(solution.excess_capacity == 0);
                    assert(solution.is_feasible);
                }
            }
            let individual = Individual::new(solution);
            let ghost fpre = self.feasible_individuals@;
            let ghost ipre = self.infeasible_individuals@;
            self.insert_individual(individual);
            proof {
                assert(individual.solution.giant_tour@.len() <= 1_000_000_000);
                if individual.solution.is_feasible {
                    assert(self.feasible_individuals@.drop_last() =~= fpre);
                    assert(tours_bounded(self.feasible_individuals@)) by {
                        assert(forall|q: int|
                            0 <= q < fpre.len() ==> self.feasible_individuals@[q] == #[trigger] fpre[q]);
                    }
                    assert(self.feasible_individuals@.subrange(0, flen0 as int) =~= fpre.subrange(
                        0,
                        flen0 as int,
                    ));
                } else {
                    assert(self.infeasible_individuals@.drop_last() =~= ipre);
                    assert(tours_bounded(self.infeasible_individuals@)) by {
                        assert(forall|q: int|
                            0 <= q < ipre.len() ==> self.infeasible_individuals@[q] == #[trigger] ipre[q]);
                    }
                    assert(self.infeasible_individuals@.subrange(0, ilen0 as int) =~= ipre.subrange(
                        0,
                        ilen0 as int,
                    ));
                }
            }
            k += 1;
        }
    }

    /// Put the individual into the bag its current feasibility selects.
    pub fn insert_individual(&mut self, individual: Individual)
        ensures
            individual.solution.is_feasible ==> {
                &&& final(self).feasible_individuals@ == old(self).feasible_individuals@.push(individual)
                &&& final(self).infeasible_individuals == old(self).infeasible_individuals
            },
            !individual.solution.is_feasible ==> {
                &&& final(self).infeasible_individuals@ == old(self).infeasible_individuals@.push(individual)
                &&& final(self).feasible_individuals == old(self).feasible_individuals
            },
            final(self).capacity_penalty == old(self).capacity_penalty,
            final(self).min_pop_size == old(self).min_pop_size,
            final(self).max_pop_size == old(self).max_pop_size,
            final(self).n_closest == old(self).n_closest,
            final(self).target_feasible_ratio == old(self).target_feasible_ratio,
            final(self).n_elite == old(self).n_elite,
    {
        if individual.is_feasible() {
            self.feasible_individuals.push(individual);
        } else {
            self.infeasible_individuals.push(individual);
        }
    }

    /// Total number of individuals over both bags.
    pub fn get_pop_size(&self) -> (r: usize)
        requires
            self.feasible_individuals@.len() + self.infeasible_individuals@.len() <= usize::MAX,
        ensures
            r == self.feasible_individuals@.len() + self.infeasible_individuals@.len(),
    {
        self.feasible_individuals.len() + self.infeasible_individuals.len()
    }

    /// Whether either bag has outgrown the survivor-selection threshold.
    pub fn should_manage_size(&self) -> (r: bool)
        ensures
            r == (self.feasible_individuals@.len() > self.max_pop_size || self.infeasible_individuals@.len()
                > self.max_pop_size),
    {
        self.feasible_individuals.len() > self.max_pop_size || self.infeasible_individuals.len()
            > self.max_pop_size
    }

    /// Raise the penalty when too few individuals are feasible, lower it
    /// otherwise; multiplication and division by six fifths, clamped.
    pub fn adjust_penalties(&mut self)
        requires
            old(self).feasible_individuals@.len() + old(self).infeasible_individuals@.len() <= usize::MAX,
        ensures
            final(self).feasible_individuals == old(self).feasible_individuals,
            final(self).infeasible_individuals == old(self).infeasible_individuals,
            final(self).min_pop_size == old(self).min_pop_size,
            final(self).max_pop_size == old(self).max_pop_size,
            final(self).n_closest == old(self).n_closest,
            final(self).target_feasible_ratio == old(self).target_feasible_ratio,
            final(self).n_elite == old(self).n_elite,
            ({
                let total = old(self).feasible_individuals@.len() + old(self).infeasible_individuals@.len();
                let p = old(self).capacity_penalty;
                if total == 0 {
                    final(self).capacity_penalty == p
                } else {
                    let raised: int = if 1000 * old(self).feasible_individuals@.len() < old(self).target_feasible_ratio * total {
                        if p <= PENALTY_MAX {
                            p * 6 / 5
                        } else {
                            p as int
                        }
                    } else {
                        if p <= PENALTY_MAX {
                            p * 5 / 6
                        } else {
                            p as int
                        }
                    };
                    final(self).capacity_penalty == (if raised < PENALTY_MIN {
                        PENALTY_MIN as int
                    } else {
                        raised
                    })
                }
            }),
    {
        let feasible_count = self.feasible_individuals.len();
        let infeasible_count = self.infeasible_individuals.len();
        if feasible_count == 0 && infeasible_count == 0 {
            return ;
        }
        let total = feasible_count + infeasible_count;
        proof {
            assert(1000 * (feasible_count as int) <= 1000 * 0xffff_ffff_ffff_ffff) by (nonlinear_arith)
                requires feasible_count <= 0xffff_ffff_ffff_ffff;
            assert((self.target_feasible_ratio as int) * (total as int)
                < 0x1_0000_0000_0000_0000_0000_0000_0000_0000) by (nonlinear_arith)
                requires
                    self.target_feasible_ratio < 0x1_0000_0000_0000_0000,
                    total < 0x1_0000_0000_0000_0000,
            ;
        }
        let lhs: u128 = 1000u128 * (feasible_count as u128);
        let rhs: u128 = (self.target_feasible_ratio as u128) * (total as u128);
        let p = self.capacity_penalty;
        let raised: u64 = if lhs < rhs {
            if p <= PENALTY_MAX {
                p * 6 / 5
            } else {
                p
            }
        } else {
            if p <= PENALTY_MAX {
                p * 5 / 6
            } else {
                p
            }
        };
        self.capacity_penalty = if raised < PENALTY_MIN {
            PENALTY_MIN
        } else {
            raised
        };
    }

    /// The feasible solution of least cost, if any individual is feasible.
    pub fn get_best_feasible_solution(&self) -> (r: Option<&Solution>)
        ensures
            match r {
                Some(s) => {
                    &&& exists|i: int|
                        0 <= i < self.feasible_individuals@.len() && *s == (
                        #[trigger] self.feasible_individuals@[i]).solution
                    &&& forall|j: int|
                        0 <= j < self.feasible_individuals@.len()
                            ==> (#[trigger] self.feasible_individuals@[j]).solution.cost >= s.cost
                },
                None => self.feasible_individuals@.len() == 0,
            },
    {
        let n = self.feasible_individuals.len();
        if n == 0 {
            return None;
        }
        let mut best: usize = 0;
        let mut i: usize = 1;
        while i < n
            invariant
                n == self.feasible_individuals@.len(),
                best < i <= n,
                forall|j: int|
                    0 <= j < i ==> (#[trigger] self.feasible_individuals@[j]).solution.cost
                        >= self.feasible_individuals@[best as int].solution.cost,
            decreases n - i,
        {
            if self.feasible_individuals[i].solution.cost < self.feasible_individuals[best].solution.cost {
                best = i;
            }
            i += 1;
        }
        Some(&self.feasible_individuals[best].solution)
    }

    /// One binary tournament: draw two members of a bag and keep the one
    /// of smaller biased fitness.  Returns the bag (true for feasible) and
    /// the winner's index.
    fn binary_tournament_selection(&self) -> (r: (bool, usize))
        requires
            self.feasible_individuals@.len() + self.infeasible_individuals@.len() >= 1,
        ensures
            r.0 ==> self.feasible_individuals@.len() >= 1 && (r.1 as int) < self.feasible_individuals@.len(),
            !r.0 ==> self.infeasible_individuals@.len() >= 1 && (r.1 as int)
                < self.infeasible_individuals@.len(),
    {
        let use_feasible = if self.feasible_individuals.len() == 0 {
            false
        } else if self.infeasible_individuals.len() == 0 {
            true
        } else {
            rand_below(2) == 0
        };
        let len = if use_feasible {
            self.feasible_individuals.len()
        } else {
            self.infeasible_individuals.len()
        };
        let idx1 = rand_below(len);
        let mut idx2 = rand_below(len);
        if idx1 == idx2 && len > 1 {
            idx2 = rand_below(len);
        }
        let bf1 = if use_feasible {
            self.feasible_individuals[idx1].biased_fitness
        } else {
            self.infeasible_individuals[idx1].biased_fitness
        };
        let bf2 = if use_feasible {
            self.feasible_individuals[idx2].biased_fitness
        } else {
            self.infeasible_individuals[idx2].biased_fitness
        };
        if bf1 <= bf2 {
            (use_feasible, idx1)
        } else {
            (use_feasible, idx2)
        }
    }

    /// Two parents, each chosen by binary tournament, from distinct
    /// positions of the population.
    pub fn select_parents(&self) -> (r: (Individual, Individual))
        requires
            self.feasible_individuals@.len() + self.infeasible_individuals@.len() >= 2,
        ensures
            exists|b1: bool, i1: int, b2: bool, i2: int|
                {
                    &&& !(b1 == b2 && i1 == i2)
                    &&& member_at(self, b1, i1)
                    &&& member_at(self, b2, i2)
                    &&& same_views(&r.0, &bag_of(self, b1)[i1])
                    &&& same_views(&r.1, &bag_of(self, b2)[i2])
                },
    {
        let (b1, i1) = self.binary_tournament_selection();
        let mut choice = self.binary_tournament_selection();
        let mut tries: usize = 0;
        while choice.0 == b1 && choice.1 == i1 && tries < 64
            invariant
                self.feasible_individuals@.len() + self.infeasible_individuals@.len() >= 2,
                choice.0 ==> self.feasible_individuals@.len() >= 1 && (choice.1 as int)
                    < self.feasible_individuals@.len(),
                !choice.0 ==> self.infeasible_individuals@.len() >= 1 && (choice.1 as int)
                    < self.infeasible_individuals@.len(),
            decreases 64 - tries,
        {
            choice = self.binary_tournament_selection();
            tries += 1;
        }
        let (b2, i2) = if choice.0 == b1 && choice.1 == i1 {
            // Random draws kept colliding: take the neighbouring position,
            // or the other bag when the chosen one has a single member.
            if b1 && self.feasible_individuals.len() > 1 {
                (b1, if i1 + 1 < self.feasible_individuals.len() {
                    i1 + 1
                } else {
                    0
                })
            } else if !b1 && self.infeasible_individuals.len() > 1 {
                (b1, if i1 + 1 < self.infeasible_individuals.len() {
                    i1 + 1
                } else {
                    0
                })
            } else if b1 {
                (false, 0)
            } else {
                (true, 0)
            }
        } else {
            choice
        };
        let p1 = if b1 {
            self.feasible_individuals[i1].clone()
        } else {
            self.infeasible_individuals[i1].clone()
        };
        let p2 = if b2 {
            self.feasible_individuals[i2].clone()
        } else {
            self.infeasible_individuals[i2].clone()
        };
        proof {
            assert(member_at(self, b1, i1 as int));
            assert(member_at(self, b2, i2 as int));
            assert(!(b1 == b2 && i1 == i2));
            assert(same_views(&p1, &bag_of(self, b1)[i1 as int]));
            assert(same_views(&p2, &bag_of(self, b2)[i2 as int]));
        }
        (p1, p2)
    }
}

impl Population {
    /// Recompute all ranking state: cost ranks, diversity measures, and
    /// the biased fitness.  Each bag ends sorted by cost with
    /// `rank_feasibility` equal to the position, and every biased fitness
    /// combines the two ranks on the whole population's scale.
    pub fn update_ranks(&mut self)
        requires
            old(self).feasible_individuals@.len() <= 1_000_000,
            old(self).infeasible_individuals@.len() <= 1_000_000,
            tours_bounded(old(self).feasible_individuals@),
            tours_bounded(old(self).infeasible_individuals@),
        ensures
            final(self).feasible_individuals@.len() == old(self).feasible_individuals@.len(),
            final(self).infeasible_individuals@.len() == old(self).infeasible_individuals@.len(),
            tours_of(final(self).feasible_individuals@).to_multiset() == tours_of(
                old(self).feasible_individuals@,
            ).to_multiset(),
            tours_of(final(self).infeasible_individuals@).to_multiset() == tours_of(
                old(self).infeasible_individuals@,
            ).to_multiset(),
            ranked(final(self).feasible_individuals@),
            ranked(final(self).infeasible_individuals@),
            tours_bounded(final(self).feasible_individuals@),
            tours_bounded(final(self).infeasible_individuals@),
            fitness_assigned(
                final(self).feasible_individuals@,
                final(self).feasible_individuals@.len() + final(self).infeasible_individuals@.len() as int,
                final(self).n_elite as int,
            ),
            fitness_assigned(
                final(self).infeasible_individuals@,
                final(self).feasible_individuals@.len() + final(self).infeasible_individuals@.len() as int,
                final(self).n_elite as int,
            ),
            pairs_recomputed(final(self).feasible_individuals@),
            pairs_recomputed(final(self).infeasible_individuals@),
            diversity_ranked(final(self).feasible_individuals@, final(self).n_closest as int),
            diversity_ranked(final(self).infeasible_individuals@, final(self).n_closest as int),
            final(self).capacity_penalty == old(self).capacity_penalty,
            final(self).min_pop_size == old(self).min_pop_size,
            final(self).max_pop_size == old(self).max_pop_size,
            final(self).n_elite == old(self).n_elite,
            final(self).n_closest == old(self).n_closest,
            final(self).target_feasible_ratio == old(self).target_feasible_ratio,
    {
        self.update_feasibility_ranks();
        let ghost s1f = self.feasible_individuals@;
        let ghost s1i = self.infeasible_individuals@;
        proof {
            assert(tours_of(s1f).to_multiset() == tours_of(old(self).feasible_individuals@).to_multiset());
            assert(tours_of(s1i).to_multiset() == tours_of(old(self).infeasible_individuals@).to_multiset());
        }
        self.update_diversity_measures();
        let ghost s2f = self.feasible_individuals@;
        let ghost s2i = self.infeasible_individuals@;
        proof {
            assert(tours_of(s2f) == tours_of(s1f));
            assert(tours_of(s2i) == tours_of(s1i));
        }
        self.update_biased_fitness();
        proof {
            assert(tours_of(self.feasible_individuals@) == tours_of(s2f));
            assert(tours_of(self.infeasible_individuals@) == tours_of(s2i));
            lemma_pairs_recomputed_same(self.feasible_individuals@, s2f);
            lemma_pairs_recomputed_same(self.infeasible_individuals@, s2i);
            lemma_diversity_ranked_same(self.feasible_individuals@, s2f, self.n_closest as int);
            lemma_diversity_ranked_same(self.infeasible_individuals@, s2i, self.n_closest as int);
        }
    }

    /// Sort each bag by cost and record each member's position.
    fn update_feasibility_ranks(&mut self)
        requires
            tours_bounded(old(self).feasible_individuals@),
            tours_bounded(old(self).infeasible_individuals@),
        ensures
            final(self).feasible_individuals@.len() == old(self).feasible_individuals@.len(),
            final(self).infeasible_individuals@.len() == old(self).infeasible_individuals@.len(),
            tours_of(final(self).feasible_individuals@).to_multiset() == tours_of(
                old(self).feasible_individuals@,
            ).to_multiset(),
            tours_of(final(self).infeasible_individuals@).to_multiset() == tours_of(
                old(self).infeasible_individuals@,
            ).to_multiset(),
            ranked(final(self).feasible_individuals@),
            ranked(final(self).infeasible_individuals@),
            tours_bounded(final(self).feasible_individuals@),
            tours_bounded(final(self).infeasible_individuals@),
            final(self).capacity_penalty == old(self).capacity_penalty,
            final(self).min_pop_size == old(self).min_pop_size,
            final(self).max_pop_size == old(self).max_pop_size,
            final(self).n_elite == old(self).n_elite,
            final(self).n_closest == old(self).n_closest,
            final(self).target_feasible_ratio == old(self).target_feasible_ratio,
    {
        broadcast use vstd::seq_lib::group_to_multiset_ensures;

        sort_bag_by_cost(&mut self.feasible_individuals);
        proof {
            lemma_tours_ms(self.feasible_individuals@, old(self).feasible_individuals@);
            lemma_bounded_ms(self.feasible_individuals@, old(self).feasible_individuals@);
        }
        assign_cost_ranks(&mut self.feasible_individuals);
        sort_bag_by_cost(&mut self.infeasible_individuals);
        proof {
            lemma_tours_ms(self.infeasible_individuals@, old(self).infeasible_individuals@);
            lemma_bounded_ms(self.infeasible_individuals@, old(self).infeasible_individuals@);
        }
        assign_cost_ranks(&mut self.infeasible_individuals);
    }

    /// Recompute every member's common-pair counts against its bag peers
    /// and assign the diversity ranks.
    fn update_diversity_measures(&mut self)
        requires
            old(self).feasible_individuals@.len() <= 1_000_000,
            old(self).infeasible_individuals@.len() <= 1_000_000,
            tours_bounded(old(self).feasible_individuals@),
            tours_bounded(old(self).infeasible_individuals@),
        ensures
            final(self).feasible_individuals@.len() == old(self).feasible_individuals@.len(),
            final(self).infeasible_individuals@.len() == old(self).infeasible_individuals@.len(),
            tours_of(final(self).feasible_individuals@) == tours_of(old(self).feasible_individuals@),
            tours_of(final(self).infeasible_individuals@) == tours_of(old(self).infeasible_individuals@),
            forall|q: int|
                0 <= q < final(self).feasible_individuals@.len() ==> {
                    &&& ((#[trigger] final(self).feasible_individuals@[q]).rank_diversity as int)
                        < final(self).feasible_individuals@.len()
                    &&& final(self).feasible_individuals@[q].rank_feasibility == old(self).feasible_individuals@[q].rank_feasibility
                    &&& final(self).feasible_individuals@[q].solution == old(self).feasible_individuals@[q].solution
                },
            forall|q: int|
                0 <= q < final(self).infeasible_individuals@.len() ==> {
                    &&& ((#[trigger] final(self).infeasible_individuals@[q]).rank_diversity as int)
                        < final(self).infeasible_individuals@.len()
                    &&& final(self).infeasible_individuals@[q].rank_feasibility == old(self).infeasible_individuals@[q].rank_feasibility
                    &&& final(self).infeasible_individuals@[q].solution == old(self).infeasible_individuals@[q].solution
                },
            pairs_recomputed(final(self).feasible_individuals@),
            pairs_recomputed(final(self).infeasible_individuals@),
            diversity_ranked(final(self).feasible_individuals@, final(self).n_closest as int),
            diversity_ranked(final(self).infeasible_individuals@, final(self).n_closest as int),
            final(self).capacity_penalty == old(self).capacity_penalty,
            final(self).min_pop_size == old(self).min_pop_size,
            final(self).max_pop_size == old(self).max_pop_size,
            final(self).n_elite == old(self).n_elite,
            final(self).n_closest == old(self).n_closest,
            final(self).target_feasible_ratio == old(self).target_feasible_ratio,
    {
        let n_closest = self.n_closest;
        compute_common_pairs(&mut self.feasible_individuals);
        let ghost fmid = self.feasible_individuals@;
        assign_diversity_ranks(&mut self.feasible_individuals, n_closest);
        proof {
            lemma_pairs_recomputed_same(self.feasible_individuals@, fmid);
        }
        compute_common_pairs(&mut self.infeasible_individuals);
        let ghost imid = self.infeasible_individuals@;
        assign_diversity_ranks(&mut self.infeasible_individuals, n_closest);
        proof {
            lemma_pairs_recomputed_same(self.infeasible_individuals@, imid);
        }
    }

    /// Recombine every member's two ranks into its biased fitness.
    fn update_biased_fitness(&mut self)
        requires
            old(self).feasible_individuals@.len() + old(self).infeasible_individuals@.len()
                <= 1_000_000_000,
            forall|q: int|
                0 <= q < old(self).feasible_individuals@.len() ==> {
                    &&& ((#[trigger] old(self).feasible_individuals@[q]).rank_feasibility as int)
                        < old(self).feasible_individuals@.len()
                    &&& (old(self).feasible_individuals@[q].rank_diversity as int)
                        < old(self).feasible_individuals@.len()
                },
            forall|q: int|
                0 <= q < old(self).infeasible_individuals@.len() ==> {
                    &&& ((#[trigger] old(self).infeasible_individuals@[q]).rank_feasibility as int)
                        < old(self).infeasible_individuals@.len()
                    &&& (old(self).infeasible_individuals@[q].rank_diversity as int)
                        < old(self).infeasible_individuals@.len()
                },
        ensures
            final(self).feasible_individuals@.len() == old(self).feasible_individuals@.len(),
            final(self).infeasible_individuals@.len() == old(self).infeasible_individuals@.len(),
            forall|q: int|
                0 <= q < final(self).feasible_individuals@.len() ==> {
                    &&& (#[trigger] final(self).feasible_individuals@[q]).solution == old(self).feasible_individuals@[q].solution
                    &&& final(self).feasible_individuals@[q].rank_feasibility == old(self).feasible_individuals@[q].rank_feasibility
                    &&& final(self).feasible_individuals@[q].rank_diversity == old(self).feasible_individuals@[q].rank_diversity
                    &&& final(self).feasible_individuals@[q].common_pairs == old(self).feasible_individuals@[q].common_pairs
                },
            forall|q: int|
                0 <= q < final(self).infeasible_individuals@.len() ==> {
                    &&& (#[trigger] final(self).infeasible_individuals@[q]).solution == old(self).infeasible_individuals@[q].solution
                    &&& final(self).infeasible_individuals@[q].rank_feasibility == old(self).infeasible_individuals@[q].rank_feasibility
                    &&& final(self).infeasible_individuals@[q].rank_diversity == old(self).infeasible_individuals@[q].rank_diversity
                    &&& final(self).infeasible_individuals@[q].common_pairs == old(self).infeasible_individuals@[q].common_pairs
                },
            fitness_assigned(
                final(self).feasible_individuals@,
                final(self).feasible_individuals@.len() + final(self).infeasible_individuals@.len() as int,
                final(self).n_elite as int,
            ),
            fitness_assigned(
                final(self).infeasible_individuals@,
                final(self).feasible_individuals@.len() + final(self).infeasible_individuals@.len() as int,
                final(self).n_elite as int,
            ),
            final(self).capacity_penalty == old(self).capacity_penalty,
            final(self).min_pop_size == old(self).min_pop_size,
            final(self).max_pop_size == old(self).max_pop_size,
            final(self).n_elite == old(self).n_elite,
            final(self).n_closest == old(self).n_closest,
            final(self).target_feasible_ratio == old(self).target_feasible_ratio,
    {
        let pop_size = self.feasible_individuals.len() + self.infeasible_individuals.len();
        let n_elite = self.n_elite;
        apply_biased_fitness(&mut self.feasible_individuals, pop_size, n_elite);
        apply_biased_fitness(&mut self.infeasible_individuals, pop_size, n_elite);
    }

    /// Trim both bags back to the minimum size: each bag is put in biased-
    /// fitness order, later copies of an already-seen giant tour are
    /// dropped until the floor is reached, and then the worst of what
    /// remains goes, from the back, so the best member always survives.
    /// A bag that held at least `min_pop_size` distinct giant tours keeps
    /// no clone.
    pub fn select_survivors(&mut self)
        requires
            old(self).min_pop_size >= 1,
        ensures
            old(self).feasible_individuals@.len() > old(self).min_pop_size ==> final(self).feasible_individuals@.len() == old(self).min_pop_size,
            old(self).feasible_individuals@.len() <= old(self).min_pop_size ==> final(self).feasible_individuals@ == old(self).feasible_individuals@,
            old(self).infeasible_individuals@.len() > old(self).min_pop_size ==> final(self).infeasible_individuals@.len() == old(self).min_pop_size,
            old(self).infeasible_individuals@.len() <= old(self).min_pop_size ==> final(self).infeasible_individuals@ == old(self).infeasible_individuals@,
            forall|q: int|
                0 <= q < final(self).feasible_individuals@.len() ==> old(self).feasible_individuals@.to_multiset().count(#[trigger] final(self).feasible_individuals@[q]) > 0,
            forall|q: int|
                0 <= q < final(self).infeasible_individuals@.len() ==> old(self).infeasible_individuals@.to_multiset().count(
                    #[trigger] final(self).infeasible_individuals@[q],
                ) > 0,
            old(self).feasible_individuals@.len() > old(self).min_pop_size ==> {
                &&& (forall|a: int, b: int|
                    0 <= a <= b < final(self).feasible_individuals@.len() ==> (
                    #[trigger] final(self).feasible_individuals@[a]).biased_fitness <= (
                    #[trigger] final(self).feasible_individuals@[b]).biased_fitness)
                &&& final(self).feasible_individuals@.len() >= 1
                &&& (forall|q: int|
                    0 <= q < old(self).feasible_individuals@.len()
                        ==> final(self).feasible_individuals@[0].biased_fitness <= (
                        #[trigger] old(self).feasible_individuals@[q]).biased_fitness)
            },
            old(self).infeasible_individuals@.len() > old(self).min_pop_size ==> {
                &&& (forall|a: int, b: int|
                    0 <= a <= b < final(self).infeasible_individuals@.len() ==> (
                    #[trigger] final(self).infeasible_individuals@[a]).biased_fitness <= (
                    #[trigger] final(self).infeasible_individuals@[b]).biased_fitness)
                &&& final(self).infeasible_individuals@.len() >= 1
                &&& (forall|q: int|
                    0 <= q < old(self).infeasible_individuals@.len()
                        ==> final(self).infeasible_individuals@[0].biased_fitness <= (
                        #[trigger] old(self).infeasible_individuals@[q]).biased_fitness)
            },
            tours_of(old(self).feasible_individuals@).to_set().len() >= old(self).min_pop_size ==> no_clones(
                final(self).feasible_individuals@,
            ),
            tours_of(old(self).infeasible_individuals@).to_set().len() >= old(self).min_pop_size
                ==> no_clones(final(self).infeasible_individuals@),
            no_clones(old(self).feasible_individuals@) ==> no_clones(final(self).feasible_individuals@),
            no_clones(old(self).infeasible_individuals@) ==> no_clones(final(self).infeasible_individuals@),
            final(self).capacity_penalty == old(self).capacity_penalty,
            final(self).min_pop_size == old(self).min_pop_size,
            final(self).max_pop_size == old(self).max_pop_size,
            final(self).n_elite == old(self).n_elite,
            final(self).n_closest == old(self).n_closest,
            final(self).target_feasible_ratio == old(self).target_feasible_ratio,
    {
        let min_pop_size = self.min_pop_size;
        select_survivors_for_subpop(&mut self.feasible_individuals, min_pop_size);
        select_survivors_for_subpop(&mut self.infeasible_individuals, min_pop_size);
    }
}

/// The giant tours of a bag, in bag order.
pub open spec fn tours_of(bag: Seq<Individual>) -> Seq<Seq<usize>> {
    bag.map_values(|ind: Individual| ind.solution.giant_tour@)
}

/// Every tour in the bag is within the supported length.
pub open spec fn tours_bounded(bag: Seq<Individual>) -> bool {
    forall|q: int| 0 <= q < bag.len() ==> (#[trigger] bag[q]).solution.giant_tour@.len() <= 1_000_000_000
}

/// Every member of the bag carries the feasibility flag.
pub open spec fn flagged_feasible(bag: Seq<Individual>) -> bool {
    forall|q: int| 0 <= q < bag.len() ==> (#[trigger] bag[q]).solution.is_feasible
}

/// Sorted by cost, with each member's cost rank equal to its position.
pub open spec fn ranked(bag: Seq<Individual>) -> bool {
    &&& forall|a: int, b: int|
        0 <= a <= b < bag.len() ==> (#[trigger] bag[a]).solution.cost <= (#[trigger] bag[b]).solution.cost
    &&& forall|q: int| 0 <= q < bag.len() ==> (#[trigger] bag[q]).rank_feasibility == q
}

/// Every member's biased fitness combines its two ranks on the given
/// population scale.
pub open spec fn fitness_assigned(bag: Seq<Individual>, pop_size: int, n_elite: int) -> bool {
    forall|q: int|
        0 <= q < bag.len() ==> (#[trigger] bag[q]).biased_fitness as int == bag[q].rank_feasibility * pop_size
            + (if n_elite < pop_size {
            pop_size - n_elite
        } else {
            0int
        }) * bag[q].rank_diversity
}

/// Equal bags as multisets carry equal tour multisets.
proof fn lemma_tours_ms(a: Seq<Individual>, b: Seq<Individual>)
    requires
        a.to_multiset() == b.to_multiset(),
    ensures
        tours_of(a).to_multiset() == tours_of(b).to_multiset(),
    decreases a.len(),
{
    broadcast use vstd::seq_lib::group_to_multiset_ensures;

    if a.len() == 0 {
        a.to_multiset_ensures();
        b.to_multiset_ensures();
        assert(a.to_multiset().len() == 0);
        assert(b.len() == 0);
        assert(tours_of(a) =~= tours_of(b));
    } else {
        a.to_multiset_ensures();
        b.to_multiset_ensures();
        let x = a.last();
        assert(a.contains(x));
        assert(a.to_multiset().count(x) > 0);
        assert(b.to_multiset().count(x) > 0);
        assert(b.contains(x));
        let i = choose|i: int| 0 <= i < b.len() && b[i] == x;
        assert(a.drop_last().to_multiset() =~= b.remove(i).to_multiset()) by {
            a.to_multiset_ensures();
            b.to_multiset_ensures();
            assert(a.remove(a.len() - 1) =~= a.drop_last());
            assert(a.remove(a.len() - 1).to_multiset() =~= a.to_multiset().remove(x));
            assert(b.remove(i).to_multiset() =~= b.to_multiset().remove(x));
        }
        lemma_tours_ms(a.drop_last(), b.remove(i));
        assert(tours_of(a.drop_last()) =~= tours_of(a).drop_last());
        assert(tours_of(b.remove(i)) =~= tours_of(b).remove(i));
        assert(tours_of(a) =~= tours_of(a).drop_last().push(x.solution.giant_tour@));
        assert(tours_of(a).to_multiset() =~= tours_of(a).drop_last().to_multiset().insert(
            x.solution.giant_tour@,
        )) by {
            assert(tours_of(a).drop_last().push(x.solution.giant_tour@).to_multiset()
                =~= tours_of(a).drop_last().to_multiset().insert(x.solution.giant_tour@));
        }
        assert(tours_of(b)[i] == x.solution.giant_tour@);
        tours_of(b).to_multiset_ensures();
        tours_of(a).drop_last().to_multiset_ensures();
        assert(tours_of(b).remove(i).to_multiset() =~= tours_of(b).to_multiset().remove(
            x.solution.giant_tour@,
        ));
        assert(tours_of(b).to_multiset().count(x.solution.giant_tour@) > 0) by {
            assert(tours_of(b).contains(x.solution.giant_tour@));
        }
        assert(tours_of(a).to_multiset() =~= tours_of(b).to_multiset());
    }
}

/// Tour-length bounds carry over to any rearrangement of the bag.
proof fn lemma_bounded_ms(a: Seq<Individual>, b: Seq<Individual>)
    requires
        a.to_multiset() == b.to_multiset(),
        tours_bounded(b),
    ensures
        tours_bounded(a),
{
    broadcast use vstd::seq_lib::group_to_multiset_ensures;

    assert forall|q: int| 0 <= q < a.len() implies (#[trigger] a[q]).solution.giant_tour@.len()
        <= 1_000_000_000 by {
        assert(a.contains(a[q]));
        assert(a.to_multiset().count(a[q]) > 0);
        assert(b.to_multiset().count(a[q]) > 0);
        assert(b.contains(a[q]));
    }
}

/// Insertion sort of a bag by solution cost; the members are preserved as
/// a multiset.
#[verifier::rlimit(60)]
fn sort_bag_by_cost(bag: &mut Vec<Individual>)
    ensures
        final(bag)@.len() == old(bag)@.len(),
        final(bag)@.to_multiset() == old(bag)@.to_multiset(),
        forall|a: int, b: int|
            0 <= a <= b < final(bag)@.len() ==> (#[trigger] final(bag)@[a]).solution.cost <= (
            #[trigger] final(bag)@[b]).solution.cost,
{
    broadcast use vstd::seq_lib::group_to_multiset_ensures;
    broadcast use vstd::multiset::group_multiset_axioms;

    let len = bag.len();
    let mut a: usize = 1;
    while a < len
        invariant
            1 <= a <= len || len == 0,
            len == bag@.len(),
            bag@.to_multiset() == old(bag)@.to_multiset(),
            forall|x: int, y: int|
                0 <= x <= y < a ==> (#[trigger] bag@[x]).solution.cost <= (#[trigger] bag@[y]).solution.cost,
        decreases len - a,
    {
        let mut b: usize = a;
        while b > 0 && bag[b - 1].solution.cost > bag[b].solution.cost
            invariant
                b <= a < len,
                len == bag@.len(),
                bag@.to_multiset() == old(bag)@.to_multiset(),
                forall|x: int, y: int|
                    0 <= x <= y <= a && y != b ==> (#[trigger] bag@[x]).solution.cost <= (
                    #[trigger] bag@[y]).solution.cost,
            decreases b,
        {
            let ghost pre = bag@;
            let moved = bag.remove(b);
            bag.insert(b - 1, moved);
            proof {
                broadcast use vstd::seq_lib::to_multiset_insert;

                pre.to_multiset_ensures();
                pre.remove(b as int).to_multiset_ensures();
                assert(pre.remove(b as int).to_multiset() =~= pre.to_multiset().remove(pre[b as int]));
                assert(bag@.to_multiset() =~= pre.to_multiset()) by {
                    assert(pre.contains(pre[b as int]));
                    assert(pre.to_multiset().count(pre[b as int]) > 0);
                }
                assert(forall|q: int|
                    0 <= q < bag@.len() && q != b && q != b - 1 ==> bag@[q] == #[trigger] pre[q]);
                assert(bag@[b - 1] == pre[b as int] && bag@[b as int] == pre[b - 1]);
            }
            b -= 1;
        }
        a += 1;
    }
}

/// Record each member's position as its cost rank.
fn assign_cost_ranks(bag: &mut Vec<Individual>)
    ensures
        final(bag)@.len() == old(bag)@.len(),
        forall|q: int|
            0 <= q < final(bag)@.len() ==> {
                &&& (#[trigger] final(bag)@[q]).rank_feasibility == q
                &&& final(bag)@[q].solution == old(bag)@[q].solution
                &&& final(bag)@[q].rank_diversity == old(bag)@[q].rank_diversity
                &&& final(bag)@[q].biased_fitness == old(bag)@[q].biased_fitness
                &&& final(bag)@[q].common_pairs == old(bag)@[q].common_pairs
            },
        tours_of(final(bag)@).to_multiset() == tours_of(old(bag)@).to_multiset(),
        tours_bounded(old(bag)@) ==> tours_bounded(final(bag)@),
{
    let len = bag.len();
    let mut i: usize = 0;
    while i < len
        invariant
            i <= len,
            len == bag@.len(),
            forall|q: int|
                0 <= q < i ==> {
                    &&& (#[trigger] bag@[q]).rank_feasibility == q
                    &&& bag@[q].solution == old(bag)@[q].solution
                    &&& bag@[q].rank_diversity == old(bag)@[q].rank_diversity
                    &&& bag@[q].biased_fitness == old(bag)@[q].biased_fitness
                    &&& bag@[q].common_pairs == old(bag)@[q].common_pairs
                },
            forall|q: int| i <= q < len ==> #[trigger] bag@[q] == old(bag)@[q],
        decreases len - i,
    {
        let ind = vstd::std_specs::vec::vec_index_mut(bag, i);
        ind.rank_feasibility = i;
        i += 1;
    }
    proof {
        assert(tours_of(bag@) =~= tours_of(old(bag)@));
    }
}

/// For each member, count the common consecutive pairs against every peer
/// of its bag.
/// The common-pair count between two members' giant tours, as
/// `calculate_common_pairs` measures it.
pub open spec fn pair_count_of(a: Individual, b: Individual) -> int {
    let s = a.solution.giant_tour@;
    let t = b.solution.giant_tour@;
    let upto = if s.len() <= t.len() {
        s.len() as int - 1
    } else {
        t.len() as int - 1
    };
    crate::individual::common_pairs_spec(s, t, if upto >= 0 {
        upto
    } else {
        0
    })
}

/// Every member's pair counts are exactly those against its current bag
/// peers, with a zero diagonal.
pub open spec fn pairs_recomputed(bag: Seq<Individual>) -> bool {
    forall|q: int, w: int|
        0 <= q < bag.len() && 0 <= w < bag.len() ==> ((#[trigger] bag[q].common_pairs@[w]) as int)
            == (if w == q {
            0int
        } else {
            pair_count_of(bag[q], bag[w])
        })
}

/// The rank-order property only reads each member's diversity rank and
/// pair counts, so it survives any per-member change that keeps those.
proof fn lemma_diversity_ranked_same(a: Seq<Individual>, b: Seq<Individual>, n_closest: int)
    requires
        diversity_ranked(b, n_closest),
        a.len() == b.len(),
        forall|q: int|
            0 <= q < a.len() ==> (#[trigger] a[q]).rank_diversity == b[q].rank_diversity
                && a[q].common_pairs == b[q].common_pairs,
    ensures
        diversity_ranked(a, n_closest),
{
    let dv = choose|dv: Seq<(usize, u64)>| #[trigger] diversity_order(b, dv, n_closest);
    assert forall|q: int| 0 <= q < dv.len() implies contribution_ok(
        a[(#[trigger] dv[q]).0 as int],
        dv[q].1,
        n_closest,
    ) by {
        let idx = dv[q].0 as int;
        assert(contribution_ok(b[idx], dv[q].1, n_closest));
        let sorted = choose|sorted: Seq<usize>|
            {
                &&& #[trigger] sorted.to_multiset() == b[idx].common_pairs@.to_multiset()
                &&& crate::individual::descending(sorted)
                &&& dv[q].1 as int == crate::individual::prefix_sum(
                    sorted,
                    if n_closest <= sorted.len() {
                        n_closest
                    } else {
                        sorted.len() as int
                    },
                )
            };
        assert(a[idx].common_pairs@ == b[idx].common_pairs@);
        assert(sorted.to_multiset() == a[idx].common_pairs@.to_multiset());
    }
    assert forall|r: int| 0 <= r < dv.len() implies (a[(
    #[trigger] dv[r]).0 as int].rank_diversity as int) == r by {
        assert((b[dv[r].0 as int].rank_diversity as int) == r);
    }
    assert(diversity_order(a, dv, n_closest));
}

/// The recomputed-pairs property only reads each member's tour and pair
/// counts, so it survives any per-member change that keeps those.
proof fn lemma_pairs_recomputed_same(a: Seq<Individual>, b: Seq<Individual>)
    requires
        pairs_recomputed(b),
        a.len() == b.len(),
        forall|q: int|
            0 <= q < a.len() ==> (#[trigger] a[q]).solution == b[q].solution && a[q].common_pairs
                == b[q].common_pairs,
    ensures
        pairs_recomputed(a),
{
    assert forall|q: int, w: int|
        0 <= q < a.len() && 0 <= w < a.len() implies ((#[trigger] a[q].common_pairs@[w]) as int)
            == (if w == q {
            0int
        } else {
            pair_count_of(a[q], a[w])
        }) by {
        assert(((b[q].common_pairs@[w]) as int) == (if w == q {
            0int
        } else {
            pair_count_of(b[q], b[w])
        }));
    }
}

fn compute_common_pairs(bag: &mut Vec<Individual>)
    requires
        tours_bounded(old(bag)@),
    ensures
        final(bag)@.len() == old(bag)@.len(),
        forall|q: int|
            0 <= q < final(bag)@.len() ==> {
                &&& (#[trigger] final(bag)@[q]).solution == old(bag)@[q].solution
                &&& final(bag)@[q].rank_feasibility == old(bag)@[q].rank_feasibility
                &&& final(bag)@[q].rank_diversity == old(bag)@[q].rank_diversity
                &&& final(bag)@[q].common_pairs@.len() == final(bag)@.len()
                &&& forall|w: int|
                    0 <= w < final(bag)@.len() ==> ((#[trigger] final(bag)@[q].common_pairs@[w]) as int)
                        <= 1_000_000_000
            },
        pairs_recomputed(final(bag)@),
        tours_of(final(bag)@) == tours_of(old(bag)@),
{
    let len = bag.len();
    let mut i: usize = 0;
    while i < len
        invariant
            i <= len,
            len == bag@.len(),
            old(bag)@.len() == len,
            tours_bounded(old(bag)@),
            forall|q: int|
                0 <= q < i ==> {
                    &&& (#[trigger] bag@[q]).solution == old(bag)@[q].solution
                    &&& bag@[q].rank_feasibility == old(bag)@[q].rank_feasibility
                    &&& bag@[q].rank_diversity == old(bag)@[q].rank_diversity
                    &&& bag@[q].common_pairs@.len() == len
                    &&& forall|w: int|
                        0 <= w < len ==> ((#[trigger] bag@[q].common_pairs@[w]) as int) <= 1_000_000_000
                },
            forall|q: int, w: int|
                0 <= q < i && 0 <= w < len ==> ((#[trigger] bag@[q].common_pairs@[w]) as int) == (
                if w == q {
                    0int
                } else {
                    pair_count_of(old(bag)@[q], old(bag)@[w])
                }),
            forall|q: int| i <= q < len ==> #[trigger] bag@[q] == old(bag)@[q],
        decreases len - i,
    {
        let mut row: Vec<usize> = Vec::new();
        let mut j: usize = 0;
        while j < len
            invariant
                i < len,
                j <= len,
                len == bag@.len(),
                old(bag)@.len() == len,
                tours_bounded(old(bag)@),
                forall|q: int| i <= q < len ==> #[trigger] bag@[q] == old(bag)@[q],
                forall|q: int|
                    0 <= q < i ==> (#[trigger] bag@[q]).solution == old(bag)@[q].solution,
                row@.len() == j,
                forall|w: int| 0 <= w < j ==> (#[trigger] row@[w]) as int <= 1_000_000_000,
                forall|w: int|
                    0 <= w < j ==> ((#[trigger] row@[w]) as int) == (if w == i {
                        0int
                    } else {
                        pair_count_of(old(bag)@[i as int], old(bag)@[w])
                    }),
            decreases len - j,
        {
            let c = if j == i {
                0
            } else {
                let count = bag[i].calculate_common_pairs(&bag[j]);
                proof {
                    lemma_common_pairs_le(
                        bag@[i as int].solution.giant_tour@,
                        bag@[j as int].solution.giant_tour@,
                    );
                    assert(old(bag)@[i as int].solution.giant_tour@.len() <= 1_000_000_000);
                    assert(old(bag)@[j as int].solution.giant_tour@.len() <= 1_000_000_000);
                    assert(bag@[i as int].solution.giant_tour@.len() <= 1_000_000_000);
                    assert(bag@[j as int].solution.giant_tour@.len() <= 1_000_000_000);
                    assert(count as int <= 1_000_000_000);
                    assert(bag@[i as int].solution == old(bag)@[i as int].solution);
                    assert(bag@[j as int].solution == old(bag)@[j as int].solution);
                    assert(count as int == pair_count_of(old(bag)@[i as int], old(bag)@[j as int]));
                }
                count
            };
            row.push(c);
            j += 1;
        }
        let ind = vstd::std_specs::vec::vec_index_mut(bag, i);
        ind.common_pairs = row;
        i += 1;
    }
    proof {
        assert(tours_of(bag@) =~= tours_of(old(bag)@));
        assert forall|q: int, w: int|
            0 <= q < bag@.len() && 0 <= w < bag@.len() implies ((
        #[trigger] bag@[q].common_pairs@[w]) as int) == (if w == q {
            0int
        } else {
            pair_count_of(bag@[q], bag@[w])
        }) by {
            assert(bag@[q].solution == old(bag)@[q].solution);
            assert(bag@[w].solution == old(bag)@[w].solution);
        }
    }
}

/// The common-pair count never exceeds the shorter tour's length.
proof fn lemma_common_pairs_le(a: Seq<usize>, b: Seq<usize>)
    ensures
        forall|k: int|
            0 <= k <= (if a.len() <= b.len() {
                a.len() as int
            } else {
                b.len() as int
            }) ==> #[trigger] crate::individual::common_pairs_spec(a, b, k) <= k && crate::individual::common_pairs_spec(
                a,
                b,
                k,
            ) >= 0,
{
    assert forall|k: int|
        0 <= k <= (if a.len() <= b.len() {
            a.len() as int
        } else {
            b.len() as int
        }) implies #[trigger] crate::individual::common_pairs_spec(a, b, k) <= k && crate::individual::common_pairs_spec(
        a,
        b,
        k,
    ) >= 0 by {
        lemma_common_pairs_le_one(a, b, k);
    }
}

/// See `lemma_common_pairs_le`.
proof fn lemma_common_pairs_le_one(a: Seq<usize>, b: Seq<usize>, k: int)
    requires
        k >= 0,
    ensures
        0 <= crate::individual::common_pairs_spec(a, b, k) <= k,
    decreases k,
{
    if k > 0 {
        lemma_common_pairs_le_one(a, b, k - 1);
    }
}

/// Some pair in the list carries `w` as its index.
pub open spec fn covered(dv: Seq<(usize, u64)>, w: int) -> bool {
    exists|r: int| 0 <= r < dv.len() && ((#[trigger] dv[r]).0 as int) == w
}

/// `v` is the member's diversity contribution: the sum of its largest
/// `n_closest` pair counts.
pub open spec fn contribution_ok(ind: Individual, v: u64, n_closest: int) -> bool {
    exists|sorted: Seq<usize>|
        {
            &&& #[trigger] sorted.to_multiset() == ind.common_pairs@.to_multiset()
            &&& crate::individual::descending(sorted)
            &&& v as int == crate::individual::prefix_sum(sorted, if n_closest <= sorted.len() {
                n_closest
            } else {
                sorted.len() as int
            })
        }
}

/// The bag's diversity ranks follow its contributions: some list of
/// distinct member indices paired with their contributions, ascending,
/// gives each member its position as its rank.
pub open spec fn diversity_order(bag: Seq<Individual>, dv: Seq<(usize, u64)>, n_closest: int) -> bool {
    &&& dv.len() == bag.len()
    &&& (forall|q: int| 0 <= q < dv.len() ==> ((#[trigger] dv[q]).0 as int) < bag.len())
    &&& (forall|x: int, y: int|
        0 <= x < dv.len() && 0 <= y < dv.len() && x != y ==> (#[trigger] dv[x]).0 != (
        #[trigger] dv[y]).0)
    &&& (forall|x: int, y: int| 0 <= x <= y < dv.len() ==> (#[trigger] dv[x]).1 <= (#[trigger] dv[y]).1)
    &&& (forall|r: int|
        0 <= r < dv.len() ==> (bag[(#[trigger] dv[r]).0 as int].rank_diversity as int) == r)
    &&& (forall|q: int|
        0 <= q < dv.len() ==> contribution_ok(bag[(#[trigger] dv[q]).0 as int], dv[q].1, n_closest))
}

/// The ranks of the bag were assigned in ascending order of contribution.
pub open spec fn diversity_ranked(bag: Seq<Individual>, n_closest: int) -> bool {
    exists|dv: Seq<(usize, u64)>| #[trigger] diversity_order(bag, dv, n_closest)
}

/// Sort the (index, contribution) pairs ascending and give the member at
/// each pair's index the pair's position as its diversity rank.
fn assign_diversity_ranks(bag: &mut Vec<Individual>, n_closest: usize)
    requires
        old(bag)@.len() <= 1_000_000,
        forall|q: int|
            0 <= q < old(bag)@.len() ==> {
                &&& (#[trigger] old(bag)@[q]).common_pairs@.len() <= 1_000_000
                &&& forall|w: int|
                    0 <= w < old(bag)@[q].common_pairs@.len() ==> (
                    #[trigger] old(bag)@[q].common_pairs@[w]) as int <= 1_000_000_000
            },
    ensures
        final(bag)@.len() == old(bag)@.len(),
        forall|q: int|
            0 <= q < final(bag)@.len() ==> {
                &&& (#[trigger] final(bag)@[q]).solution == old(bag)@[q].solution
                &&& final(bag)@[q].rank_feasibility == old(bag)@[q].rank_feasibility
                &&& final(bag)@[q].common_pairs == old(bag)@[q].common_pairs
                &&& (final(bag)@[q].rank_diversity as int) < final(bag)@.len()
            },
        tours_of(final(bag)@) == tours_of(old(bag)@),
        diversity_ranked(final(bag)@, n_closest as int),
{
    let len = bag.len();
    if len == 0 {
        proof {
            assert(tours_of(bag@) =~= tours_of(old(bag)@));
            let dv0 = Seq::<(usize, u64)>::empty();
            assert(diversity_order(bag@, dv0, n_closest as int));
        }
        return ;
    }
    let mut dv: Vec<(usize, u64)> = Vec::new();
    let mut i: usize = 0;
    while i < len
        invariant
            i <= len,
            len == bag@.len(),
            bag@ == old(bag)@,
            dv@.len() == i,
            forall|q: int| 0 <= q < i ==> (#[trigger] dv@[q]).0 as int == q,
            forall|q: int|
                0 <= q < i ==> contribution_ok(old(bag)@[(#[trigger] dv@[q]).0 as int], dv@[q].1, n_closest as int),
            forall|q: int|
                0 <= q < old(bag)@.len() ==> {
                    &&& (#[trigger] old(bag)@[q]).common_pairs@.len() <= 1_000_000
                    &&& forall|w: int|
                        0 <= w < old(bag)@[q].common_pairs@.len() ==> ((
                        #[trigger] old(bag)@[q].common_pairs@[w]) as int) <= 1_000_000_000
                },
        decreases len - i,
    {
        let value = bag[i].calculate_diversity_contribution(n_closest);
        proof {
            assert(contribution_ok(old(bag)@[i as int], value, n_closest as int));
        }
        dv.push((i, value));
        i += 1;
    }
    proof {
        assert forall|w: int| 0 <= w < len implies #[trigger] covered(dv@, w) by {
            assert(((dv@[w]).0 as int) == w);
        }
    }
    // Insertion sort ascending by contribution.
    let mut a: usize = 1;
    while a < len
        invariant
            1 <= a <= len,
            len == bag@.len(),
            bag@ == old(bag)@,
            dv@.len() == len,
            forall|q: int| 0 <= q < len ==> ((#[trigger] dv@[q]).0 as int) < len,
            forall|w: int| 0 <= w < len ==> #[trigger] covered(dv@, w),
            forall|x: int, y: int|
                0 <= x < len && 0 <= y < len && x != y ==> (#[trigger] dv@[x]).0 != (
                #[trigger] dv@[y]).0,
            forall|q: int|
                0 <= q < len ==> contribution_ok(old(bag)@[(#[trigger] dv@[q]).0 as int], dv@[q].1, n_closest as int),
            forall|x: int, y: int| 0 <= x <= y < a ==> (#[trigger] dv@[x]).1 <= (#[trigger] dv@[y]).1,
        decreases len - a,
    {
        let mut b: usize = a;
        while b > 0 && dv[b - 1].1 > dv[b].1
            invariant
                b <= a < len,
                len == bag@.len(),
                bag@ == old(bag)@,
                dv@.len() == len,
                forall|q: int| 0 <= q < len ==> ((#[trigger] dv@[q]).0 as int) < len,
                forall|w: int| 0 <= w < len ==> #[trigger] covered(dv@, w),
                forall|x: int, y: int|
                    0 <= x < len && 0 <= y < len && x != y ==> (#[trigger] dv@[x]).0 != (
                    #[trigger] dv@[y]).0,
                forall|q: int|
                    0 <= q < len ==> contribution_ok(old(bag)@[(#[trigger] dv@[q]).0 as int], dv@[q].1, n_closest as int),
                forall|x: int, y: int|
                    0 <= x <= y <= a && y != b ==> (#[trigger] dv@[x]).1 <= (#[trigger] dv@[y]).1,
            decreases b,
        {
            let ghost pre = dv@;
            let x = dv[b - 1];
            let y = dv[b];
            *vstd::std_specs::vec::vec_index_mut(&mut dv, b - 1) = y;
            *vstd::std_specs::vec::vec_index_mut(&mut dv, b) = x;
            proof {
                assert forall|w: int| 0 <= w < len implies #[trigger] covered(dv@, w) by {
                    assert(covered(pre, w));
                    let r0 = choose|r0: int| 0 <= r0 < pre.len() && ((#[trigger] pre[r0]).0 as int) == w;
                    if r0 == b - 1 {
                        assert(((dv@[b as int]).0 as int) == w);
                    } else if r0 == b {
                        assert(((dv@[b - 1]).0 as int) == w);
                    } else {
                        assert(((dv@[r0]).0 as int) == w);
                    }
                }
                assert forall|x0: int, y0: int|
                    0 <= x0 < len && 0 <= y0 < len && x0 != y0 implies (#[trigger] dv@[x0]).0 != (
                #[trigger] dv@[y0]).0 by {
                    let sx: int = if x0 == b - 1 {
                        b as int
                    } else if x0 == b {
                        b - 1
                    } else {
                        x0
                    };
                    let sy: int = if y0 == b - 1 {
                        b as int
                    } else if y0 == b {
                        b - 1
                    } else {
                        y0
                    };
                    assert(dv@[x0] == pre[sx]);
                    assert(dv@[y0] == pre[sy]);
                    assert(pre[sx].0 != pre[sy].0);
                }
                assert forall|q: int| 0 <= q < len implies contribution_ok(
                    old(bag)@[(#[trigger] dv@[q]).0 as int],
                    dv@[q].1,
                    n_closest as int,
                ) by {
                    let sq: int = if q == b - 1 {
                        b as int
                    } else if q == b {
                        b - 1
                    } else {
                        q
                    };
                    assert(dv@[q] == pre[sq]);
                }
            }
            b -= 1;
        }
        a += 1;
    }
    // Assign ranks by sorted order.
    let mut r: usize = 0;
    while r < len
        invariant
            r <= len,
            len == bag@.len(),
            dv@.len() == len,
            forall|q: int| 0 <= q < len ==> ((#[trigger] dv@[q]).0 as int) < len,
            forall|w: int| 0 <= w < len ==> #[trigger] covered(dv@, w),
            forall|x: int, y: int|
                0 <= x < len && 0 <= y < len && x != y ==> (#[trigger] dv@[x]).0 != (
                #[trigger] dv@[y]).0,
            forall|q: int|
                0 <= q < len ==> contribution_ok(old(bag)@[(#[trigger] dv@[q]).0 as int], dv@[q].1, n_closest as int),
            forall|x: int, y: int| 0 <= x <= y < len ==> (#[trigger] dv@[x]).1 <= (#[trigger] dv@[y]).1,
            forall|q: int|
                0 <= q < len ==> {
                    &&& (#[trigger] bag@[q]).solution == old(bag)@[q].solution
                    &&& bag@[q].rank_feasibility == old(bag)@[q].rank_feasibility
                    &&& bag@[q].common_pairs == old(bag)@[q].common_pairs
                },
            forall|rr: int|
                0 <= rr < r ==> (bag@[(#[trigger] dv@[rr]).0 as int].rank_diversity as int) == rr,
            forall|q: int|
                0 <= q < len && (exists|rr: int| 0 <= rr < r && ((#[trigger] dv@[rr]).0 as int) == q)
                    ==> ((#[trigger] bag@[q]).rank_diversity as int) < len,
            forall|q: int|
                0 <= q < len && !(exists|rr: int| 0 <= rr < r && ((#[trigger] dv@[rr]).0 as int) == q)
                    ==> (#[trigger] bag@[q]).rank_diversity == old(bag)@[q].rank_diversity,
        decreases len - r,
    {
        let idx = dv[r].0;
        let ind = vstd::std_specs::vec::vec_index_mut(bag, idx);
        ind.rank_diversity = r;
        proof {
            assert((dv@[r as int]).0 as int == idx as int);
            assert forall|rr: int| 0 <= rr < r + 1 implies (bag@[(
            #[trigger] dv@[rr]).0 as int].rank_diversity as int) == rr by {
                if rr < r {
                    assert(dv@[rr].0 != dv@[r as int].0);
                }
            }
        }
        r += 1;
    }
    proof {
        assert forall|q: int| 0 <= q < len implies ((#[trigger] bag@[q]).rank_diversity as int) < len by {
            assert(covered(dv@, q));
            let rr = choose|rr: int| 0 <= rr < dv@.len() && ((#[trigger] dv@[rr]).0 as int) == q;
        }
        assert(tours_of(bag@) =~= tours_of(old(bag)@));
        // The list built by the sweep witnesses the rank ordering.
        assert forall|q: int| 0 <= q < dv@.len() implies contribution_ok(
            bag@[(#[trigger] dv@[q]).0 as int],
            dv@[q].1,
            n_closest as int,
        ) by {
            let idx = dv@[q].0 as int;
            assert(contribution_ok(old(bag)@[idx], dv@[q].1, n_closest as int));
            let sorted = choose|sorted: Seq<usize>|
                {
                    &&& #[trigger] sorted.to_multiset() == old(bag)@[idx].common_pairs@.to_multiset()
                    &&& crate::individual::descending(sorted)
                    &&& dv@[q].1 as int == crate::individual::prefix_sum(
                        sorted,
                        if n_closest as int <= sorted.len() {
                            n_closest as int
                        } else {
                            sorted.len() as int
                        },
                    )
                };
            assert(bag@[idx].common_pairs@ == old(bag)@[idx].common_pairs@);
            assert(sorted.to_multiset() == bag@[idx].common_pairs@.to_multiset());
        }
        assert(diversity_order(bag@, dv@, n_closest as int));
    }
}

/// Give every member its biased fitness on the given population scale.
fn apply_biased_fitness(bag: &mut Vec<Individual>, pop_size: usize, n_elite: usize)
    requires
        old(bag)@.len() <= pop_size,
        pop_size <= 1_000_000_000,
        forall|q: int|
            0 <= q < old(bag)@.len() ==> {
                &&& ((#[trigger] old(bag)@[q]).rank_feasibility as int) < old(bag)@.len()
                &&& (old(bag)@[q].rank_diversity as int) < old(bag)@.len()
            },
    ensures
        final(bag)@.len() == old(bag)@.len(),
        forall|q: int|
            0 <= q < final(bag)@.len() ==> {
                &&& (#[trigger] final(bag)@[q]).solution == old(bag)@[q].solution
                &&& final(bag)@[q].rank_feasibility == old(bag)@[q].rank_feasibility
                &&& final(bag)@[q].rank_diversity == old(bag)@[q].rank_diversity
                &&& final(bag)@[q].common_pairs == old(bag)@[q].common_pairs
            },
        fitness_assigned(final(bag)@, pop_size as int, n_elite as int),
        tours_of(final(bag)@) == tours_of(old(bag)@),
{
    let len = bag.len();
    let mut i: usize = 0;
    while i < len
        invariant
            i <= len,
            len == bag@.len(),
            len <= pop_size <= 1_000_000_000,
            forall|q: int|
                0 <= q < len ==> {
                    &&& (#[trigger] bag@[q]).solution == old(bag)@[q].solution
                    &&& bag@[q].rank_feasibility == old(bag)@[q].rank_feasibility
                    &&& bag@[q].rank_diversity == old(bag)@[q].rank_diversity
                    &&& bag@[q].common_pairs == old(bag)@[q].common_pairs
                },
            forall|q: int|
                0 <= q < len ==> {
                    &&& ((#[trigger] bag@[q]).rank_feasibility as int) < len
                    &&& (bag@[q].rank_diversity as int) < len
                },
            forall|q: int|
                0 <= q < i ==> (#[trigger] bag@[q]).biased_fitness as int == bag@[q].rank_feasibility
                    * pop_size + (if (n_elite as int) < (pop_size as int) {
                    pop_size - n_elite
                } else {
                    0int
                }) * bag@[q].rank_diversity,
        decreases len - i,
    {
        let ind = vstd::std_specs::vec::vec_index_mut(bag, i);
        ind.calculate_biased_fitness(pop_size, n_elite);
        i += 1;
    }
    proof {
        assert(tours_of(bag@) =~= tours_of(old(bag)@));
    }
}

/// The unmarked members of `orig` from position `from` on, in order.
pub open spec fn kept(orig: Seq<Individual>, rm: Seq<bool>, from: int) -> Seq<Individual>
    decreases orig.len() - from when 0 <= from <= orig.len()
{
    if from >= orig.len() {
        Seq::empty()
    } else if rm[from] {
        kept(orig, rm, from + 1)
    } else {
        seq![orig[from]] + kept(orig, rm, from + 1)
    }
}

/// Each kept member comes from an unmarked position at or past `from`,
/// and the kept members of a clone-free suffix are clone-free.
proof fn lemma_kept(orig: Seq<Individual>, rm: Seq<bool>, from: int)
    requires
        0 <= from <= orig.len(),
        rm.len() == orig.len(),
    ensures
        forall|q: int|
            0 <= q < kept(orig, rm, from).len() ==> exists|w: int|
                from <= w < orig.len() && !rm[w] && #[trigger] kept(orig, rm, from)[q] == orig[w],
        (forall|x: int, y: int|
            from <= x < y < orig.len() && !rm[x] && !rm[y] ==> (#[trigger] orig[x]).solution.giant_tour@
                != (#[trigger] orig[y]).solution.giant_tour@) ==> no_clones(kept(orig, rm, from)),
        (forall|x: int, y: int|
            from <= x <= y < orig.len() ==> (#[trigger] orig[x]).biased_fitness <= (
            #[trigger] orig[y]).biased_fitness) ==> forall|a: int, b: int|
            0 <= a <= b < kept(orig, rm, from).len() ==> (#[trigger] kept(orig, rm, from)[a]).biased_fitness
                <= (#[trigger] kept(orig, rm, from)[b]).biased_fitness,
        kept(orig, rm, from).len() <= orig.len() - from,
    decreases orig.len() - from,
{
    if from < orig.len() {
        lemma_kept(orig, rm, from + 1);
        let k = kept(orig, rm, from);
        let rest = kept(orig, rm, from + 1);
        if !rm[from] {
            assert(k == seq![orig[from]] + rest);
            assert forall|q: int| 0 <= q < k.len() implies exists|w: int|
                from <= w < orig.len() && !rm[w] && #[trigger] k[q] == orig[w] by {
                if q == 0 {
                    assert(k[0] == orig[from] && !rm[from]);
                } else {
                    assert(k[q] == rest[q - 1]);
                    let w = choose|w: int|
                        from + 1 <= w < orig.len() && !rm[w] && #[trigger] rest[q - 1] == orig[w];
                }
            }
            if forall|x: int, y: int|
                from <= x < y < orig.len() && !rm[x] && !rm[y] ==> (#[trigger] orig[x]).solution.giant_tour@
                    != (#[trigger] orig[y]).solution.giant_tour@ {
                assert forall|a: int, b: int| 0 <= a < b < k.len() implies (
                #[trigger] k[a]).solution.giant_tour@ != (#[trigger] k[b]).solution.giant_tour@ by {
                    if a == 0 {
                        let w = choose|w: int|
                            from + 1 <= w < orig.len() && !rm[w] && #[trigger] rest[b - 1] == orig[w];
                        assert(orig[from].solution.giant_tour@ != orig[w].solution.giant_tour@);
                    } else {
                        assert(rest[a - 1].solution.giant_tour@ != rest[b - 1].solution.giant_tour@);
                    }
                }
            }
            if forall|x: int, y: int|
                from <= x <= y < orig.len() ==> (#[trigger] orig[x]).biased_fitness <= (
                #[trigger] orig[y]).biased_fitness {
                assert forall|a: int, b: int| 0 <= a <= b < k.len() implies (
                #[trigger] k[a]).biased_fitness <= (#[trigger] k[b]).biased_fitness by {
                    if a == 0 {
                        if b > 0 {
                            let w = choose|w: int|
                                from + 1 <= w < orig.len() && !rm[w] && #[trigger] rest[b - 1] == orig[w];
                            assert(orig[from].biased_fitness <= orig[w].biased_fitness);
                        }
                    } else {
                        assert(rest[a - 1].biased_fitness <= rest[b - 1].biased_fitness);
                    }
                }
            }
        }
    }
}

/// Flagging one more position drops exactly it from the kept members.
proof fn lemma_kept_mark(orig: Seq<Individual>, rm: Seq<bool>, from: int, j: int)
    requires
        0 <= from <= orig.len(),
        rm.len() == orig.len(),
        from <= j < orig.len(),
        !rm[j],
    ensures
        kept(orig, rm.update(j, true), from).len() == kept(orig, rm, from).len() - 1,
    decreases orig.len() - from,
{
    let rm2 = rm.update(j, true);
    if from == j {
        lemma_kept_same(orig, rm, rm2, from + 1);
    } else {
        lemma_kept_mark(orig, rm, from + 1, j);
    }
}

/// Positions past `from` see the same flags, so the kept members agree.
proof fn lemma_kept_same(orig: Seq<Individual>, rm1: Seq<bool>, rm2: Seq<bool>, from: int)
    requires
        0 <= from <= orig.len(),
        rm1.len() == orig.len(),
        rm2.len() == orig.len(),
        forall|x: int| from <= x < orig.len() ==> rm1[x] == rm2[x],
    ensures
        kept(orig, rm1, from) == kept(orig, rm2, from),
    decreases orig.len() - from,
{
    if from < orig.len() {
        lemma_kept_same(orig, rm1, rm2, from + 1);
    }
}

/// The positions in `[from, n)` that are not flagged.
pub open spec fn unmarked_set(rm: Seq<bool>, from: int, n: int) -> Set<int> {
    Set::new(|x: int| from <= x < n && !rm[x])
}

/// Exactly the unmarked positions contribute kept members.
proof fn lemma_unmarked_card(orig: Seq<Individual>, rm: Seq<bool>, from: int)
    requires
        0 <= from <= orig.len(),
        rm.len() == orig.len(),
    ensures
        unmarked_set(rm, from, orig.len() as int).finite(),
        unmarked_set(rm, from, orig.len() as int).len() == kept(orig, rm, from).len(),
    decreases orig.len() - from,
{
    broadcast use vstd::set::group_set_axioms;

    let n = orig.len() as int;
    if from == orig.len() {
        assert(unmarked_set(rm, from, n) =~= Set::<int>::empty());
    } else {
        lemma_unmarked_card(orig, rm, from + 1);
        if rm[from] {
            assert(unmarked_set(rm, from, n) =~= unmarked_set(rm, from + 1, n));
        } else {
            assert(unmarked_set(rm, from, n) =~= unmarked_set(rm, from + 1, n).insert(from));
            assert(!unmarked_set(rm, from + 1, n).contains(from));
        }
    }
}

/// The number of first occurrences equals the number of distinct tours.
proof fn lemma_foc_card(bag: Seq<Individual>)
    ensures
        first_occurrence_set(bag).finite(),
        first_occurrence_set(bag).len() == tours_of(bag).to_set().len(),
        tours_of(bag).to_set().finite(),
    decreases bag.len(),
{
    broadcast use vstd::set::group_set_axioms;
    broadcast use vstd::seq_lib::seq_to_set_is_finite;

    if bag.len() == 0 {
        assert(first_occurrence_set(bag) =~= Set::<int>::empty());
        assert(tours_of(bag).to_set() =~= Set::<Seq<usize>>::empty()) by {
            assert(forall|t: Seq<usize>| !#[trigger] tours_of(bag).contains(t));
        }
    } else {
        let t = bag.drop_last();
        let x = bag.last();
        lemma_foc_card(t);
        assert(forall|q: int| 0 <= q < t.len() ==> t[q] == #[trigger] bag[q]);
        assert(forall|q: int|
            0 <= q < t.len() ==> (first_occurrence(bag, q) <==> #[trigger] first_occurrence(t, q)));
        assert(tours_of(bag) =~= tours_of(t).push(x.solution.giant_tour@));
        assert forall|tt: Seq<usize>| #[trigger] tours_of(bag).to_set().contains(tt)
            <==> tours_of(t).to_set().contains(tt) || tt == x.solution.giant_tour@ by {
            if tours_of(bag).contains(tt) {
                let w = choose|w: int| 0 <= w < tours_of(bag).len() && tours_of(bag)[w] == tt;
                if w < t.len() {
                    assert(tours_of(t)[w] == tt);
                }
            }
            if tours_of(t).contains(tt) {
                let w = choose|w: int| 0 <= w < tours_of(t).len() && tours_of(t)[w] == tt;
                assert(tours_of(bag)[w] == tt);
            }
            if tt == x.solution.giant_tour@ {
                assert(tours_of(bag)[bag.len() - 1] == tt);
            }
        }
        assert(tours_of(bag).to_set() =~= tours_of(t).to_set().insert(x.solution.giant_tour@));
        if tours_of(t).to_set().contains(x.solution.giant_tour@) {
            // The last tour is a repeat: neither set grows.
            let w = choose|w: int| 0 <= w < tours_of(t).len() && tours_of(t)[w] == x.solution.giant_tour@;
            assert(bag[w].solution.giant_tour@ == x.solution.giant_tour@);
            assert(!first_occurrence(bag, bag.len() - 1));
            assert(first_occurrence_set(bag) =~= first_occurrence_set(t));
            assert(tours_of(bag).to_set() =~= tours_of(t).to_set());
        } else {
            // The last tour is new: both sets grow by one.
            assert(first_occurrence(bag, bag.len() - 1)) by {
                assert forall|y: int| 0 <= y < bag.len() - 1 implies (#[trigger] bag[y]).solution.giant_tour@
                    != x.solution.giant_tour@ by {
                    if bag[y].solution.giant_tour@ == x.solution.giant_tour@ {
                        assert(tours_of(t)[y] == x.solution.giant_tour@);
                        assert(tours_of(t).contains(x.solution.giant_tour@));
                    }
                }
            }
            assert(first_occurrence_set(bag) =~= first_occurrence_set(t).insert(bag.len() - 1));
            assert(!first_occurrence_set(t).contains(bag.len() - 1));
        }
    }
}

/// Equal tour multisets give equal tour sets.
proof fn lemma_tours_set(a: Seq<Individual>, b: Seq<Individual>)
    requires
        tours_of(a).to_multiset() == tours_of(b).to_multiset(),
    ensures
        tours_of(a).to_set() == tours_of(b).to_set(),
{
    broadcast use vstd::seq_lib::group_to_multiset_ensures;

    assert forall|t: Seq<usize>| tours_of(a).to_set().contains(t) <==> tours_of(
        b,
    ).to_set().contains(t) by {
        assert(tours_of(a).contains(t) <==> tours_of(a).to_multiset().count(t) > 0);
        assert(tours_of(b).contains(t) <==> tours_of(b).to_multiset().count(t) > 0);
    }
    assert(tours_of(a).to_set() =~= tours_of(b).to_set());
}

/// Trim one bag to the minimum size: sort by biased fitness, flag clones
/// (later copies of an already-seen giant tour) until the floor is
/// reached, flag the worst of what remains, and drop everything flagged.
fn select_survivors_for_subpop(bag: &mut Vec<Individual>, min_pop_size: usize)
    requires
        min_pop_size >= 1,
    ensures
        old(bag)@.len() <= min_pop_size ==> final(bag)@ == old(bag)@,
        old(bag)@.len() > min_pop_size ==> final(bag)@.len() == min_pop_size,
        forall|q: int|
            0 <= q < final(bag)@.len() ==> old(bag)@.to_multiset().count(#[trigger] final(bag)@[q]) > 0,
        old(bag)@.len() > min_pop_size ==> forall|a: int, b: int|
            0 <= a <= b < final(bag)@.len() ==> (#[trigger] final(bag)@[a]).biased_fitness <= (
            #[trigger] final(bag)@[b]).biased_fitness,
        old(bag)@.len() > min_pop_size ==> final(bag)@.len() >= 1 && forall|q: int|
            0 <= q < old(bag)@.len() ==> final(bag)@[0].biased_fitness <= (
            #[trigger] old(bag)@[q]).biased_fitness,
        tours_of(old(bag)@).to_set().len() >= min_pop_size ==> no_clones(final(bag)@),
        no_clones(old(bag)@) ==> no_clones(final(bag)@),
{
    broadcast use vstd::seq_lib::group_to_multiset_ensures;

    let n = bag.len();
    if n <= min_pop_size {
        proof {
            if tours_of(bag@).to_set().len() >= min_pop_size {
                // At most as many distinct tours as members, so every
                // member's tour is distinct here.
                broadcast use vstd::set::group_set_axioms;

                lemma_foc_card(bag@);
                vstd::set_lib::lemma_int_range(0, n as int);
                assert(first_occurrence_set(bag@).subset_of(vstd::set_lib::set_int_range(0, n as int)))
                    by {
                    assert(forall|x: int|
                        #[trigger] first_occurrence_set(bag@).contains(x) ==> 0 <= x < n);
                }
                vstd::set_lib::lemma_len_subset(
                    first_occurrence_set(bag@),
                    vstd::set_lib::set_int_range(0, n as int),
                );
                vstd::set_lib::lemma_subset_equality(
                    first_occurrence_set(bag@),
                    vstd::set_lib::set_int_range(0, n as int),
                );
                assert forall|a: int, b: int| 0 <= a < b < n implies (
                #[trigger] bag@[a]).solution.giant_tour@ != (#[trigger] bag@[b]).solution.giant_tour@ by {
                    assert(vstd::set_lib::set_int_range(0, n as int).contains(b));
                    assert(first_occurrence_set(bag@).contains(b));
                    assert(first_occurrence(bag@, b));
                }
            }
        }
        return ;
    }
    let ghost entry = bag@;
    sort_bag_by_bf(bag);
    let ghost sorted = bag@;
    proof {
        lemma_tours_ms(sorted, entry);
        lemma_tours_set(sorted, entry);
        lemma_foc_card(sorted);
        if no_clones(entry) {
            // Every tour distinct: the bag holds as many distinct tours as
            // members, which is above the floor.
            assert(tours_of(entry).no_duplicates()) by {
                assert(forall|a: int, b: int|
                    0 <= a < b < entry.len() ==> tours_of(entry)[a] == (#[trigger] entry[a]).solution.giant_tour@
                        && tours_of(entry)[b] == (#[trigger] entry[b]).solution.giant_tour@);
            }
            tours_of(entry).unique_seq_to_set();
            assert(tours_of(entry).to_set().len() == entry.len());
        }
    }

    let mut removed: Vec<bool> = vec![false; n];
    let mut survivors: usize = n;
    let mut stopped: bool = false;
    proof {
        lemma_kept_none(sorted, removed@, 0);
    }
    let mut i: usize = 0;
    while i < n && !stopped
        invariant
            n == bag@.len(),
            bag@ == sorted,
            n > min_pop_size >= 1,
            removed@.len() == n,
            i <= n,
            survivors as int == kept(sorted, removed@, 0).len(),
            survivors >= min_pop_size,
            stopped ==> survivors == min_pop_size,
            !stopped ==> survivors > min_pop_size,
            !removed@[0],
            forall|x: int| 0 <= x < n && removed@[x] ==> !first_occurrence(sorted, x),
            !stopped ==> forall|a: int, b: int|
                0 <= a < i && a < b < n && !removed@[a] && !removed@[b] ==> (
                #[trigger] sorted[a]).solution.giant_tour@ != (#[trigger] sorted[b]).solution.giant_tour@,
        decreases n - i, (if stopped { 0int } else { 1int }),
    {
        if !is_removed(&removed, i) {
            let mut j: usize = i + 1;
            while j < n && !stopped
                invariant
                    n == bag@.len(),
                    bag@ == sorted,
                    n > min_pop_size >= 1,
                    removed@.len() == n,
                    i < n,
                    i < j <= n,
                    !removed@[i as int],
                    survivors as int == kept(sorted, removed@, 0).len(),
                    survivors >= min_pop_size,
                    stopped ==> survivors == min_pop_size,
                    !stopped ==> survivors > min_pop_size,
                    !removed@[0],
                    forall|x: int| 0 <= x < n && removed@[x] ==> !first_occurrence(sorted, x),
                    !stopped ==> forall|a: int, b: int|
                        0 <= a < i && a < b < n && !removed@[a] && !removed@[b] ==> (
                        #[trigger] sorted[a]).solution.giant_tour@ != (
                        #[trigger] sorted[b]).solution.giant_tour@,
                    !stopped ==> forall|b: int|
                        i < b < j && !removed@[b] ==> (#[trigger] sorted[b]).solution.giant_tour@
                            != sorted[i as int].solution.giant_tour@,
                decreases n - j, (if stopped { 0int } else { 1int }),
            {
                if !is_removed(&removed, j) && bag[i].is_clone_of(&bag[j]) {
                    proof {
                        lemma_kept_mark(sorted, removed@, 0, j as int);
                        assert(!first_occurrence(sorted, j as int)) by {
                            assert(sorted[i as int].solution.giant_tour@ == sorted[j as int].solution.giant_tour@);
                        }
                    }
                    *vstd::std_specs::vec::vec_index_mut(&mut removed, j) = true;
                    survivors -= 1;
                    if survivors == min_pop_size {
                        stopped = true;
                    }
                }
                j += 1;
            }
        }
        i += 1;
    }
    // Whether the clone scan finished or stopped at the floor, the
    // unflagged positions carry pairwise distinct tours whenever the bag
    // held enough distinct tours.
    let ghost scan_rm = removed@;
    proof {
        if tours_of(entry).to_set().len() >= min_pop_size {
            if stopped {
                lemma_unmarked_card(sorted, scan_rm, 0);
                assert(first_occurrence_set(sorted).subset_of(unmarked_set(scan_rm, 0, n as int))) by {
                    assert(forall|x: int|
                        #[trigger] first_occurrence_set(sorted).contains(x) ==> !scan_rm[x]);
                }
                vstd::set_lib::lemma_len_subset(
                    first_occurrence_set(sorted),
                    unmarked_set(scan_rm, 0, n as int),
                );
                assert(unmarked_set(scan_rm, 0, n as int).len() == min_pop_size);
                assert(first_occurrence_set(sorted).len() >= min_pop_size);
                vstd::set_lib::lemma_subset_equality(
                    first_occurrence_set(sorted),
                    unmarked_set(scan_rm, 0, n as int),
                );
                assert forall|a: int, b: int|
                    0 <= a < b < n && !scan_rm[a] && !scan_rm[b] implies (
                #[trigger] sorted[a]).solution.giant_tour@ != (
                #[trigger] sorted[b]).solution.giant_tour@ by {
                    assert(unmarked_set(scan_rm, 0, n as int).contains(a));
                    assert(unmarked_set(scan_rm, 0, n as int).contains(b));
                    assert(first_occurrence_set(sorted).contains(b));
                    assert(first_occurrence(sorted, b));
                }
            }
        }
    }

    // Still above the floor: flag the worst of what remains, back to front,
    // never touching the best individual.
    let mut k: usize = n;
    while survivors > min_pop_size && k > 1
        invariant
            n == bag@.len(),
            bag@ == sorted,
            n > min_pop_size >= 1,
            removed@.len() == n,
            scan_rm.len() == n,
            1 <= k <= n,
            survivors as int == kept(sorted, removed@, 0).len(),
            survivors >= min_pop_size,
            survivors > min_pop_size ==> forall|x: int| k <= x < n ==> #[trigger] removed@[x],
            !removed@[0],
            forall|x: int| 0 <= x < n && scan_rm[x] ==> #[trigger] removed@[x],
        decreases k,
    {
        k -= 1;
        if !is_removed(&removed, k) {
            proof {
                lemma_kept_mark(sorted, removed@, 0, k as int);
            }
            *vstd::std_specs::vec::vec_index_mut(&mut removed, k) = true;
            survivors -= 1;
        }
    }
    proof {
        if survivors > min_pop_size {
            assert(k == 1);
            lemma_kept_all_marked(sorted, removed@, 1);
            assert(kept(sorted, removed@, 0).len() <= 1 + kept(sorted, removed@, 1).len());
            assert(false);
        }
        assert(survivors == min_pop_size);
    }

    // Drop the flagged members, keeping the rest in order.
    let ghost rm_final = removed@;
    let mut x: usize = n;
    while x > 0
        invariant
            n == sorted.len(),
            rm_final.len() == n,
            removed@ == rm_final,
            x <= n,
            bag@ =~= sorted.take(x as int) + kept(sorted, rm_final, x as int),
        decreases x,
    {
        x -= 1;
        if is_removed(&removed, x) {
            let ghost pre = bag@;
            bag.remove(x);
            proof {
                assert(bag@ =~= sorted.take(x as int) + kept(sorted, rm_final, x as int)) by {
                    assert(pre =~= sorted.take(x + 1) + kept(sorted, rm_final, x + 1));
                    assert(pre.remove(x as int) =~= sorted.take(x as int) + kept(sorted, rm_final, x + 1));
                    assert(kept(sorted, rm_final, x as int) == kept(sorted, rm_final, x + 1));
                }
            }
        } else {
            proof {
                assert(bag@ =~= sorted.take(x as int) + kept(sorted, rm_final, x as int)) by {
                    assert(bag@ =~= sorted.take(x + 1) + kept(sorted, rm_final, x + 1));
                    assert(kept(sorted, rm_final, x as int) =~= seq![sorted[x as int]] + kept(
                        sorted,
                        rm_final,
                        x + 1,
                    ));
                    assert(sorted.take(x + 1) =~= sorted.take(x as int).push(sorted[x as int]));
                }
            }
        }
    }
    proof {
        assert(bag@ =~= kept(sorted, rm_final, 0)) by {
            assert(sorted.take(0) =~= Seq::<Individual>::empty());
        }
        lemma_kept(sorted, rm_final, 0);
        assert forall|q: int| 0 <= q < bag@.len() implies entry.to_multiset().count(#[trigger] bag@[q]) > 0 by {
            let w = choose|w: int|
                0 <= w < sorted.len() && !rm_final[w] && #[trigger] kept(sorted, rm_final, 0)[q] == sorted[w];
            assert(sorted.contains(bag@[q]));
            assert(sorted.to_multiset().count(bag@[q]) > 0);
        }
        if tours_of(entry).to_set().len() >= min_pop_size || no_clones(entry) {
            assert(forall|x: int, y: int|
                0 <= x < y < n && !rm_final[x] && !rm_final[y] ==> (#[trigger] sorted[x]).solution.giant_tour@
                    != (#[trigger] sorted[y]).solution.giant_tour@);
            assert(no_clones(bag@));
        }
        // The best member survives, at the front, and the survivors stay
        // ordered by biased fitness.
        assert(bag@[0] == sorted[0]);
        assert forall|q: int| 0 <= q < entry.len() implies bag@[0].biased_fitness <= (
        #[trigger] entry[q]).biased_fitness by {
            assert(entry.contains(entry[q]));
            assert(entry.to_multiset().count(entry[q]) > 0);
            assert(sorted.to_multiset().count(entry[q]) > 0);
            assert(sorted.contains(entry[q]));
            let w = choose|w: int| 0 <= w < sorted.len() && sorted[w] == entry[q];
            assert(sorted[0].biased_fitness <= sorted[w].biased_fitness);
        }
    }
}

/// With every position flagged from `from` on, nothing is kept there.
proof fn lemma_kept_all_marked(orig: Seq<Individual>, rm: Seq<bool>, from: int)
    requires
        0 <= from <= orig.len(),
        rm.len() == orig.len(),
        forall|x: int| from <= x < orig.len() ==> #[trigger] rm[x],
    ensures
        kept(orig, rm, from).len() == 0,
    decreases orig.len() - from,
{
    if from < orig.len() {
        lemma_kept_all_marked(orig, rm, from + 1);
    }
}

/// With nothing flagged, everything is kept.
proof fn lemma_kept_none(orig: Seq<Individual>, rm: Seq<bool>, from: int)
    requires
        0 <= from <= orig.len(),
        rm.len() == orig.len(),
        forall|x: int| from <= x < orig.len() ==> !(#[trigger] rm[x]),
    ensures
        kept(orig, rm, from).len() == orig.len() - from,
    decreases orig.len() - from,
{
    if from < orig.len() {
        lemma_kept_none(orig, rm, from + 1);
    }
}

/// Whether a position is flagged.
fn is_removed(removed: &Vec<bool>, x: usize) -> (r: bool)
    requires
        (x as int) < removed@.len(),
    ensures
        r == removed@[x as int],
{
    removed[x]
}

/// Insertion sort of a bag by biased fitness; the members are preserved
/// as a multiset.
fn sort_bag_by_bf(bag: &mut Vec<Individual>)
    ensures
        final(bag)@.len() == old(bag)@.len(),
        final(bag)@.to_multiset() == old(bag)@.to_multiset(),
        forall|a: int, b: int|
            0 <= a <= b < final(bag)@.len() ==> (#[trigger] final(bag)@[a]).biased_fitness <= (
            #[trigger] final(bag)@[b]).biased_fitness,
{
    broadcast use vstd::seq_lib::group_to_multiset_ensures;
    broadcast use vstd::multiset::group_multiset_axioms;

    let len = bag.len();
    let mut a: usize = 1;
    while a < len
        invariant
            1 <= a <= len || len == 0,
            len == bag@.len(),
            bag@.to_multiset() == old(bag)@.to_multiset(),
            forall|x: int, y: int|
                0 <= x <= y < a ==> (#[trigger] bag@[x]).biased_fitness <= (#[trigger] bag@[y]).biased_fitness,
        decreases len - a,
    {
        let mut b: usize = a;
        while b > 0 && bag[b - 1].biased_fitness > bag[b].biased_fitness
            invariant
                b <= a < len,
                len == bag@.len(),
                bag@.to_multiset() == old(bag)@.to_multiset(),
                forall|x: int, y: int|
                    0 <= x <= y <= a && y != b ==> (#[trigger] bag@[x]).biased_fitness <= (
                    #[trigger] bag@[y]).biased_fitness,
            decreases b,
        {
            let ghost pre = bag@;
            let moved = bag.remove(b);
            bag.insert(b - 1, moved);
            proof {
                broadcast use vstd::seq_lib::to_multiset_insert;

                pre.to_multiset_ensures();
                pre.remove(b as int).to_multiset_ensures();
                assert(pre.remove(b as int).to_multiset() =~= pre.to_multiset().remove(pre[b as int]));
                assert(bag@.to_multiset() =~= pre.to_multiset()) by {
                    assert(pre.contains(pre[b as int]));
                    assert(pre.to_multiset().count(pre[b as int]) > 0);
                }
                assert(forall|q: int|
                    0 <= q < bag@.len() && q != b && q != b - 1 ==> bag@[q] == #[trigger] pre[q]);
                assert(bag@[b - 1] == pre[b as int] && bag@[b as int] == pre[b - 1]);
            }
            b -= 1;
        }
        a += 1;
    }
}

/// The chosen bag of the population.
pub open spec fn bag_of(pop: &Population, feasible: bool) -> Seq<Individual> {
    if feasible {
        pop.feasible_individuals@
    } else {
        pop.infeasible_individuals@
    }
}

/// The index points into the chosen bag.
pub open spec fn member_at(pop: &Population, feasible: bool, i: int) -> bool {
    0 <= i < bag_of(pop, feasible).len()
}

/// Two individuals carry the same solution views and ranking state.
pub open spec fn same_views(a: &Individual, b: &Individual) -> bool {
    &&& a.solution.giant_tour@ == b.solution.giant_tour@
    &&& a.solution.cost == b.solution.cost
    &&& a.solution.distance == b.solution.distance
    &&& a.solution.is_feasible == b.solution.is_feasible
    &&& a.biased_fitness == b.biased_fitness
}

} // verus!
