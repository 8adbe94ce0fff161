//! An individual of the population: a solution plus its ranking state.

use vstd::prelude::*;
use crate::solution::Solution;

verus! {

/// How many positions carry the same consecutive pair in both tours.
pub open spec fn common_pairs_spec(a: Seq<usize>, b: Seq<usize>, upto: int) -> int
    decreases upto,
{
    if upto <= 0 {
        0
    } else {
        common_pairs_spec(a, b, upto - 1) + if a[upto - 1] == b[upto - 1] && a[upto] == b[upto] {
            1int
        } else {
            0int
        }
    }
}

/// Sum of the first `k` entries of a sequence.
pub open spec fn prefix_sum(s: Seq<usize>, k: int) -> int
    decreases k,
{
    if k <= 0 {
        0
    } else {
        prefix_sum(s, k - 1) + s[k - 1]
    }
}

/// A sequence that never increases.
pub open spec fn descending(s: Seq<usize>) -> bool {
    forall|a: int, b: int| 0 <= a <= b < s.len() ==> s[a] >= s[b]
}

/// A population member: the solution it carries and the ranks the
/// population assigns it.  `biased_fitness` combines the cost rank and the
/// diversity rank scaled up by the population size, so comparing it
/// compares the fractional score
/// `rank_feasibility + (1 - n_elite/pop_size) * rank_diversity`.
#[derive(Debug)]
pub struct Individual {
    pub solution: Solution,
    pub rank_feasibility: usize,
    pub rank_diversity: usize,
    pub biased_fitness: u64,
    pub common_pairs: Vec<usize>,
}

impl Clone for Individual {
    /// A copy with the same solution views and ranking state.
    fn clone(&self) -> (r: Self)
        ensures
            r.solution.giant_tour@ == self.solution.giant_tour@,
            r.solution.cost == self.solution.cost,
            r.solution.distance == self.solution.distance,
            r.solution.excess_capacity == self.solution.excess_capacity,
            r.solution.is_feasible == self.solution.is_feasible,
            r.solution.routes@.len() == self.solution.routes@.len(),
            forall|i: int|
                0 <= i < self.solution.routes@.len() ==> {
                    &&& (#[trigger] r.solution.routes@[i]).customers@ == self.solution.routes@[i].customers@
                    &&& r.solution.routes@[i].load == self.solution.routes@[i].load
                    &&& r.solution.routes@[i].distance == self.solution.routes@[i].distance
                    &&& r.solution.routes@[i].modified == self.solution.routes@[i].modified
                },
            r.rank_feasibility == self.rank_feasibility,
            r.rank_diversity == self.rank_diversity,
            r.biased_fitness == self.biased_fitness,
            r.common_pairs@ == self.common_pairs@,
    {
        Individual {
            solution: self.solution.clone(),
            rank_feasibility: self.rank_feasibility,
            rank_diversity: self.rank_diversity,
            biased_fitness: self.biased_fitness,
            common_pairs: crate::local_search::utils::clone_indices(&self.common_pairs),
        }
    }
}

impl Individual {
    /// Wrap a solution with blank ranking state.
    pub fn new(solution: Solution) -> (r: Individual)
        ensures
            r.solution == solution,
            r.rank_feasibility == 0,
            r.rank_diversity == 0,
            r.biased_fitness == 0,
            r.common_pairs@ =~= Seq::<usize>::empty(),
    {
        Individual {
            solution,
            rank_feasibility: 0,
            rank_diversity: 0,
            biased_fitness: 0,
            common_pairs: Vec::new(),
        }
    }

    /// Combine the two ranks into the biased fitness, on the subpopulation
    /// scale: `rank_feasibility * pop_size + (pop_size - n_elite) * rank_diversity`.
    /// Comparing two of these compares the fractional score
    /// `rank_feasibility + (1 - n_elite/pop_size) * rank_diversity`.
    pub fn calculate_biased_fitness(&mut self, pop_size: usize, n_elite: usize)
        requires
            0 < pop_size <= 1_000_000_000,
            old(self).rank_feasibility < pop_size,
            old(self).rank_diversity < pop_size,
        ensures
            final(self).solution == old(self).solution,
            final(self).rank_feasibility == old(self).rank_feasibility,
            final(self).rank_diversity == old(self).rank_diversity,
            final(self).common_pairs == old(self).common_pairs,
            final(self).biased_fitness as int == old(self).rank_feasibility * pop_size + (if n_elite
                < pop_size {
                pop_size - n_elite
            } else {
                0int
            }) * old(self).rank_diversity,
    {
        let weight: u64 = if n_elite < pop_size {
            (pop_size - n_elite) as u64
        } else {
            0
        };
        let rf = self.rank_feasibility;
        let rd = self.rank_diversity;
        proof {
            assert((rf as int) * (pop_size as int) <= 1_000_000_000_000_000_000) by (nonlinear_arith)
                requires
                    0 <= rf < pop_size,
                    0 < pop_size <= 1_000_000_000,
            ;
            assert(0 <= (weight as int) * (rd as int) <= 1_000_000_000_000_000_000) by (nonlinear_arith)
                requires
                    0 <= weight <= pop_size,
                    0 <= rd < pop_size,
                    0 < pop_size <= 1_000_000_000,
            ;
        }
        self.biased_fitness = (self.rank_feasibility as u64) * (pop_size as u64) + weight * (self.rank_diversity
            as u64);
    }

    /// The sum of this individual's `closest_count` largest common-pair
    /// counts.  Within one subpopulation every member has the same number
    /// of entries, so ordering by this sum orders by the mean the
    /// diversity measure is defined as.
    pub fn calculate_diversity_contribution(&self, closest_count: usize) -> (r: u64)
        requires
            self.common_pairs@.len() <= 1_000_000,
            forall|q: int| 0 <= q < self.common_pairs@.len() ==> #[trigger] self.common_pairs@[q] <= 1_000_000_000,
        ensures
            exists|sorted: Seq<usize>|
                {
                    &&& #[trigger] sorted.to_multiset() == self.common_pairs@.to_multiset()
                    &&& descending(sorted)
                    &&& r as int == prefix_sum(
                        sorted,
                        if closest_count <= sorted.len() {
                            closest_count as int
                        } else {
                            sorted.len() as int
                        },
                    )
                },
    {
        broadcast use vstd::seq_lib::group_to_multiset_ensures;

        let ghost orig = self.common_pairs@;
        let mut arr = crate::local_search::utils::clone_indices(&self.common_pairs);
        let len = arr.len();
        // Insertion sort, descending.
        let mut a: usize = 1;
        while a < len
            invariant
                1 <= a <= len || len == 0,
                len == arr@.len(),
                arr@.to_multiset() == orig.to_multiset(),
                forall|x: int, y: int| 0 <= x <= y < a ==> arr@[x] >= arr@[y],
            decreases len - a,
        {
            let mut b: usize = a;
            while b > 0 && arr[b - 1] < arr[b]
                invariant
                    b <= a < len,
                    len == arr@.len(),
                    arr@.to_multiset() == orig.to_multiset(),
                    forall|x: int, y: int| 0 <= x <= y <= a && y != b ==> arr@[x] >= arr@[y],
                decreases b,
            {
                let x = arr[b - 1];
                let y = arr[b];
                let ghost s = arr@;
                *vstd::std_specs::vec::vec_index_mut(&mut arr, b - 1) = y;
                *vstd::std_specs::vec::vec_index_mut(&mut arr, b) = x;
                proof {
                    broadcast use vstd::seq_lib::to_multiset_update;

                    let s1 = s.update(b - 1, y);
                    s.to_multiset_ensures();
                    assert(s.contains(x) && s.contains(y));
                    assert(s.to_multiset().count(x) > 0 && s.to_multiset().count(y) > 0);
                    assert(s1[b as int] == y);
                    assert(arr@ == s1.update(b as int, x));
                    assert(arr@.to_multiset() =~= s.to_multiset());
                }
                b -= 1;
            }
            a += 1;
        }
        proof {
            orig.to_multiset_ensures();
            arr@.to_multiset_ensures();
            assert forall|q: int| 0 <= q < arr@.len() implies arr@[q] <= 1_000_000_000 by {
                assert(arr@.contains(arr@[q]));
                assert(arr@.to_multiset().count(arr@[q]) > 0);
                assert(orig.to_multiset().count(arr@[q]) > 0);
                assert(orig.contains(arr@[q]));
            }
        }
        let count = if closest_count <= len {
            closest_count
        } else {
            len
        };
        let mut sum: u64 = 0;
        let mut k: usize = 0;
        while k < count
            invariant
                k <= count <= len,
                len == arr@.len() <= 1_000_000,
                forall|q: int| 0 <= q < arr@.len() ==> #[trigger] arr@[q] <= 1_000_000_000,
                sum as int == prefix_sum(arr@, k as int),
                sum <= k * 1_000_000_000,
            decreases count - k,
        {
            proof {
                assert(k * 1_000_000_000 + 1_000_000_000 == (k + 1) * 1_000_000_000) by (nonlinear_arith);
                assert((k + 1) * 1_000_000_000 <= 1_000_000_000_000_000_000) by (nonlinear_arith)
                    requires k + 1 <= 1_000_000;
            }
            sum = sum + (arr[k] as u64);
            k += 1;
        }
        proof {
            assert(descending(arr@));
        }
        sum
    }

    /// Whether two individuals carry exactly the same giant tour.
    pub fn is_clone_of(&self, other: &Individual) -> (r: bool)
        ensures
            r == (self.solution.giant_tour@ == other.solution.giant_tour@),
    {
        let n = self.solution.giant_tour.len();
        if n != other.solution.giant_tour.len() {
            proof {
                assert(self.solution.giant_tour@ != other.solution.giant_tour@);
            }
            return false;
        }
        let mut i: usize = 0;
        while i < n
            invariant
                i <= n,
                n == self.solution.giant_tour@.len(),
                n == other.solution.giant_tour@.len(),
                forall|q: int|
                    0 <= q < i ==> #[trigger] self.solution.giant_tour@[q] == other.solution.giant_tour@[q],
            decreases n - i,
        {
            if self.solution.giant_tour[i] != other.solution.giant_tour[i] {
                proof {
                    assert(self.solution.giant_tour@[i as int] != other.solution.giant_tour@[i as int]);
                }
                return false;
            }
            i += 1;
        }
        proof {
            assert(self.solution.giant_tour@ =~= other.solution.giant_tour@);
        }
        true
    }

    /// Count the positions where both giant tours carry the same
    /// consecutive ordered pair of customers.
    pub fn calculate_common_pairs(&self, other: &Individual) -> (r: usize)
        ensures
            ({
                let a = self.solution.giant_tour@;
                let b = other.solution.giant_tour@;
                let upto = if a.len() <= b.len() {
                    a.len() as int - 1
                } else {
                    b.len() as int - 1
                };
                r as int == common_pairs_spec(a, b, if upto >= 0 {
                    upto
                } else {
                    0
                })
            }),
    {
        let a_len = self.solution.giant_tour.len();
        let b_len = other.solution.giant_tour.len();
        let upto = if a_len <= b_len {
            a_len
        } else {
            b_len
        };
        if upto == 0 {
            return 0;
        }
        let mut count: usize = 0;
        let mut k: usize = 0;
        while k < upto - 1
            invariant
                upto >= 1,
                upto <= self.solution.giant_tour@.len(),
                upto <= other.solution.giant_tour@.len(),
                k <= upto - 1,
                count <= k,
                count as int == common_pairs_spec(self.solution.giant_tour@, other.solution.giant_tour@, k as int),
            decreases upto - 1 - k,
        {
            let same = self.solution.giant_tour[k] == other.solution.giant_tour[k]
                && self.solution.giant_tour[k + 1] == other.solution.giant_tour[k + 1];
            if same {
                count += 1;
            }
            k += 1;
        }
        count
    }

    /// The solution's penalised cost.
    pub fn get_cost(&self) -> (r: u128)
        ensures
            r == self.solution.cost,
    {
        self.solution.cost
    }

    /// The solution's plain distance when feasible; nothing otherwise.
    pub fn get_feasible_cost(&self) -> (r: Option<u64>)
        ensures
            self.solution.is_feasible ==> r == Some(self.solution.distance),
            !self.solution.is_feasible ==> r == None::<u64>,
    {
        self.solution.get_feasible_cost()
    }

    /// Whether the solution is feasible.
    pub fn is_feasible(&self) -> (r: bool)
        ensures
            r == self.solution.is_feasible,
    {
        self.solution.is_feasible
    }
}

} // verus!
