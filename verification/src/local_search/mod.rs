//! Local search: five neighbourhoods with move memoisation and
//! granularity-limited candidate lists.

pub mod relocate;
pub mod swap;
pub mod swap_star;
pub mod two_opt;
pub mod two_opt_star;
pub mod utils;

use vstd::prelude::*;
use crate::problem::Problem;
use crate::rng::shuffle;
use crate::solution::{
    concat_routes, cust_ok, excess_of, lemma_routes_same_customers, sol_dist, sol_excess, Solution,
};
use crate::MAX_NODES;
use self::utils::{get_neighbors, RouteInfo};

verus! {

/// Manages the local-search phase: move memoisation, polar sectors for
/// SWAP*, and the precomputed neighbour lists.
pub struct LocalSearch {
    pub granularity: usize,
    /// Per-route timestamp of the last modification.
    pub route_timestamps: Vec<u64>,
    /// Per-(customer, move kind, target route) timestamp of the last test.
    pub move_timestamps: vstd::hash_map::HashMapWithView<u64, u64>,
    /// The running timestamp counter.
    pub move_count: u64,
    /// Polar sectors of the routes, for SWAP* pruning.
    pub route_sectors: Vec<RouteInfo>,
    /// Neighbour list per node index; empty for the depot.
    pub customer_neighbors: Vec<Vec<usize>>,
}

/// The memo key of one (customer, move kind, target route) triple.
pub open spec fn move_key(customer: int, move_type: int, route_idx: int) -> int {
    (customer * 8 + move_type) * 0x1_0000_0000 + route_idx
}

/// Distinct triples get distinct memo keys within the supported bounds.
pub proof fn lemma_move_key_injective(c1: int, t1: int, r1: int, c2: int, t2: int, r2: int)
    requires
        0 <= c1 <= MAX_NODES,
        0 <= c2 <= MAX_NODES,
        0 <= t1 < 8,
        0 <= t2 < 8,
        0 <= r1 < 0x1_0000_0000,
        0 <= r2 < 0x1_0000_0000,
        move_key(c1, t1, r1) == move_key(c2, t2, r2),
    ensures
        c1 == c2 && t1 == t2 && r1 == r2,
{
    assert((c1 * 8 + t1) * 0x1_0000_0000 + r1 == (c2 * 8 + t2) * 0x1_0000_0000 + r2);
    assert(c1 * 8 + t1 == c2 * 8 + t2 && r1 == r2) by (nonlinear_arith)
        requires
            (c1 * 8 + t1) * 0x1_0000_0000 + r1 == (c2 * 8 + t2) * 0x1_0000_0000 + r2,
            0 <= r1 < 0x1_0000_0000,
            0 <= r2 < 0x1_0000_0000,
            0 <= c1 * 8 + t1,
            0 <= c2 * 8 + t2,
    ;
    assert(c1 == c2 && t1 == t2) by (nonlinear_arith)
        requires
            c1 * 8 + t1 == c2 * 8 + t2,
            0 <= t1 < 8,
            0 <= t2 < 8,
    ;
}

/// The memo blocks this move: it was stamped after the target route was
/// last touched.
pub open spec fn move_blocked(ls: &LocalSearch, customer: int, move_type: int, route_idx: int) -> bool {
    &&& ls.move_timestamps@.contains_key(move_key(customer, move_type, route_idx) as u64)
    &&& ls.move_timestamps@[move_key(customer, move_type, route_idx) as u64]
        > ls.route_timestamps@[route_idx]
}

impl LocalSearch {
    /// The neighbour lists cover the instance: one list per node, holding
    /// only customers other than the node itself.
    pub open spec fn neighbors_ready(&self, p: &Problem) -> bool {
        &&& self.customer_neighbors@.len() == p.n()
        &&& forall|c: int, q: int|
            0 <= c < p.n() && 0 <= q < (#[trigger] self.customer_neighbors@[c])@.len() ==> {
                &&& cust_ok(p, #[trigger] self.customer_neighbors@[c]@[q])
                &&& self.customer_neighbors@[c]@[q] != c
            }
    }

    /// Neighbour lists are either not built yet or built for this instance.
    pub open spec fn neighbors_ok(&self, p: &Problem) -> bool {
        self.customer_neighbors@.len() == 0 || self.neighbors_ready(p)
    }

    /// Number of route timestamp slots.
    pub open spec fn n_tracked_routes(&self) -> int {
        self.route_timestamps@.len() as int
    }

    /// Create a new local-search instance.
    pub fn new(granularity: usize) -> (r: LocalSearch)
        ensures
            r.granularity == granularity,
            r.customer_neighbors@.len() == 0,
            r.n_tracked_routes() == 0,
    {
        broadcast use vstd::std_specs::hash::group_hash_axioms;

        LocalSearch {
            granularity,
            route_timestamps: Vec::new(),
            move_timestamps: vstd::hash_map::HashMapWithView::new(),
            move_count: 0,
            route_sectors: Vec::new(),
            customer_neighbors: Vec::new(),
        }
    }

    /// Reset the per-run tracking state for a solution.
    fn initialize_tracking(&mut self, solution: &Solution)
        ensures
            final(self).granularity == old(self).granularity,
            final(self).customer_neighbors == old(self).customer_neighbors,
            final(self).n_tracked_routes() == solution.routes@.len(),
    {
        self.route_timestamps = vec![0u64; solution.routes.len()];
        self.move_count = 0;
        self.move_timestamps.clear();
        self.route_sectors.clear();
    }

    /// Advance the clock and stamp a route as just modified.
    pub fn update_route_timestamp(&mut self, route_idx: usize)
        requires
            (route_idx as int) < old(self).n_tracked_routes(),
        ensures
            final(self).granularity == old(self).granularity,
            final(self).customer_neighbors == old(self).customer_neighbors,
            final(self).route_sectors == old(self).route_sectors,
            final(self).n_tracked_routes() == old(self).n_tracked_routes(),
            final(self).move_timestamps == old(self).move_timestamps,
            final(self).move_count >= old(self).move_count,
            final(self).route_timestamps@ == old(self).route_timestamps@.update(
                route_idx as int,
                final(self).move_count,
            ),
    {
        if self.move_count < 0xffff_ffff_ffff_ffff {
            self.move_count = self.move_count + 1;
        }
        *vstd::std_specs::vec::vec_index_mut(&mut self.route_timestamps, route_idx) = self.move_count;
    }

    /// Whether this move still has to be tested: true unless it was tested
    /// after the target route last changed.  Testing stamps the move.
    pub fn is_move_valid(&mut self, customer: usize, move_type: usize, route_idx: usize) -> (r: bool)
        requires
            (route_idx as int) < old(self).n_tracked_routes(),
            customer <= MAX_NODES,
            move_type < 8,
            old(self).n_tracked_routes() <= MAX_NODES,
        ensures
            final(self).granularity == old(self).granularity,
            final(self).customer_neighbors == old(self).customer_neighbors,
            final(self).route_sectors == old(self).route_sectors,
            final(self).route_timestamps == old(self).route_timestamps,
            final(self).n_tracked_routes() == old(self).n_tracked_routes(),
            r == !move_blocked(old(self), customer as int, move_type as int, route_idx as int),
            r ==> final(self).move_timestamps@ == old(self).move_timestamps@.insert(
                move_key(customer as int, move_type as int, route_idx as int) as u64,
                final(self).move_count,
            ),
            r ==> final(self).move_count >= old(self).move_count,
            !r ==> final(self).move_timestamps == old(self).move_timestamps,
            !r ==> final(self).move_count == old(self).move_count,
    {
        let key: u64 = ((customer as u64) * 8 + (move_type as u64)) * 0x1_0000_0000 + (route_idx as u64);
        proof {
            assert(key as int == move_key(customer as int, move_type as int, route_idx as int));
        }
        let route_ts = self.route_timestamps[route_idx];
        match self.move_timestamps.get(&key) {
            Some(move_ts) => {
                if *move_ts > route_ts {
                    return false;
                }
            },
            None => {},
        }
        if self.move_count < 0xffff_ffff_ffff_ffff {
            self.move_count = self.move_count + 1;
        }
        self.move_timestamps.insert(key, self.move_count);
        true
    }

    /// Build the neighbour list of every customer once per instance.
    pub fn preprocess_neighbors(&mut self, problem: &Problem)
        requires
            problem.wf(),
        ensures
            final(self).neighbors_ready(problem),
            final(self).granularity == old(self).granularity,
            final(self).route_timestamps == old(self).route_timestamps,
            final(self).n_tracked_routes() == old(self).n_tracked_routes(),
    {
        self.customer_neighbors = Vec::new();
        let n = problem.nodes.len();
        let mut c: usize = 0;
        while c < n
            invariant
                c <= n,
                n == problem.n(),
                problem.wf(),
                self.customer_neighbors@.len() == c,
                self.granularity == old(self).granularity,
                self.route_timestamps == old(self).route_timestamps,
                forall|c2: int, q: int|
                    0 <= c2 < c && 0 <= q < (#[trigger] self.customer_neighbors@[c2])@.len() ==> {
                        &&& cust_ok(problem, #[trigger] self.customer_neighbors@[c2]@[q])
                        &&& self.customer_neighbors@[c2]@[q] != c2
                    },
            decreases n - c,
        {
            if c != problem.depot_index {
                let list = get_neighbors(c, problem, self.granularity);
                self.customer_neighbors.push(list);
            } else {
                self.customer_neighbors.push(Vec::new());
            }
            c += 1;
        }
    }

    /// Improve the solution under the given penalty until no neighbourhood
    /// finds an improving move.  The customers keep exactly their multiset:
    /// moves only rearrange them over the routes, and every accepted move
    /// strictly lowers the penalised cost, so the final cost is at most
    /// the entry solution's own evaluated cost.
    pub fn educate(&mut self, solution: &mut Solution, problem: &Problem, capacity_penalty: u64)
        requires
            problem.wf(),
            old(solution).wf(problem),
            old(solution).caches_ok(problem),
            concat_routes(old(solution).routes@).no_duplicates(),
            old(self).neighbors_ok(problem),
        ensures
            final(self).neighbors_ready(problem),
            final(self).n_tracked_routes() == final(solution).routes@.len(),
            final(self).granularity == old(self).granularity,
            final(solution).routes@.len() == old(solution).routes@.len(),
            final(solution).giant_tour == old(solution).giant_tour,
            final(solution).wf(problem),
            final(solution).evaluated(problem, capacity_penalty),
            final(solution).cost as int <= crate::solution::cost_of(
                sol_dist(problem, old(solution).routes@),
                sol_excess(problem, old(solution).routes@),
                capacity_penalty,
            ),
            concat_routes(final(solution).routes@).to_multiset() == concat_routes(
                old(solution).routes@,
            ).to_multiset(),
    {
        self.initialize_tracking(solution);
        if self.customer_neighbors.len() == 0 {
            self.preprocess_neighbors(problem);
        }
        let ghost orig_routes = old(solution).routes@;
        solution.evaluate(problem, capacity_penalty);
        proof {
            lemma_routes_same_customers(problem, solution.routes@, orig_routes);
            assert(solution.cost as int == crate::solution::cost_of(
                sol_dist(problem, orig_routes),
                sol_excess(problem, orig_routes),
                capacity_penalty,
            ));
            crate::solution::lemma_nodup_from_ms(
                concat_routes(solution.routes@),
                concat_routes(orig_routes),
            );
        }
        let mut improvement = true;
        // Termination: every accepted move strictly lowers the integer
        // cost, and a pass without an accepted move ends the loop.
        while improvement
            invariant
                problem.wf(),
                self.neighbors_ready(problem),
                self.granularity == old(self).granularity,
                self.n_tracked_routes() == solution.routes@.len(),
                solution.routes@.len() == orig_routes.len(),
                solution.giant_tour == old(solution).giant_tour,
                solution.wf(problem),
                solution.evaluated(problem, capacity_penalty),
                solution.cost as int <= crate::solution::cost_of(
                    sol_dist(problem, orig_routes),
                    sol_excess(problem, orig_routes),
                    capacity_penalty,
                ),
                concat_routes(orig_routes).no_duplicates(),
                concat_routes(solution.routes@).no_duplicates(),
                concat_routes(solution.routes@).to_multiset() == concat_routes(orig_routes).to_multiset(),
            decreases solution.cost, (if improvement {
                1int
            } else {
                0int
            }),
        {
            improvement = false;
            let i1 = self.relocate_neighborhood(solution, problem, capacity_penalty);
            improvement = improvement || i1;
            proof {
                crate::solution::lemma_nodup_from_ms(
                    concat_routes(solution.routes@),
                    concat_routes(orig_routes),
                );
            }
            let i2 = self.swap_neighborhood(solution, problem, capacity_penalty);
            improvement = improvement || i2;
            proof {
                crate::solution::lemma_nodup_from_ms(
                    concat_routes(solution.routes@),
                    concat_routes(orig_routes),
                );
            }
            let i3 = self.two_opt_neighborhood(solution, problem, capacity_penalty);
            improvement = improvement || i3;
            let i4 = self.two_opt_star_neighborhood(solution, problem, capacity_penalty);
            improvement = improvement || i4;
            proof {
                crate::solution::lemma_nodup_from_ms(
                    concat_routes(solution.routes@),
                    concat_routes(orig_routes),
                );
            }
            let i5 = self.swap_star_neighborhood(solution, problem, capacity_penalty);
            improvement = improvement || i5;
            proof {
                crate::solution::lemma_nodup_from_ms(
                    concat_routes(solution.routes@),
                    concat_routes(orig_routes),
                );
            }
        }
    }

    /// Push an infeasible solution toward feasibility: rerun the search
    /// under a sharply inflated penalty.
    pub fn repair(&mut self, solution: &mut Solution, problem: &Problem)
        requires
            problem.wf(),
            old(solution).wf(problem),
            old(solution).caches_ok(problem),
            concat_routes(old(solution).routes@).no_duplicates(),
            old(self).neighbors_ok(problem),
        ensures
            final(self).neighbors_ready(problem),
            final(solution).routes@.len() == old(solution).routes@.len(),
            final(solution).giant_tour == old(solution).giant_tour,
            final(solution).wf(problem),
            final(solution).evaluated(
                problem,
                repair_penalty(old(solution).excess_capacity, old(solution).cost),
            ),
            final(solution).cost as int <= crate::solution::cost_of(
                sol_dist(problem, old(solution).routes@),
                sol_excess(problem, old(solution).routes@),
                repair_penalty(old(solution).excess_capacity, old(solution).cost),
            ),
            concat_routes(final(solution).routes@).to_multiset() == concat_routes(
                old(solution).routes@,
            ).to_multiset(),
    {
        let high_penalty: u64 = if solution.excess_capacity > 0 {
            let quotient: u128 = solution.cost / (solution.excess_capacity as u128);
            if quotient > 0x1999_9999_9999_9999 {
                0xffff_ffff_ffff_ffff
            } else {
                (quotient as u64) * 10
            }
        } else {
            1_000_000
        };
        self.educate(solution, problem, high_penalty);
    }
}

/// The penalty `repair` uses: ten times the cost per unit of excess,
/// saturated to the penalty's range, or a large default when there is no
/// excess to price.
pub open spec fn repair_penalty(excess: u64, cost: u128) -> u64 {
    if excess > 0 {
        let quotient = cost / (excess as u128);
        if quotient > 0x1999_9999_9999_9999 {
            0xffff_ffff_ffff_ffff
        } else {
            (quotient * 10) as u64
        }
    } else {
        1_000_000
    }
}

/// The penalised-cost change from a route's load moving between two
/// values, as an exact signed quantity.
pub fn penalty_delta(capacity_penalty: u64, old_load: u64, new_load: u64, capacity: u64) -> (r: i128)
    requires
        old_load <= 200_000_000_000_000,
        new_load <= 200_000_000_000_000,
    ensures
        r == capacity_penalty * excess_of(new_load as int, capacity as int) - capacity_penalty * excess_of(
            old_load as int,
            capacity as int,
        ),
        -4_000_000_000_000_000_000_000_000_000_000_000 <= r <= 4_000_000_000_000_000_000_000_000_000_000_000,
{
    let e_old: u64 = if old_load > capacity {
        old_load - capacity
    } else {
        0
    };
    let e_new: u64 = if new_load > capacity {
        new_load - capacity
    } else {
        0
    };
    proof {
        assert(0 <= (capacity_penalty as int) * (e_new as int) <= 4_000_000_000_000_000_000_000_000_000_000_000)
            by (nonlinear_arith)
            requires 0 <= capacity_penalty < 0x1_0000_0000_0000_0000, 0 <= e_new <= 200_000_000_000_000;
        assert(0 <= (capacity_penalty as int) * (e_old as int) <= 4_000_000_000_000_000_000_000_000_000_000_000)
            by (nonlinear_arith)
            requires 0 <= capacity_penalty < 0x1_0000_0000_0000_0000, 0 <= e_old <= 200_000_000_000_000;
    }
    (capacity_penalty as i128) * (e_new as i128) - (capacity_penalty as i128) * (e_old as i128)
}

/// A shuffled permutation of the indices `0 .. n`: every index below `n`
/// appears exactly once, in an order the generator decides.
pub fn shuffled_indices(n: usize) -> (r: Vec<usize>)
    ensures
        r@.len() == n,
        forall|q: int| 0 <= q < n ==> (#[trigger] r@[q] as int) < n,
        r@.no_duplicates(),
        forall|v: usize| (v as int) < n ==> r@.contains(v),
{
    broadcast use vstd::seq_lib::group_to_multiset_ensures;

    let mut base: Vec<usize> = Vec::new();
    let mut i: usize = 0;
    while i < n
        invariant
            i <= n,
            base@.len() == i,
            forall|q: int| 0 <= q < i ==> (#[trigger] base@[q] as int) == q,
        decreases n - i,
    {
        base.push(i);
        i += 1;
    }
    let ghost before = base@;
    proof {
        assert(before.no_duplicates());
        assert(forall|v: usize| (v as int) < n ==> #[trigger] before[v as int] == v && before.contains(v));
    }
    shuffle(&mut base);
    proof {
        before.to_multiset_ensures();
        base@.to_multiset_ensures();
        assert forall|q: int| 0 <= q < base@.len() implies (base@[q] as int) < n by {
            assert(base@.contains(base@[q]));
            assert(base@.to_multiset().count(base@[q]) > 0);
            assert(before.to_multiset().count(base@[q]) > 0);
            assert(before.contains(base@[q]));
        }
        before.lemma_multiset_has_no_duplicates();
        base@.lemma_multiset_has_no_duplicates_conv();
        assert forall|v: usize| (v as int) < n implies base@.contains(v) by {
            assert(before[v as int] == v);
            assert(before.contains(v));
            assert(before.to_multiset().count(v) > 0);
            assert(base@.to_multiset().count(v) > 0);
        }
    }
    base
}

} // verus!
