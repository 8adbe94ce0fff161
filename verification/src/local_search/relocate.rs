//! Relocate: move one customer to its best position in a nearby route.

use vstd::prelude::*;
use crate::problem::Problem;
use crate::solution::{
    concat_routes, cust_ok, excess_of, lemma_load_of_bound, lemma_load_of_insert,
    lemma_load_of_remove, lemma_route_dist_bound, lemma_route_len_le_concat,
    lemma_routes_same_customers, lemma_sol_sums_update, lemma_two_route_exchange,
    lemma_two_routes_len_le_concat, load_of, route_dist, sol_dist, sol_excess, valid_customers,
    Route, Solution,
};
use crate::PENALTY_UNIT;
use crate::MAX_NODES;
use super::utils::{calculate_insertion_cost, calculate_removal_cost, find_route_for_customer};
use super::{move_blocked, penalty_delta, shuffled_indices, LocalSearch};

verus! {

/// One Relocate candidate of the sweep: the anchor at `c_pos` of route
/// `r1` has the neighbour-list entry `k`, and `r2` is the first route
/// serving that neighbour, different from the anchor's own.
pub open spec fn relocate_candidate(
    entry: &LocalSearch,
    sol: &Solution,
    r1: int,
    c_pos: int,
    k: int,
    r2: int,
) -> bool {
    let c1 = sol.routes@[r1].customers@[c_pos];
    let nb = entry.customer_neighbors@[c1 as int]@[k];
    &&& 0 <= r1 < sol.routes@.len()
    &&& 0 <= c_pos < sol.routes@[r1].customers@.len()
    &&& 0 <= k < entry.customer_neighbors@[c1 as int]@.len()
    &&& 0 <= r2 < sol.routes@.len()
    &&& r2 != r1
    &&& sol.routes@[r2].customers@.contains(nb)
    &&& forall|q: int| 0 <= q < r2 ==> !(#[trigger] sol.routes@[q]).customers@.contains(nb)
}

/// The Relocate candidates from `c_pos` of `r1` into `r2` are accounted
/// for: memo-blocked at entry, or some insertion of the anchor into `r2`
/// was measured and found non-improving.
pub open spec fn relocate_done(
    entry: &LocalSearch,
    sol: &Solution,
    p: &Problem,
    capacity_penalty: u64,
    r1: int,
    c_pos: int,
    r2: int,
) -> bool {
    ||| move_blocked(entry, sol.routes@[r1].customers@[c_pos] as int, 0, r2)
    ||| exists|ins: int|
        0 <= ins <= sol.routes@[r2].customers@.len() && #[trigger] relocate_delta(
            sol,
            p,
            r1,
            r2,
            c_pos,
            ins,
            capacity_penalty,
        ) >= 0
}

/// Every Relocate candidate of a sweep is accounted for, so a sweep that
/// reports no improvement owes this of every anchor and neighbour.
pub open spec fn relocate_no_gain(
    entry: &LocalSearch,
    sol: &Solution,
    p: &Problem,
    capacity_penalty: u64,
) -> bool {
    forall|r1: int, c_pos: int, k: int, r2: int|
        #[trigger] relocate_candidate(entry, sol, r1, c_pos, k, r2) ==> relocate_done(
            entry,
            sol,
            p,
            capacity_penalty,
            r1,
            c_pos,
            r2,
        )
}

/// Neighbour entry `k` of the anchor at `c_pos` of `r1` is accounted for.
pub open spec fn relocate_k_done(
    entry: &LocalSearch,
    sol: &Solution,
    p: &Problem,
    capacity_penalty: u64,
    r1: int,
    c_pos: int,
    k: int,
) -> bool {
    forall|r2: int|
        #[trigger] relocate_candidate(entry, sol, r1, c_pos, k, r2) ==> relocate_done(
            entry,
            sol,
            p,
            capacity_penalty,
            r1,
            c_pos,
            r2,
        )
}

/// Every neighbour entry of the anchor at `c_pos` of `r1` is accounted
/// for.
pub open spec fn relocate_pos_done(
    entry: &LocalSearch,
    sol: &Solution,
    p: &Problem,
    capacity_penalty: u64,
    r1: int,
    c_pos: int,
) -> bool {
    forall|k: int|
        0 <= k < entry.customer_neighbors@[sol.routes@[r1].customers@[c_pos] as int]@.len()
            ==> #[trigger] relocate_k_done(entry, sol, p, capacity_penalty, r1, c_pos, k)
}

/// What the sweep's memo stamps mean for Relocate: any anchor/target pair
/// the memo now blocks was blocked at entry or has been measured this
/// sweep.
pub open spec fn memo_inv_relocate(
    entry: &LocalSearch,
    now: &LocalSearch,
    sol: &Solution,
    p: &Problem,
    capacity_penalty: u64,
) -> bool {
    forall|r1: int, c_pos: int, r2: int|
        #![trigger move_blocked(now, sol.routes@[r1].customers@[c_pos] as int, 0, r2)]
        0 <= r1 < sol.routes@.len() && 0 <= c_pos < sol.routes@[r1].customers@.len() && 0 <= r2
            < sol.routes@.len() && r2 != r1 && move_blocked(
            now,
            sol.routes@[r1].customers@[c_pos] as int,
            0,
            r2,
        ) ==> relocate_done(entry, sol, p, capacity_penalty, r1, c_pos, r2)
}

impl LocalSearch {
    /// Try every Relocate move in granular-neighbour order and apply the
    /// first improving one; report whether one was applied.  The customers
    /// keep exactly their multiset.
    pub fn relocate_neighborhood(
        &mut self,
        solution: &mut Solution,
        problem: &Problem,
        capacity_penalty: u64,
    ) -> (improved: bool)
        requires
            problem.wf(),
            old(solution).wf(problem),
            old(solution).evaluated(problem, capacity_penalty),
            concat_routes(old(solution).routes@).no_duplicates(),
            old(self).neighbors_ready(problem),
            old(self).n_tracked_routes() == old(solution).routes@.len(),
        ensures
            final(self).neighbors_ready(problem),
            final(self).granularity == old(self).granularity,
            final(self).n_tracked_routes() == final(solution).routes@.len(),
            final(solution).routes@.len() == old(solution).routes@.len(),
            final(solution).giant_tour == old(solution).giant_tour,
            final(solution).wf(problem),
            final(solution).evaluated(problem, capacity_penalty),
            concat_routes(final(solution).routes@).to_multiset() == concat_routes(
                old(solution).routes@,
            ).to_multiset(),
            concat_routes(final(solution).routes@).no_duplicates(),
            improved ==> final(solution).cost < old(solution).cost,
            !improved ==> *final(solution) == *old(solution),
            !improved ==> relocate_no_gain(old(self), old(solution), problem, capacity_penalty),
    {
        proof {
            crate::solution::lemma_concat_nodup(old(solution).routes@);
        }
        let nroutes = solution.routes.len();
        let route_indices = shuffled_indices(nroutes);
        let mut rp: usize = 0;
        while rp < nroutes
            invariant
                problem.wf(),
                *solution == *old(solution),
                solution.wf(problem),
                solution.evaluated(problem, capacity_penalty),
                self.neighbors_ready(problem),
                self.granularity == old(self).granularity,
                self.route_timestamps == old(self).route_timestamps,
                self.customer_neighbors == old(self).customer_neighbors,
                self.n_tracked_routes() == solution.routes@.len(),
                nroutes == solution.routes@.len(),
                concat_routes(solution.routes@).no_duplicates(),
                route_indices@.len() == nroutes,
                forall|q: int| 0 <= q < nroutes ==> (#[trigger] route_indices@[q] as int) < nroutes,
                route_indices@.no_duplicates(),
                forall|v: usize| (v as int) < nroutes ==> route_indices@.contains(v),
                rp <= nroutes,
                memo_inv_relocate(old(self), self, solution, problem, capacity_penalty),
                forall|a: int, c_pos: int|
                    0 <= a < rp && 0 <= c_pos
                        < solution.routes@[route_indices@[a] as int].customers@.len()
                        ==> #[trigger] relocate_pos_done(
                        old(self),
                        solution,
                        problem,
                        capacity_penalty,
                        route_indices@[a] as int,
                        c_pos,
                    ),
            decreases nroutes - rp,
        {
            let r1_idx = route_indices[rp];
            let n1 = solution.routes[r1_idx].customers.len();
            if n1 > 0 {
                let customer_indices = shuffled_indices(n1);
                let mut cp: usize = 0;
                while cp < n1
                    invariant
                        problem.wf(),
                        *solution == *old(solution),
                        solution.wf(problem),
                        solution.evaluated(problem, capacity_penalty),
                        self.neighbors_ready(problem),
                        self.granularity == old(self).granularity,
                        self.route_timestamps == old(self).route_timestamps,
                        self.customer_neighbors == old(self).customer_neighbors,
                        self.n_tracked_routes() == solution.routes@.len(),
                        nroutes == solution.routes@.len(),
                        concat_routes(solution.routes@).no_duplicates(),
                        (r1_idx as int) < nroutes,
                        n1 == solution.routes@[r1_idx as int].customers@.len(),
                        customer_indices@.len() == n1,
                        forall|q: int| 0 <= q < n1 ==> (#[trigger] customer_indices@[q] as int) < n1,
                        customer_indices@.no_duplicates(),
                        forall|v: usize| (v as int) < n1 ==> customer_indices@.contains(v),
                        cp <= n1,
                        memo_inv_relocate(old(self), self, solution, problem, capacity_penalty),
                        forall|b: int|
                            0 <= b < cp ==> #[trigger] relocate_pos_done(
                                old(self),
                                solution,
                                problem,
                                capacity_penalty,
                                r1_idx as int,
                                customer_indices@[b] as int,
                            ),
                    decreases n1 - cp,
                {
                    let c_pos = customer_indices[cp];
                    let customer = solution.routes[r1_idx].customers[c_pos];
                    proof {
                        assert(solution.routes@[r1_idx as int].wf(problem));
                        assert(cust_ok(problem, solution.routes@[r1_idx as int].customers@[c_pos as int]));
                    }
                    let neighbors = super::utils::clone_indices(&self.customer_neighbors[customer]);
                    let mut np: usize = 0;
                    while np < neighbors.len()
                        invariant
                            problem.wf(),
                            *solution == *old(solution),
                            solution.wf(problem),
                            solution.evaluated(problem, capacity_penalty),
                            self.neighbors_ready(problem),
                            self.granularity == old(self).granularity,
                            self.route_timestamps == old(self).route_timestamps,
                            self.customer_neighbors == old(self).customer_neighbors,
                            self.n_tracked_routes() == solution.routes@.len(),
                            nroutes == solution.routes@.len(),
                            concat_routes(solution.routes@).no_duplicates(),
                            (r1_idx as int) < nroutes,
                            n1 == solution.routes@[r1_idx as int].customers@.len(),
                            (c_pos as int) < n1,
                            customer == solution.routes@[r1_idx as int].customers@[c_pos as int],
                            neighbors@ == old(self).customer_neighbors@[customer as int]@,
                            np <= neighbors@.len(),
                            memo_inv_relocate(old(self), self, solution, problem, capacity_penalty),
                            forall|k: int|
                                0 <= k < np ==> #[trigger] relocate_k_done(
                                    old(self),
                                    solution,
                                    problem,
                                    capacity_penalty,
                                    r1_idx as int,
                                    c_pos as int,
                                    k,
                                ),
                        decreases neighbors@.len() - np,
                    {
                        let neighbor = neighbors[np];
                        let found = find_route_for_customer(solution, neighbor);
                        proof {
                            if found is None {
                                assert forall|r2: int|
                                    relocate_candidate(
                                        old(self),
                                        solution,
                                        r1_idx as int,
                                        c_pos as int,
                                        np as int,
                                        r2,
                                    ) implies relocate_done(
                                    old(self),
                                    solution,
                                    problem,
                                    capacity_penalty,
                                    r1_idx as int,
                                    c_pos as int,
                                    r2,
                                ) by {
                                    assert(solution.routes@[r2].customers@.contains(neighbor));
                                }
                            }
                        }
                        match found {
                            None => {},
                            Some(r2_idx) => {
                                proof {
                                    // The first route serving the neighbour is
                                    // unique, so it is the only candidate target.
                                    assert forall|r2: int|
                                        relocate_candidate(
                                            old(self),
                                            solution,
                                            r1_idx as int,
                                            c_pos as int,
                                            np as int,
                                            r2,
                                        ) implies r2 == r2_idx as int by {
                                        if r2 < r2_idx {
                                            assert(!solution.routes@[r2].customers@.contains(neighbor));
                                        } else if r2 > r2_idx {
                                            assert(!solution.routes@[r2_idx as int].customers@.contains(
                                                neighbor,
                                            ));
                                        }
                                    }
                                }
                                if r2_idx != r1_idx {
                                    let ghost pre_self = *self;
                                    let tested = self.is_move_valid(customer, 0, r2_idx);
                                    proof {
                                        if !tested {
                                            assert(move_blocked(
                                                &pre_self,
                                                customer as int,
                                                0,
                                                r2_idx as int,
                                            ));
                                            assert(relocate_done(
                                                old(self),
                                                solution,
                                                problem,
                                                capacity_penalty,
                                                r1_idx as int,
                                                c_pos as int,
                                                r2_idx as int,
                                            ));
                                        }
                                    }
                                    if tested {
                                    let (delta, insert_pos) = self.evaluate_relocate(
                                        solution,
                                        problem,
                                        r1_idx,
                                        r2_idx,
                                        c_pos,
                                        capacity_penalty,
                                    );
                                    proof {
                                        if delta >= 0 {
                                            assert(relocate_delta(
                                                solution,
                                                problem,
                                                r1_idx as int,
                                                r2_idx as int,
                                                c_pos as int,
                                                insert_pos as int,
                                                capacity_penalty,
                                            ) >= 0);
                                            assert(relocate_done(
                                                old(self),
                                                solution,
                                                problem,
                                                capacity_penalty,
                                                r1_idx as int,
                                                c_pos as int,
                                                r2_idx as int,
                                            ));
                                        }
                                        // The fresh stamp only blocks this
                                        // anchor/target pair.
                                        crate::solution::lemma_concat_nodup(solution.routes@);
                                        assert forall|ra: int, ca: int, rb: int|
                                            #![trigger move_blocked(self, solution.routes@[ra].customers@[ca] as int, 0, rb)]
                                            0 <= ra < solution.routes@.len() && 0 <= ca
                                                < solution.routes@[ra].customers@.len() && 0 <= rb
                                                < solution.routes@.len() && rb != ra && move_blocked(
                                                self,
                                                solution.routes@[ra].customers@[ca] as int,
                                                0,
                                                rb,
                                            ) && delta >= 0 implies relocate_done(
                                            old(self),
                                            solution,
                                            problem,
                                            capacity_penalty,
                                            ra,
                                            ca,
                                            rb,
                                        ) by {
                                            let cv = solution.routes@[ra].customers@[ca];
                                            if move_blocked(&pre_self, cv as int, 0, rb) {
                                                assert(relocate_done(
                                                    old(self),
                                                    solution,
                                                    problem,
                                                    capacity_penalty,
                                                    ra,
                                                    ca,
                                                    rb,
                                                ));
                                            } else {
                                                assert(cust_ok(problem, cv)) by {
                                                    assert(solution.routes@[ra].wf(problem));
                                                }
                                                super::lemma_move_key_injective(
                                                    cv as int,
                                                    0,
                                                    rb,
                                                    customer as int,
                                                    0,
                                                    r2_idx as int,
                                                );
                                                assert(cv == customer && rb == r2_idx);
                                                assert(ra == r1_idx && ca == c_pos) by {
                                                    if ra != r1_idx {
                                                        assert(solution.routes@[ra].customers@.contains(
                                                            cv,
                                                        ));
                                                        assert(solution.routes@[r1_idx as int].customers@.contains(
                                                            customer,
                                                        ));
                                                    } else {
                                                        assert(solution.routes@[r1_idx as int].customers@.no_duplicates());
                                                    }
                                                }
                                            }
                                        }
                                    }
                                    if delta < 0 {
                                        let ghost routes0 = solution.routes@;
                                        let ghost cost0 = solution.cost;
                                        Self::apply_relocate(solution, problem, r1_idx, r2_idx, c_pos, insert_pos);
                                        self.update_route_timestamp(r1_idx);
                                        self.update_route_timestamp(r2_idx);
                                        let ghost mid = solution.routes@;
                                        solution.evaluate(problem, capacity_penalty);
                                        proof {
                                            lemma_routes_same_customers(problem, solution.routes@, mid);
                                            lemma_relocate_cost_drop(
                                                problem,
                                                routes0,
                                                mid,
                                                r1_idx as int,
                                                r2_idx as int,
                                                c_pos as int,
                                                insert_pos as int,
                                            );
                                            let s1 = routes0[r1_idx as int].customers@;
                                            let s2 = routes0[r2_idx as int].customers@;
                                            let cap = problem.vehicle_capacity as int;
                                            let se0 = sol_excess(problem, routes0);
                                            let e1 = excess_of(load_of(problem, s1), cap);
                                            let e2 = excess_of(load_of(problem, s2), cap);
                                            let e1p = excess_of(
                                                load_of(problem, s1) - problem.demand(s1[c_pos as int] as int),
                                                cap,
                                            );
                                            let e2p = excess_of(
                                                load_of(problem, s2) + problem.demand(s1[c_pos as int] as int),
                                                cap,
                                            );
                                            let pen = capacity_penalty as int;
                                            assert(pen * (se0 + e1p - e1 + e2p - e2) == pen * se0 + pen * e1p
                                                - pen * e1 + pen * e2p - pen * e2) by (nonlinear_arith);
                                            assert(solution.cost as int == cost0 + delta);
                                            assert(solution.cost < cost0);
                                            broadcast use vstd::seq_lib::group_to_multiset_ensures;

                                            concat_routes(
                                                routes0,
                                            ).lemma_multiset_has_no_duplicates();
                                            concat_routes(
                                                solution.routes@,
                                            ).lemma_multiset_has_no_duplicates_conv();
                                        }
                                        return true;
                                    }
                                    }
                                }
                            },
                        }
                        proof {
                            assert(relocate_k_done(
                                old(self),
                                solution,
                                problem,
                                capacity_penalty,
                                r1_idx as int,
                                c_pos as int,
                                np as int,
                            ));
                        }
                        np += 1;
                    }
                    proof {
                        assert(relocate_pos_done(
                            old(self),
                            solution,
                            problem,
                            capacity_penalty,
                            r1_idx as int,
                            c_pos as int,
                        ));
                    }
                    cp += 1;
                }
                proof {
                    assert forall|c0: int| 0 <= c0 < n1 implies relocate_pos_done(
                        old(self),
                        solution,
                        problem,
                        capacity_penalty,
                        r1_idx as int,
                        c0,
                    ) by {
                        let v: usize = c0 as usize;
                        assert(customer_indices@.contains(v));
                        let b = choose|b: int|
                            0 <= b < customer_indices@.len() && customer_indices@[b] == v;
                        assert(relocate_pos_done(
                            old(self),
                            solution,
                            problem,
                            capacity_penalty,
                            r1_idx as int,
                            customer_indices@[b] as int,
                        ));
                    }
                }
            }
            rp += 1;
        }
        proof {
            assert forall|r1: int, c_pos: int, k: int, r2: int|
                relocate_candidate(old(self), solution, r1, c_pos, k, r2) implies relocate_done(
                old(self),
                solution,
                problem,
                capacity_penalty,
                r1,
                c_pos,
                r2,
            ) by {
                let v: usize = r1 as usize;
                assert(route_indices@.contains(v));
                let a = choose|a: int| 0 <= a < route_indices@.len() && route_indices@[a] == v;
                assert(relocate_pos_done(
                    old(self),
                    solution,
                    problem,
                    capacity_penalty,
                    route_indices@[a] as int,
                    c_pos,
                ));
                assert(relocate_k_done(old(self), solution, problem, capacity_penalty, r1, c_pos, k));
            }
            assert(relocate_no_gain(old(self), solution, problem, capacity_penalty));
            assert(*solution == *old(solution));
        }
        false
    }

    /// The exact penalised-cost change of relocating the customer at
    /// `c_pos` of route `r1_idx` into route `r2_idx`, at the best of its
    /// insertion positions; returns that delta and position.
    fn evaluate_relocate(
        &self,
        solution: &Solution,
        problem: &Problem,
        r1_idx: usize,
        r2_idx: usize,
        c_pos: usize,
        capacity_penalty: u64,
    ) -> (r: (i128, usize))
        requires
            problem.wf(),
            solution.wf(problem),
            solution.routes_fresh(problem),
            (r1_idx as int) < solution.routes@.len(),
            (r2_idx as int) < solution.routes@.len(),
            r1_idx != r2_idx,
            (c_pos as int) < solution.routes@[r1_idx as int].customers@.len(),
        ensures
            r.1 <= solution.routes@[r2_idx as int].customers@.len(),
            r.0 == relocate_delta(
                solution,
                problem,
                r1_idx as int,
                r2_idx as int,
                c_pos as int,
                r.1 as int,
                capacity_penalty,
            ),
    {
        let customer = solution.routes[r1_idx].customers[c_pos];
        proof {
            assert(solution.routes@[r1_idx as int].wf(problem));
            assert(solution.routes@[r2_idx as int].wf(problem));
            assert(cust_ok(problem, solution.routes@[r1_idx as int].customers@[c_pos as int]));
            lemma_two_routes_len_le_concat(solution.routes@, r1_idx as int, r2_idx as int);
        }
        let demand = problem.nodes[customer].demand;
        let r1_delta = calculate_removal_cost(&solution.routes[r1_idx], c_pos, problem);
        proof {
            let s1 = solution.routes@[r1_idx as int].customers@;
            lemma_load_of_bound(problem, s1);
            lemma_load_of_remove(problem, s1, c_pos as int);
            let rem = s1.remove(c_pos as int);
            assert(valid_customers(problem, rem)) by {
                assert(forall|q: int|
                    0 <= q < rem.len()
                        ==> rem[q] == (if q < c_pos {
                            #[trigger] s1[q]
                        } else {
                            s1[q + 1]
                        }));
            }
            lemma_load_of_bound(problem, rem);
            lemma_route_dist_bound(problem, s1);
            lemma_route_dist_bound(problem, rem);
            let s2 = solution.routes@[r2_idx as int].customers@;
            lemma_load_of_bound(problem, s2);
            lemma_route_dist_bound(problem, s2);
        }
        let r1 = &solution.routes[r1_idx];
        let r2 = &solution.routes[r2_idx];
        let r1_pen = penalty_delta(capacity_penalty, r1.load, r1.load - demand, problem.vehicle_capacity);
        let r2_pen = penalty_delta(capacity_penalty, r2.load, r2.load + demand, problem.vehicle_capacity);
        let n2 = r2.customers.len();
        let mut best_delta: i128 = 0;
        let mut best_pos: usize = 0;
        let mut started: bool = false;
        let mut i: usize = 0;
        while i <= n2
            invariant
                problem.wf(),
                solution.wf(problem),
                solution.routes_fresh(problem),
                (r1_idx as int) < solution.routes@.len(),
                (r2_idx as int) < solution.routes@.len(),
                r1_idx != r2_idx,
                cust_ok(problem, customer),
                n2 == solution.routes@[r2_idx as int].customers@.len(),
                n2 < MAX_NODES,
                i <= n2 + 1,
                i >= 1 ==> started,
                best_pos <= n2,
                started ==> best_delta as int == relocate_delta(
                    solution,
                    problem,
                    r1_idx as int,
                    r2_idx as int,
                    c_pos as int,
                    best_pos as int,
                    capacity_penalty,
                ),
                r1_delta as int == route_dist(
                    problem,
                    solution.routes@[r1_idx as int].customers@.remove(c_pos as int),
                ) - route_dist(problem, solution.routes@[r1_idx as int].customers@),
                r1_pen as int == capacity_penalty * excess_of(
                    load_of(problem, solution.routes@[r1_idx as int].customers@) - problem.demand(
                        solution.routes@[r1_idx as int].customers@[c_pos as int] as int,
                    ),
                    problem.vehicle_capacity as int,
                ) - capacity_penalty * excess_of(
                    load_of(problem, solution.routes@[r1_idx as int].customers@),
                    problem.vehicle_capacity as int,
                ),
                r2_pen as int == capacity_penalty * excess_of(
                    load_of(problem, solution.routes@[r2_idx as int].customers@) + problem.demand(
                        solution.routes@[r1_idx as int].customers@[c_pos as int] as int,
                    ),
                    problem.vehicle_capacity as int,
                ) - capacity_penalty * excess_of(
                    load_of(problem, solution.routes@[r2_idx as int].customers@),
                    problem.vehicle_capacity as int,
                ),
                customer == solution.routes@[r1_idx as int].customers@[c_pos as int],
                (c_pos as int) < solution.routes@[r1_idx as int].customers@.len(),
                -400_000_000_000_000 <= r1_delta <= 400_000_000_000_000,
                -4_000_000_000_000_000_000_000_000_000_000_000 <= r1_pen
                    <= 4_000_000_000_000_000_000_000_000_000_000_000,
                -4_000_000_000_000_000_000_000_000_000_000_000 <= r2_pen
                    <= 4_000_000_000_000_000_000_000_000_000_000_000,
            decreases n2 + 1 - i,
        {
            let r2ref = &solution.routes[r2_idx];
            let new_total = calculate_insertion_cost(r2ref, customer, i, problem);
            proof {
                let s2 = solution.routes@[r2_idx as int].customers@;
                let ins = s2.insert(i as int, customer);
                assert(valid_customers(problem, ins)) by {
                    assert(forall|q: int| 0 <= q < i ==> ins[q] == #[trigger] s2[q]);
                    assert(forall|q: int| i < q < ins.len() ==> #[trigger] ins[q] == s2[q - 1]);
                    assert(ins[i as int] == customer);
                }
                lemma_route_dist_bound(problem, ins);
                lemma_route_dist_bound(problem, s2);
            }
            let r2_delta = (new_total as i128) - (r2ref.distance as i128);
            let total = (PENALTY_UNIT as i128) * (r1_delta + r2_delta) + r1_pen + r2_pen;
            proof {
                assert(total as int == relocate_delta(
                    solution,
                    problem,
                    r1_idx as int,
                    r2_idx as int,
                    c_pos as int,
                    i as int,
                    capacity_penalty,
                ));
            }
            if !started || total < best_delta {
                best_delta = total;
                best_pos = i;
                started = true;
            }
            i += 1;
        }
        (best_delta, best_pos)
    }

    /// Move the customer at `c_pos` of route `r1_idx` to position
    /// `insert_pos` of route `r2_idx`, marking both routes modified.
    fn apply_relocate(
        solution: &mut Solution,
        problem: &Problem,
        r1_idx: usize,
        r2_idx: usize,
        c_pos: usize,
        insert_pos: usize,
    )
        requires
            problem.wf(),
            old(solution).wf(problem),
            old(solution).caches_ok(problem),
            (r1_idx as int) < old(solution).routes@.len(),
            (r2_idx as int) < old(solution).routes@.len(),
            r1_idx != r2_idx,
            (c_pos as int) < old(solution).routes@[r1_idx as int].customers@.len(),
            insert_pos <= old(solution).routes@[r2_idx as int].customers@.len(),
        ensures
            final(solution).wf(problem),
            final(solution).caches_ok(problem),
            final(solution).routes@.len() == old(solution).routes@.len(),
            final(solution).giant_tour == old(solution).giant_tour,
            forall|k: int|
                0 <= k < old(solution).routes@.len() && k != r1_idx && k != r2_idx
                    ==> #[trigger] final(solution).routes@[k] == old(solution).routes@[k],
            final(solution).routes@[r1_idx as int].customers@ == old(solution).routes@[r1_idx as int].customers@.remove(
                c_pos as int,
            ),
            final(solution).routes@[r2_idx as int].customers@ == old(solution).routes@[r2_idx as int].customers@.insert(
                insert_pos as int,
                old(solution).routes@[r1_idx as int].customers@[c_pos as int],
            ),
            concat_routes(final(solution).routes@).to_multiset() == concat_routes(
                old(solution).routes@,
            ).to_multiset(),
    {
        broadcast use vstd::seq_lib::group_to_multiset_ensures;
        broadcast use vstd::seq_lib::to_multiset_insert;
        broadcast use vstd::multiset::group_multiset_axioms;

        let ghost routes0 = solution.routes@;
        let r1 = vstd::std_specs::vec::vec_index_mut(&mut solution.routes, r1_idx);
        let customer = r1.customers.remove(c_pos);
        r1.modified = true;
        let r2 = vstd::std_specs::vec::vec_index_mut(&mut solution.routes, r2_idx);
        r2.customers.insert(insert_pos, customer);
        r2.modified = true;
        proof {
            let routes2 = solution.routes@;
            let s1 = routes0[r1_idx as int].customers@;
            let s2 = routes0[r2_idx as int].customers@;
            let n1 = routes2[r1_idx as int].customers@;
            let n2c = routes2[r2_idx as int].customers@;
            assert(n1 == s1.remove(c_pos as int));
            assert(n2c == s2.insert(insert_pos as int, customer));
            assert(n1.to_multiset() == s1.to_multiset().remove(customer));
            assert(n2c.to_multiset() == s2.to_multiset().insert(customer));
            assert(s1.contains(customer));
            assert(s1.to_multiset().count(customer) > 0);
            assert(n1.to_multiset().add(n2c.to_multiset()) =~= s1.to_multiset().add(s2.to_multiset()));
            lemma_two_route_exchange(routes0, r1_idx as int, r2_idx as int, routes2);
            assert(valid_customers(problem, n1)) by {
                assert(forall|q: int|
                    0 <= q < n1.len()
                        ==> n1[q] == (if q < c_pos {
                            #[trigger] s1[q]
                        } else {
                            s1[q + 1]
                        }));
            }
            assert(valid_customers(problem, n2c)) by {
                assert(forall|q: int| 0 <= q < insert_pos ==> n2c[q] == #[trigger] s2[q]);
                assert(forall|q: int| insert_pos < q < n2c.len() ==> #[trigger] n2c[q] == s2[q - 1]);
                assert(n2c[insert_pos as int] == customer);
            }
            lemma_route_len_le_concat(routes2, r1_idx as int);
            lemma_route_len_le_concat(routes2, r2_idx as int);
            assert(solution.wf(problem));
        }
    }
}

/// The exact penalised-cost change of moving the customer at `c_pos` of
/// route `r1_idx` to position `pos` of route `r2_idx`.
pub open spec fn relocate_delta(
    solution: &Solution,
    problem: &Problem,
    r1_idx: int,
    r2_idx: int,
    c_pos: int,
    pos: int,
    capacity_penalty: u64,
) -> int {
    let s1 = solution.routes@[r1_idx].customers@;
    let s2 = solution.routes@[r2_idx].customers@;
    let c = s1[c_pos];
    let cap = problem.vehicle_capacity as int;
    PENALTY_UNIT * (route_dist(problem, s1.remove(c_pos)) - route_dist(problem, s1) + route_dist(
        problem,
        s2.insert(pos, c),
    ) - route_dist(problem, s2)) + capacity_penalty * excess_of(
        load_of(problem, s1) - problem.demand(c as int),
        cap,
    ) - capacity_penalty * excess_of(load_of(problem, s1), cap) + capacity_penalty * excess_of(
        load_of(problem, s2) + problem.demand(c as int),
        cap,
    ) - capacity_penalty * excess_of(load_of(problem, s2), cap)
}

/// A relocation changes the solution's distance and excess sums by
/// exactly the two routes' own changes.
proof fn lemma_relocate_cost_drop(
    p: &Problem,
    routes0: Seq<Route>,
    mid: Seq<Route>,
    r1_idx: int,
    r2_idx: int,
    c_pos: int,
    insert_pos: int,
)
    requires
        routes0.len() == mid.len(),
        0 <= r1_idx < routes0.len(),
        0 <= r2_idx < routes0.len(),
        r1_idx != r2_idx,
        0 <= c_pos < routes0[r1_idx].customers@.len(),
        0 <= insert_pos <= routes0[r2_idx].customers@.len(),
        forall|k: int|
            0 <= k < routes0.len() && k != r1_idx && k != r2_idx ==> #[trigger] mid[k] == routes0[k],
        mid[r1_idx].customers@ == routes0[r1_idx].customers@.remove(c_pos),
        mid[r2_idx].customers@ == routes0[r2_idx].customers@.insert(
            insert_pos,
            routes0[r1_idx].customers@[c_pos],
        ),
    ensures
        sol_dist(p, mid) == sol_dist(p, routes0) + route_dist(p, mid[r1_idx].customers@) - route_dist(
            p,
            routes0[r1_idx].customers@,
        ) + route_dist(p, mid[r2_idx].customers@) - route_dist(p, routes0[r2_idx].customers@),
        sol_excess(p, mid) == sol_excess(p, routes0) + excess_of(
            load_of(p, routes0[r1_idx].customers@) - p.demand(routes0[r1_idx].customers@[c_pos] as int),
            p.vehicle_capacity as int,
        ) - excess_of(load_of(p, routes0[r1_idx].customers@), p.vehicle_capacity as int) + excess_of(
            load_of(p, routes0[r2_idx].customers@) + p.demand(routes0[r1_idx].customers@[c_pos] as int),
            p.vehicle_capacity as int,
        ) - excess_of(load_of(p, routes0[r2_idx].customers@), p.vehicle_capacity as int),
{
    let step1 = routes0.update(r1_idx, mid[r1_idx]);
    assert(mid =~= step1.update(r2_idx, mid[r2_idx]));
    lemma_sol_sums_update(p, routes0, r1_idx, mid[r1_idx]);
    lemma_sol_sums_update(p, step1, r2_idx, mid[r2_idx]);
    assert(step1[r2_idx] == routes0[r2_idx]);
    lemma_load_of_remove(p, routes0[r1_idx].customers@, c_pos);
    lemma_load_of_insert(
        p,
        routes0[r2_idx].customers@,
        insert_pos,
        routes0[r1_idx].customers@[c_pos],
    );
}

} // verus!
