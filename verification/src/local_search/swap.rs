//! Swap: exchange two customers between their routes, in place.

use vstd::prelude::*;
use crate::problem::Problem;
use crate::solution::{
    concat_routes, cust_ok, excess_of, lemma_load_of_bound, lemma_load_of_remove,
    lemma_load_of_update, lemma_route_dist_bound, lemma_routes_same_customers,
    lemma_sol_sums_update, lemma_two_route_exchange, load_of, route_dist, sol_dist, sol_excess,
    valid_customers, Route, Solution,
};
use crate::PENALTY_UNIT;
use super::utils::{
    find_route_for_customer, ins_next, lemma_insert_delta, lemma_remove_delta, next_node,
    position_of, prev_node,
};
use super::{move_blocked, penalty_delta, shuffled_indices, LocalSearch};

verus! {

/// The exact penalised-cost change of exchanging the customers at
/// `c1_pos` of route `r1` and `c2_pos` of route `r2` in place.
pub open spec fn swap_delta(
    sol: &Solution,
    p: &Problem,
    r1: int,
    r2: int,
    c1_pos: int,
    c2_pos: int,
    capacity_penalty: u64,
) -> int {
    let s1 = sol.routes@[r1].customers@;
    let s2 = sol.routes@[r2].customers@;
    let c1 = s1[c1_pos];
    let c2 = s2[c2_pos];
    let cap = p.vehicle_capacity as int;
    crate::PENALTY_UNIT * (route_dist(p, s1.update(c1_pos, c2)) - route_dist(p, s1) + route_dist(
        p,
        s2.update(c2_pos, c1),
    ) - route_dist(p, s2)) + capacity_penalty * excess_of(
        load_of(p, s1) - p.demand(c1 as int) + p.demand(c2 as int),
        cap,
    ) - capacity_penalty * excess_of(load_of(p, s1), cap) + capacity_penalty * excess_of(
        load_of(p, s2) - p.demand(c2 as int) + p.demand(c1 as int),
        cap,
    ) - capacity_penalty * excess_of(load_of(p, s2), cap)
}

/// One Swap candidate of the sweep: the anchor at `c1_pos` of route `r1`
/// has the neighbour-list entry `k`, and `r2` is the first route serving
/// that neighbour, different from the anchor's own.
pub open spec fn swap_candidate(
    entry: &LocalSearch,
    sol: &Solution,
    r1: int,
    c1_pos: int,
    k: int,
    r2: int,
) -> bool {
    let c1 = sol.routes@[r1].customers@[c1_pos];
    let nb = entry.customer_neighbors@[c1 as int]@[k];
    &&& 0 <= r1 < sol.routes@.len()
    &&& 0 <= c1_pos < sol.routes@[r1].customers@.len()
    &&& 0 <= k < entry.customer_neighbors@[c1 as int]@.len()
    &&& 0 <= r2 < sol.routes@.len()
    &&& r2 != r1
    &&& sol.routes@[r2].customers@.contains(nb)
    &&& forall|q: int| 0 <= q < r2 ==> !(#[trigger] sol.routes@[q]).customers@.contains(nb)
}

/// The Swap candidates from `c1_pos` of `r1` into `r2` are accounted for:
/// memo-blocked at entry, or some exchange with an `r2` member was
/// measured and found non-improving.
pub open spec fn swap_done(
    entry: &LocalSearch,
    sol: &Solution,
    p: &Problem,
    capacity_penalty: u64,
    r1: int,
    c1_pos: int,
    r2: int,
) -> bool {
    ||| move_blocked(entry, sol.routes@[r1].customers@[c1_pos] as int, 1, r2)
    ||| exists|pos2: int|
        0 <= pos2 < sol.routes@[r2].customers@.len() && #[trigger] swap_delta(
            sol,
            p,
            r1,
            r2,
            c1_pos,
            pos2,
            capacity_penalty,
        ) >= 0
}

/// Every Swap candidate of a sweep is accounted for, so a sweep that
/// reports no improvement owes this of every anchor and neighbour.
pub open spec fn swap_no_gain(entry: &LocalSearch, sol: &Solution, p: &Problem, capacity_penalty: u64) -> bool {
    forall|r1: int, c1_pos: int, k: int, r2: int|
        #[trigger] swap_candidate(entry, sol, r1, c1_pos, k, r2) ==> swap_done(
            entry,
            sol,
            p,
            capacity_penalty,
            r1,
            c1_pos,
            r2,
        )
}

/// Neighbour entry `k` of the anchor at `c1_pos` of `r1` is accounted for.
pub open spec fn swap_k_done(
    entry: &LocalSearch,
    sol: &Solution,
    p: &Problem,
    capacity_penalty: u64,
    r1: int,
    c1_pos: int,
    k: int,
) -> bool {
    forall|r2: int|
        #[trigger] swap_candidate(entry, sol, r1, c1_pos, k, r2) ==> swap_done(
            entry,
            sol,
            p,
            capacity_penalty,
            r1,
            c1_pos,
            r2,
        )
}

/// Every neighbour entry of the anchor at `c1_pos` of `r1` is accounted
/// for.
pub open spec fn swap_pos_done(
    entry: &LocalSearch,
    sol: &Solution,
    p: &Problem,
    capacity_penalty: u64,
    r1: int,
    c1_pos: int,
) -> bool {
    forall|k: int|
        0 <= k < entry.customer_neighbors@[sol.routes@[r1].customers@[c1_pos] as int]@.len()
            ==> #[trigger] swap_k_done(entry, sol, p, capacity_penalty, r1, c1_pos, k)
}

/// What the sweep's memo stamps mean for Swap: any anchor/target pair the
/// memo now blocks was blocked at entry or has been measured this sweep.
pub open spec fn memo_inv_swap(
    entry: &LocalSearch,
    now: &LocalSearch,
    sol: &Solution,
    p: &Problem,
    capacity_penalty: u64,
) -> bool {
    forall|r1: int, c1_pos: int, r2: int|
        #![trigger move_blocked(now, sol.routes@[r1].customers@[c1_pos] as int, 1, r2)]
        0 <= r1 < sol.routes@.len() && 0 <= c1_pos < sol.routes@[r1].customers@.len() && 0 <= r2
            < sol.routes@.len() && r2 != r1 && move_blocked(
            now,
            sol.routes@[r1].customers@[c1_pos] as int,
            1,
            r2,
        ) ==> swap_done(entry, sol, p, capacity_penalty, r1, c1_pos, r2)
}

/// Replacing the customer at `pos` swaps its two incident edges for the
/// replacement's, wherever the route has at least one customer.
proof fn lemma_replace_delta(p: &Problem, s: Seq<usize>, pos: int, c: usize)
    requires
        p.wf(),
        valid_customers(p, s),
        (c as int) < p.n(),
        0 <= pos < s.len(),
    ensures
        route_dist(p, s.update(pos, c)) - route_dist(p, s) == p.dist(prev_node(p, s, pos), c as int) + p.dist(
            c as int,
            next_node(p, s, pos),
        ) - p.dist(prev_node(p, s, pos), s[pos] as int) - p.dist(s[pos] as int, next_node(p, s, pos)),
{
    if s.len() == 1 {
        let t = s.update(pos, c);
        assert(t =~= seq![c]);
        p.lemma_dist_symmetric(p.depot_index as int, c as int);
        p.lemma_dist_symmetric(p.depot_index as int, s[0] as int);
    } else {
        let t = s.remove(pos);
        lemma_remove_delta(p, s, pos);
        assert(valid_customers(p, t)) by {
            assert(forall|q: int|
                0 <= q < t.len()
                    ==> t[q] == (if q < pos {
                        #[trigger] s[q]
                    } else {
                        s[q + 1]
                    }));
        }
        lemma_insert_delta(p, t, c, pos);
        assert(t.insert(pos, c) =~= s.update(pos, c));
        assert(prev_node(p, t.insert(pos, c), pos) == prev_node(p, s, pos));
        assert(ins_next(p, t, pos) == next_node(p, s, pos));
    }
}

impl LocalSearch {
    /// Try every Swap move in granular-neighbour order and apply the first
    /// improving one; report whether one was applied.  The customers keep
    /// exactly their multiset.
    pub fn swap_neighborhood(
        &mut self,
        solution: &mut Solution,
        problem: &Problem,
        capacity_penalty: u64,
    ) -> (improved: bool)
        requires
            problem.wf(),
            old(solution).wf(problem),
            old(solution).evaluated(problem, capacity_penalty),
            concat_routes(old(solution).routes@).no_duplicates(),
            old(self).neighbors_ready(problem),
            old(self).n_tracked_routes() == old(solution).routes@.len(),
        ensures
            final(self).neighbors_ready(problem),
            final(self).granularity == old(self).granularity,
            final(self).n_tracked_routes() == final(solution).routes@.len(),
            final(solution).routes@.len() == old(solution).routes@.len(),
            final(solution).giant_tour == old(solution).giant_tour,
            final(solution).wf(problem),
            final(solution).evaluated(problem, capacity_penalty),
            concat_routes(final(solution).routes@).to_multiset() == concat_routes(
                old(solution).routes@,
            ).to_multiset(),
            concat_routes(final(solution).routes@).no_duplicates(),
            improved ==> final(solution).cost < old(solution).cost,
            !improved ==> *final(solution) == *old(solution),
            !improved ==> swap_no_gain(old(self), old(solution), problem, capacity_penalty),
    {
        proof {
            crate::solution::lemma_concat_nodup(old(solution).routes@);
        }
        let nroutes = solution.routes.len();
        let route_indices = shuffled_indices(nroutes);
        let mut rp: usize = 0;
        while rp < nroutes
            invariant
                problem.wf(),
                *solution == *old(solution),
                solution.wf(problem),
                solution.evaluated(problem, capacity_penalty),
                self.neighbors_ready(problem),
                self.granularity == old(self).granularity,
                self.route_timestamps == old(self).route_timestamps,
                self.customer_neighbors == old(self).customer_neighbors,
                self.n_tracked_routes() == solution.routes@.len(),
                nroutes == solution.routes@.len(),
                concat_routes(solution.routes@).no_duplicates(),
                route_indices@.len() == nroutes,
                forall|q: int| 0 <= q < nroutes ==> (#[trigger] route_indices@[q] as int) < nroutes,
                route_indices@.no_duplicates(),
                forall|v: usize| (v as int) < nroutes ==> route_indices@.contains(v),
                rp <= nroutes,
                memo_inv_swap(old(self), self, solution, problem, capacity_penalty),
                forall|a: int, c1_pos: int|
                    0 <= a < rp && 0 <= c1_pos
                        < solution.routes@[route_indices@[a] as int].customers@.len()
                        ==> #[trigger] swap_pos_done(
                        old(self),
                        solution,
                        problem,
                        capacity_penalty,
                        route_indices@[a] as int,
                        c1_pos,
                    ),
            decreases nroutes - rp,
        {
            let r1_idx = route_indices[rp];
            let n1 = solution.routes[r1_idx].customers.len();
            if n1 > 0 {
                let customer_indices = shuffled_indices(n1);
                let mut cp: usize = 0;
                while cp < n1
                    invariant
                        problem.wf(),
                        *solution == *old(solution),
                        solution.wf(problem),
                        solution.evaluated(problem, capacity_penalty),
                        self.neighbors_ready(problem),
                        self.granularity == old(self).granularity,
                        self.route_timestamps == old(self).route_timestamps,
                        self.customer_neighbors == old(self).customer_neighbors,
                        self.n_tracked_routes() == solution.routes@.len(),
                        nroutes == solution.routes@.len(),
                        concat_routes(solution.routes@).no_duplicates(),
                        (r1_idx as int) < nroutes,
                        n1 == solution.routes@[r1_idx as int].customers@.len(),
                        customer_indices@.len() == n1,
                        forall|q: int| 0 <= q < n1 ==> (#[trigger] customer_indices@[q] as int) < n1,
                        customer_indices@.no_duplicates(),
                        forall|v: usize| (v as int) < n1 ==> customer_indices@.contains(v),
                        cp <= n1,
                        memo_inv_swap(old(self), self, solution, problem, capacity_penalty),
                        forall|b: int|
                            0 <= b < cp ==> #[trigger] swap_pos_done(
                                old(self),
                                solution,
                                problem,
                                capacity_penalty,
                                r1_idx as int,
                                customer_indices@[b] as int,
                            ),
                    decreases n1 - cp,
                {
                    let c1_pos = customer_indices[cp];
                    let customer1 = solution.routes[r1_idx].customers[c1_pos];
                    proof {
                        assert(solution.routes@[r1_idx as int].wf(problem));
                        assert(cust_ok(problem, solution.routes@[r1_idx as int].customers@[c1_pos as int]));
                    }
                    let neighbors = super::utils::clone_indices(&self.customer_neighbors[customer1]);
                    let mut np: usize = 0;
                    while np < neighbors.len()
                        invariant
                            problem.wf(),
                            *solution == *old(solution),
                            solution.wf(problem),
                            solution.evaluated(problem, capacity_penalty),
                            self.neighbors_ready(problem),
                            self.granularity == old(self).granularity,
                            self.route_timestamps == old(self).route_timestamps,
                            self.customer_neighbors == old(self).customer_neighbors,
                            self.n_tracked_routes() == solution.routes@.len(),
                            nroutes == solution.routes@.len(),
                            concat_routes(solution.routes@).no_duplicates(),
                            (r1_idx as int) < nroutes,
                            n1 == solution.routes@[r1_idx as int].customers@.len(),
                            (c1_pos as int) < n1,
                            customer1 == solution.routes@[r1_idx as int].customers@[c1_pos as int],
                            neighbors@ == old(self).customer_neighbors@[customer1 as int]@,
                            np <= neighbors@.len(),
                            memo_inv_swap(old(self), self, solution, problem, capacity_penalty),
                            forall|k: int|
                                0 <= k < np ==> #[trigger] swap_k_done(
                                    old(self),
                                    solution,
                                    problem,
                                    capacity_penalty,
                                    r1_idx as int,
                                    c1_pos as int,
                                    k,
                                ),
                        decreases neighbors@.len() - np,
                    {
                        let neighbor = neighbors[np];
                        let found = find_route_for_customer(solution, neighbor);
                        proof {
                            if found is None {
                                assert forall|r2: int|
                                    swap_candidate(
                                        old(self),
                                        solution,
                                        r1_idx as int,
                                        c1_pos as int,
                                        np as int,
                                        r2,
                                    ) implies swap_done(
                                    old(self),
                                    solution,
                                    problem,
                                    capacity_penalty,
                                    r1_idx as int,
                                    c1_pos as int,
                                    r2,
                                ) by {
                                    assert(solution.routes@[r2].customers@.contains(neighbor));
                                }
                            }
                        }
                        match found {
                            None => {},
                            Some(r2_idx) => {
                                proof {
                                    // The first route serving the neighbour is
                                    // unique, so it is the only candidate target.
                                    assert forall|r2: int|
                                        swap_candidate(
                                            old(self),
                                            solution,
                                            r1_idx as int,
                                            c1_pos as int,
                                            np as int,
                                            r2,
                                        ) implies r2 == r2_idx as int by {
                                        if r2 < r2_idx {
                                            assert(!solution.routes@[r2].customers@.contains(neighbor));
                                        } else if r2 > r2_idx {
                                            assert(!solution.routes@[r2_idx as int].customers@.contains(
                                                neighbor,
                                            ));
                                        }
                                    }
                                }
                                if r2_idx != r1_idx {
                                    let pos_found = position_of(&solution.routes[r2_idx], neighbor);
                                    match pos_found {
                                        None => {
                                            proof {
                                                assert(false);
                                            }
                                        },
                                        Some(c2_pos) => {
                                            let ghost pre_self = *self;
                                            let tested = self.is_move_valid(customer1, 1, r2_idx);
                                            proof {
                                                if !tested {
                                                    assert(solution.routes@[r2_idx as int].customers@.len()
                                                        >= 0);
                                                    assert(move_blocked(
                                                        &pre_self,
                                                        customer1 as int,
                                                        1,
                                                        r2_idx as int,
                                                    ));
                                                    assert(swap_done(
                                                        old(self),
                                                        solution,
                                                        problem,
                                                        capacity_penalty,
                                                        r1_idx as int,
                                                        c1_pos as int,
                                                        r2_idx as int,
                                                    ));
                                                }
                                            }
                                            if tested {
                                                let delta = Self::evaluate_swap(
                                                    solution,
                                                    problem,
                                                    r1_idx,
                                                    r2_idx,
                                                    c1_pos,
                                                    c2_pos,
                                                    capacity_penalty,
                                                );
                                                proof {
                                                    if delta >= 0 {
                                                        assert(swap_done(
                                                            old(self),
                                                            solution,
                                                            problem,
                                                            capacity_penalty,
                                                            r1_idx as int,
                                                            c1_pos as int,
                                                            r2_idx as int,
                                                        ));
                                                    }
                                                    // The fresh stamp only blocks
                                                    // this anchor/target pair.
                                                    crate::solution::lemma_concat_nodup(solution.routes@);
                                                    assert forall|ra: int, ca: int, rb: int|
                                                        #![trigger move_blocked(self, solution.routes@[ra].customers@[ca] as int, 1, rb)]
                                                        0 <= ra < solution.routes@.len() && 0 <= ca
                                                            < solution.routes@[ra].customers@.len() && 0 <= rb
                                                            < solution.routes@.len() && rb != ra
                                                            && move_blocked(
                                                            self,
                                                            solution.routes@[ra].customers@[ca] as int,
                                                            1,
                                                            rb,
                                                        ) && delta >= 0 implies swap_done(
                                                        old(self),
                                                        solution,
                                                        problem,
                                                        capacity_penalty,
                                                        ra,
                                                        ca,
                                                        rb,
                                                    ) by {
                                                        let cv = solution.routes@[ra].customers@[ca];
                                                        assert(solution.routes@[rb].customers@.len() >= 0);
                                                        if move_blocked(&pre_self, cv as int, 1, rb) {
                                                            assert(swap_done(
                                                                old(self),
                                                                solution,
                                                                problem,
                                                                capacity_penalty,
                                                                ra,
                                                                ca,
                                                                rb,
                                                            ));
                                                        } else {
                                                            assert(cust_ok(problem, cv)) by {
                                                                assert(solution.routes@[ra].wf(problem));
                                                            }
                                                            super::lemma_move_key_injective(
                                                                cv as int,
                                                                1,
                                                                rb,
                                                                customer1 as int,
                                                                1,
                                                                r2_idx as int,
                                                            );
                                                            assert(cv == customer1 && rb == r2_idx);
                                                            assert(ra == r1_idx && ca == c1_pos) by {
                                                                if ra != r1_idx {
                                                                    assert(solution.routes@[ra].customers@.contains(
                                                                        cv,
                                                                    ));
                                                                    assert(solution.routes@[r1_idx as int].customers@.contains(
                                                                        customer1,
                                                                    ));
                                                                } else {
                                                                    assert(solution.routes@[r1_idx as int].customers@.no_duplicates());
                                                                }
                                                            }
                                                        }
                                                    }
                                                }
                                                if delta < 0 {
                                                    let ghost routes0 = solution.routes@;
                                                    let ghost cost0 = solution.cost;
                                                    Self::apply_swap(
                                                        solution,
                                                        problem,
                                                        r1_idx,
                                                        r2_idx,
                                                        c1_pos,
                                                        c2_pos,
                                                    );
                                                    self.update_route_timestamp(r1_idx);
                                                    self.update_route_timestamp(r2_idx);
                                                    let ghost mid = solution.routes@;
                                                    solution.evaluate(problem, capacity_penalty);
                                                    proof {
                                                        lemma_routes_same_customers(
                                                            problem,
                                                            solution.routes@,
                                                            mid,
                                                        );
                                                        lemma_swap_cost_drop(
                                                            problem,
                                                            routes0,
                                                            mid,
                                                            r1_idx as int,
                                                            r2_idx as int,
                                                            c1_pos as int,
                                                            c2_pos as int,
                                                        );
                                                        let s1 = routes0[r1_idx as int].customers@;
                                                        let s2 = routes0[r2_idx as int].customers@;
                                                        let cap = problem.vehicle_capacity as int;
                                                        let se0 = sol_excess(problem, routes0);
                                                        let e1 = excess_of(load_of(problem, s1), cap);
                                                        let e2 = excess_of(load_of(problem, s2), cap);
                                                        let e1p = excess_of(
                                                            load_of(problem, s1) - problem.demand(
                                                                s1[c1_pos as int] as int,
                                                            ) + problem.demand(s2[c2_pos as int] as int),
                                                            cap,
                                                        );
                                                        let e2p = excess_of(
                                                            load_of(problem, s2) - problem.demand(
                                                                s2[c2_pos as int] as int,
                                                            ) + problem.demand(s1[c1_pos as int] as int),
                                                            cap,
                                                        );
                                                        let pen = capacity_penalty as int;
                                                        assert(pen * (se0 + e1p - e1 + e2p - e2) == pen * se0
                                                            + pen * e1p - pen * e1 + pen * e2p - pen * e2)
                                                            by (nonlinear_arith);
                                                        assert(solution.cost as int == cost0 + delta);
                                                        assert(solution.cost < cost0);
                                                        broadcast use vstd::seq_lib::group_to_multiset_ensures;

                                                        concat_routes(
                                                            routes0,
                                                        ).lemma_multiset_has_no_duplicates();
                                                        concat_routes(
                                                            solution.routes@,
                                                        ).lemma_multiset_has_no_duplicates_conv();
                                                    }
                                                    return true;
                                                }
                                            }
                                        },
                                    }
                                }
                            },
                        }
                        proof {
                            assert(swap_k_done(
                                old(self),
                                solution,
                                problem,
                                capacity_penalty,
                                r1_idx as int,
                                c1_pos as int,
                                np as int,
                            ));
                        }
                        np += 1;
                    }
                    proof {
                        assert(swap_pos_done(
                            old(self),
                            solution,
                            problem,
                            capacity_penalty,
                            r1_idx as int,
                            c1_pos as int,
                        ));
                    }
                    cp += 1;
                }
                proof {
                    assert forall|c0: int| 0 <= c0 < n1 implies swap_pos_done(
                        old(self),
                        solution,
                        problem,
                        capacity_penalty,
                        r1_idx as int,
                        c0,
                    ) by {
                        let v: usize = c0 as usize;
                        assert(customer_indices@.contains(v));
                        let b = choose|b: int|
                            0 <= b < customer_indices@.len() && customer_indices@[b] == v;
                        assert(swap_pos_done(
                            old(self),
                            solution,
                            problem,
                            capacity_penalty,
                            r1_idx as int,
                            customer_indices@[b] as int,
                        ));
                    }
                }
            }
            rp += 1;
        }
        proof {
            assert forall|r1: int, c1_pos: int, k: int, r2: int|
                swap_candidate(old(self), solution, r1, c1_pos, k, r2) implies swap_done(
                old(self),
                solution,
                problem,
                capacity_penalty,
                r1,
                c1_pos,
                r2,
            ) by {
                let v: usize = r1 as usize;
                assert(route_indices@.contains(v));
                let a = choose|a: int| 0 <= a < route_indices@.len() && route_indices@[a] == v;
                assert(swap_pos_done(
                    old(self),
                    solution,
                    problem,
                    capacity_penalty,
                    route_indices@[a] as int,
                    c1_pos,
                ));
                assert(swap_k_done(old(self), solution, problem, capacity_penalty, r1, c1_pos, k));
            }
            assert(swap_no_gain(old(self), solution, problem, capacity_penalty));
            assert(*solution == *old(solution));
        }
        false
    }

    /// The exact penalised-cost change of exchanging the customers at
    /// `c1_pos` of route `r1_idx` and `c2_pos` of route `r2_idx`.
    fn evaluate_swap(
        solution: &Solution,
        problem: &Problem,
        r1_idx: usize,
        r2_idx: usize,
        c1_pos: usize,
        c2_pos: usize,
        capacity_penalty: u64,
    ) -> (delta: i128)
        requires
            problem.wf(),
            solution.wf(problem),
            solution.routes_fresh(problem),
            (r1_idx as int) < solution.routes@.len(),
            (r2_idx as int) < solution.routes@.len(),
            r1_idx != r2_idx,
            (c1_pos as int) < solution.routes@[r1_idx as int].customers@.len(),
            (c2_pos as int) < solution.routes@[r2_idx as int].customers@.len(),
        ensures
            delta as int == swap_delta(
                solution,
                problem,
                r1_idx as int,
                r2_idx as int,
                c1_pos as int,
                c2_pos as int,
                capacity_penalty,
            ),
    {
        let r1 = &solution.routes[r1_idx];
        let r2 = &solution.routes[r2_idx];
        let customer1 = r1.customers[c1_pos];
        let customer2 = r2.customers[c2_pos];
        proof {
            assert(solution.routes@[r1_idx as int].wf(problem));
            assert(solution.routes@[r2_idx as int].wf(problem));
            assert(cust_ok(problem, solution.routes@[r1_idx as int].customers@[c1_pos as int]));
            assert(cust_ok(problem, solution.routes@[r2_idx as int].customers@[c2_pos as int]));
        }
        let r1_delta = Self::calculate_swap_cost_for_route(r1, c1_pos, customer2, problem);
        let r2_delta = Self::calculate_swap_cost_for_route(r2, c2_pos, customer1, problem);
        let demand1 = problem.nodes[customer1].demand;
        let demand2 = problem.nodes[customer2].demand;
        proof {
            let s1 = solution.routes@[r1_idx as int].customers@;
            let s2 = solution.routes@[r2_idx as int].customers@;
            lemma_load_of_bound(problem, s1);
            lemma_load_of_bound(problem, s2);
            lemma_load_of_remove(problem, s1, c1_pos as int);
            lemma_load_of_remove(problem, s2, c2_pos as int);
            assert(load_of(problem, s1.remove(c1_pos as int)) >= 0) by {
                assert(valid_customers(problem, s1.remove(c1_pos as int))) by {
                    assert(forall|q: int|
                        0 <= q < s1.remove(c1_pos as int).len()
                            ==> s1.remove(c1_pos as int)[q] == (if q < c1_pos {
                                #[trigger] s1[q]
                            } else {
                                s1[q + 1]
                            }));
                }
                lemma_load_of_bound(problem, s1.remove(c1_pos as int));
            }
            assert(load_of(problem, s2.remove(c2_pos as int)) >= 0) by {
                assert(valid_customers(problem, s2.remove(c2_pos as int))) by {
                    assert(forall|q: int|
                        0 <= q < s2.remove(c2_pos as int).len()
                            ==> s2.remove(c2_pos as int)[q] == (if q < c2_pos {
                                #[trigger] s2[q]
                            } else {
                                s2[q + 1]
                            }));
                }
                lemma_load_of_bound(problem, s2.remove(c2_pos as int));
            }
        }
        let r1_new_load = r1.load - demand1 + demand2;
        let r2_new_load = r2.load - demand2 + demand1;
        let r1_pen = penalty_delta(capacity_penalty, r1.load, r1_new_load, problem.vehicle_capacity);
        let r2_pen = penalty_delta(capacity_penalty, r2.load, r2_new_load, problem.vehicle_capacity);
        proof {
            let s1 = solution.routes@[r1_idx as int].customers@;
            let s2 = solution.routes@[r2_idx as int].customers@;
            lemma_route_dist_bound(problem, s1);
            lemma_route_dist_bound(problem, s2);
            let u1 = s1.update(c1_pos as int, s2[c2_pos as int]);
            let u2 = s2.update(c2_pos as int, s1[c1_pos as int]);
            assert(valid_customers(problem, u1)) by {
                assert(forall|q: int| 0 <= q < u1.len() && q != c1_pos ==> u1[q] == #[trigger] s1[q]);
            }
            assert(valid_customers(problem, u2)) by {
                assert(forall|q: int| 0 <= q < u2.len() && q != c2_pos ==> u2[q] == #[trigger] s2[q]);
            }
            lemma_route_dist_bound(problem, u1);
            lemma_route_dist_bound(problem, u2);
        }
        proof {
            let s1 = solution.routes@[r1_idx as int].customers@;
            let s2 = solution.routes@[r2_idx as int].customers@;
            let u1 = s1.update(c1_pos as int, s2[c2_pos as int]);
            let u2 = s2.update(c2_pos as int, s1[c1_pos as int]);
            assert(-20_000_000_000_000_000_000 <= (crate::PENALTY_UNIT as int) * (route_dist(problem, u1)
                - route_dist(problem, s1) + route_dist(problem, u2) - route_dist(problem, s2))
                <= 20_000_000_000_000_000_000) by (nonlinear_arith)
                requires
                    -1_000_000_000_000_000 <= route_dist(problem, u1) - route_dist(problem, s1)
                        + route_dist(problem, u2) - route_dist(problem, s2) <= 1_000_000_000_000_000,
                    crate::PENALTY_UNIT == 1000,
            ;
        }
        (crate::PENALTY_UNIT as i128) * (r1_delta + r2_delta) + r1_pen + r2_pen
    }

    /// The exact change in a route's round trip from replacing the
    /// customer at `pos` with `new_customer`.
    fn calculate_swap_cost_for_route(route: &Route, pos: usize, new_customer: usize, problem: &Problem) -> (r:
        i128)
        requires
            problem.wf(),
            route.wf(problem),
            route.caches_current(problem),
            cust_ok(problem, new_customer),
            (pos as int) < route.customers@.len(),
        ensures
            r == route_dist(problem, route.customers@.update(pos as int, new_customer)) - route_dist(
                problem,
                route.customers@,
            ),
    {
        let customers = &route.customers;
        let n = customers.len();
        let prev_idx = if pos > 0 {
            customers[pos - 1]
        } else {
            problem.depot_index
        };
        let curr_idx = customers[pos];
        let next_idx = if pos < n - 1 {
            customers[pos + 1]
        } else {
            problem.depot_index
        };
        let old_edges = problem.get_distance(prev_idx, curr_idx) + problem.get_distance(curr_idx, next_idx);
        let new_edges = problem.get_distance(prev_idx, new_customer) + problem.get_distance(
            new_customer,
            next_idx,
        );
        proof {
            let s = route.customers@;
            lemma_replace_delta(problem, s, pos as int, new_customer);
            assert(prev_node(problem, s, pos as int) == prev_idx as int);
            assert(next_node(problem, s, pos as int) == next_idx as int);
        }
        (new_edges as i128) - (old_edges as i128)
    }

    /// Exchange the two customers in place, marking both routes modified.
    fn apply_swap(
        solution: &mut Solution,
        problem: &Problem,
        r1_idx: usize,
        r2_idx: usize,
        c1_pos: usize,
        c2_pos: usize,
    )
        requires
            problem.wf(),
            old(solution).wf(problem),
            old(solution).caches_ok(problem),
            (r1_idx as int) < old(solution).routes@.len(),
            (r2_idx as int) < old(solution).routes@.len(),
            r1_idx != r2_idx,
            (c1_pos as int) < old(solution).routes@[r1_idx as int].customers@.len(),
            (c2_pos as int) < old(solution).routes@[r2_idx as int].customers@.len(),
        ensures
            final(solution).wf(problem),
            final(solution).caches_ok(problem),
            final(solution).routes@.len() == old(solution).routes@.len(),
            final(solution).giant_tour == old(solution).giant_tour,
            forall|k: int|
                0 <= k < old(solution).routes@.len() && k != r1_idx && k != r2_idx
                    ==> #[trigger] final(solution).routes@[k] == old(solution).routes@[k],
            final(solution).routes@[r1_idx as int].customers@ == old(solution).routes@[r1_idx as int].customers@.update(
                c1_pos as int,
                old(solution).routes@[r2_idx as int].customers@[c2_pos as int],
            ),
            final(solution).routes@[r2_idx as int].customers@ == old(solution).routes@[r2_idx as int].customers@.update(
                c2_pos as int,
                old(solution).routes@[r1_idx as int].customers@[c1_pos as int],
            ),
            concat_routes(final(solution).routes@).to_multiset() == concat_routes(
                old(solution).routes@,
            ).to_multiset(),
    {
        broadcast use vstd::seq_lib::group_to_multiset_ensures;
        broadcast use vstd::seq_lib::to_multiset_update;
        broadcast use vstd::multiset::group_multiset_axioms;

        let ghost routes0 = solution.routes@;
        let customer1 = solution.routes[r1_idx].customers[c1_pos];
        let customer2 = solution.routes[r2_idx].customers[c2_pos];
        let r1 = vstd::std_specs::vec::vec_index_mut(&mut solution.routes, r1_idx);
        *vstd::std_specs::vec::vec_index_mut(&mut r1.customers, c1_pos) = customer2;
        r1.modified = true;
        let r2 = vstd::std_specs::vec::vec_index_mut(&mut solution.routes, r2_idx);
        *vstd::std_specs::vec::vec_index_mut(&mut r2.customers, c2_pos) = customer1;
        r2.modified = true;
        proof {
            let routes2 = solution.routes@;
            let s1 = routes0[r1_idx as int].customers@;
            let s2 = routes0[r2_idx as int].customers@;
            let n1 = routes2[r1_idx as int].customers@;
            let n2 = routes2[r2_idx as int].customers@;
            assert(n1 == s1.update(c1_pos as int, customer2));
            assert(n2 == s2.update(c2_pos as int, customer1));
            assert(n1.to_multiset() == s1.to_multiset().insert(customer2).remove(customer1));
            assert(n2.to_multiset() == s2.to_multiset().insert(customer1).remove(customer2));
            assert(s1.contains(customer1) && s2.contains(customer2));
            assert(s1.to_multiset().count(customer1) > 0);
            assert(s2.to_multiset().count(customer2) > 0);
            assert(n1.to_multiset().add(n2.to_multiset()) =~= s1.to_multiset().add(s2.to_multiset()));
            lemma_two_route_exchange(routes0, r1_idx as int, r2_idx as int, routes2);
            assert(valid_customers(problem, n1)) by {
                assert(forall|q: int| 0 <= q < n1.len() && q != c1_pos ==> n1[q] == #[trigger] s1[q]);
                assert(cust_ok(problem, s2[c2_pos as int]));
            }
            assert(valid_customers(problem, n2)) by {
                assert(forall|q: int| 0 <= q < n2.len() && q != c2_pos ==> n2[q] == #[trigger] s2[q]);
                assert(cust_ok(problem, s1[c1_pos as int]));
            }
            assert(solution.wf(problem));
        }
    }
}

/// A swap changes the solution's distance and excess sums by exactly the
/// two routes' own changes.
proof fn lemma_swap_cost_drop(
    p: &Problem,
    routes0: Seq<Route>,
    mid: Seq<Route>,
    r1_idx: int,
    r2_idx: int,
    c1_pos: int,
    c2_pos: int,
)
    requires
        routes0.len() == mid.len(),
        0 <= r1_idx < routes0.len(),
        0 <= r2_idx < routes0.len(),
        r1_idx != r2_idx,
        0 <= c1_pos < routes0[r1_idx].customers@.len(),
        0 <= c2_pos < routes0[r2_idx].customers@.len(),
        forall|k: int|
            0 <= k < routes0.len() && k != r1_idx && k != r2_idx ==> #[trigger] mid[k] == routes0[k],
        mid[r1_idx].customers@ == routes0[r1_idx].customers@.update(
            c1_pos,
            routes0[r2_idx].customers@[c2_pos],
        ),
        mid[r2_idx].customers@ == routes0[r2_idx].customers@.update(
            c2_pos,
            routes0[r1_idx].customers@[c1_pos],
        ),
    ensures
        sol_dist(p, mid) == sol_dist(p, routes0) + route_dist(
            p,
            routes0[r1_idx].customers@.update(c1_pos, routes0[r2_idx].customers@[c2_pos]),
        ) - route_dist(p, routes0[r1_idx].customers@) + route_dist(
            p,
            routes0[r2_idx].customers@.update(c2_pos, routes0[r1_idx].customers@[c1_pos]),
        ) - route_dist(p, routes0[r2_idx].customers@),
        sol_excess(p, mid) == sol_excess(p, routes0) + excess_of(
            load_of(p, routes0[r1_idx].customers@) - p.demand(routes0[r1_idx].customers@[c1_pos] as int)
                + p.demand(routes0[r2_idx].customers@[c2_pos] as int),
            p.vehicle_capacity as int,
        ) - excess_of(load_of(p, routes0[r1_idx].customers@), p.vehicle_capacity as int) + excess_of(
            load_of(p, routes0[r2_idx].customers@) - p.demand(routes0[r2_idx].customers@[c2_pos] as int)
                + p.demand(routes0[r1_idx].customers@[c1_pos] as int),
            p.vehicle_capacity as int,
        ) - excess_of(load_of(p, routes0[r2_idx].customers@), p.vehicle_capacity as int),
{
    let step1 = routes0.update(r1_idx, mid[r1_idx]);
    assert(mid =~= step1.update(r2_idx, mid[r2_idx]));
    lemma_sol_sums_update(p, routes0, r1_idx, mid[r1_idx]);
    lemma_sol_sums_update(p, step1, r2_idx, mid[r2_idx]);
    assert(step1[r2_idx] == routes0[r2_idx]);
    lemma_load_of_update(p, routes0[r1_idx].customers@, c1_pos, routes0[r2_idx].customers@[c2_pos]);
    lemma_load_of_update(p, routes0[r2_idx].customers@, c2_pos, routes0[r1_idx].customers@[c1_pos]);
}

} // verus!
