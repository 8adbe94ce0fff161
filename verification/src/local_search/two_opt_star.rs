//! 2-Opt*: exchange the tails of two routes after a cut point in each.

use vstd::prelude::*;
use crate::problem::Problem;
use crate::solution::{
    concat_routes, cust_ok, excess_of, lemma_load_of_append, lemma_load_of_bound,
    lemma_routes_same_customers, lemma_sol_sums_update, lemma_two_route_exchange,
    lemma_two_routes_len_le_concat, load_of, route_dist, sol_dist, sol_excess, valid_customers,
    Route, Solution,
};
use super::utils::{
    lemma_path_dist_append, lemma_route_dist_is_aug_path, position_of, tail_load,
};
use super::{move_blocked, penalty_delta, shuffled_indices, LocalSearch};

verus! {

/// The exact penalised-cost change of exchanging the tails after `i` in
/// route `r1` and after `j` in route `r2`.
pub open spec fn two_opt_star_delta(
    sol: &Solution,
    p: &Problem,
    r1: int,
    r2: int,
    i: int,
    j: int,
    capacity_penalty: u64,
) -> int {
    let s1 = sol.routes@[r1].customers@;
    let s2 = sol.routes@[r2].customers@;
    let cap = p.vehicle_capacity as int;
    let l1 = load_of(p, s1.take(i + 1) + s2.skip(j + 1));
    let l2 = load_of(p, s2.take(j + 1) + s1.skip(i + 1));
    crate::PENALTY_UNIT * (route_dist(p, s1.take(i + 1) + s2.skip(j + 1)) - route_dist(p, s1)
        + route_dist(p, s2.take(j + 1) + s1.skip(i + 1)) - route_dist(p, s2)) + capacity_penalty
        * crate::solution::excess_of(l1, cap) - capacity_penalty * crate::solution::excess_of(
        load_of(p, s1),
        cap,
    ) + capacity_penalty * crate::solution::excess_of(l2, cap) - capacity_penalty
        * crate::solution::excess_of(load_of(p, s2), cap)
}

/// Some tail exchange anchored at position `i` of `r1` toward `r2` was
/// measured and found non-improving.
pub open spec fn two_opt_star_settled(
    sol: &Solution,
    p: &Problem,
    capacity_penalty: u64,
    r1: int,
    r2: int,
    i: int,
) -> bool {
    exists|j: int|
        0 <= j < sol.routes@[r2].customers@.len() && #[trigger] two_opt_star_delta(
            sol,
            p,
            r1,
            r2,
            i,
            j,
            capacity_penalty,
        ) >= 0
}

/// The anchor at position `i` of `r1` is accounted for toward `r2`: if
/// any of its granular neighbours sits in `r2`, the anchor was
/// memo-blocked at entry or a tail exchange at it was measured and found
/// non-improving.
pub open spec fn tos_anchor_done(
    entry: &LocalSearch,
    sol: &Solution,
    p: &Problem,
    capacity_penalty: u64,
    r1: int,
    r2: int,
    i: int,
) -> bool {
    forall|k: int|
        #![trigger entry.customer_neighbors@[sol.routes@[r1].customers@[i] as int]@[k]]
        0 <= k < entry.customer_neighbors@[sol.routes@[r1].customers@[i] as int]@.len()
            && sol.routes@[r2].customers@.contains(
            entry.customer_neighbors@[sol.routes@[r1].customers@[i] as int]@[k],
        ) ==> move_blocked(entry, sol.routes@[r1].customers@[i] as int, 3, r2)
            || two_opt_star_settled(sol, p, capacity_penalty, r1, r2, i)
}

/// Every anchor of `r1` whose neighbour list reaches `r2` is accounted
/// for in the direction `r1` to `r2`.
pub open spec fn two_opt_star_pair_done(
    entry: &LocalSearch,
    sol: &Solution,
    p: &Problem,
    capacity_penalty: u64,
    r1: int,
    r2: int,
) -> bool {
    forall|i: int|
        #![trigger sol.routes@[r1].customers@[i]]
        0 <= i < sol.routes@[r1].customers@.len() ==> tos_anchor_done(
            entry,
            sol,
            p,
            capacity_penalty,
            r1,
            r2,
            i,
        )
}

/// What a finished sweep knows of one route pair: either route is empty,
/// or the pair is accounted for in this direction.
pub open spec fn tos_pair_fact(
    entry: &LocalSearch,
    sol: &Solution,
    p: &Problem,
    capacity_penalty: u64,
    r1: int,
    r2: int,
) -> bool {
    ||| sol.routes@[r1].customers@.len() == 0
    ||| sol.routes@[r2].customers@.len() == 0
    ||| two_opt_star_pair_done(entry, sol, p, capacity_penalty, r1, r2)
}

/// Every tail-exchange candidate of a sweep is accounted for in the one
/// direction the sweep drew for each route pair.
pub open spec fn two_opt_star_no_gain(
    entry: &LocalSearch,
    sol: &Solution,
    p: &Problem,
    capacity_penalty: u64,
) -> bool {
    forall|ra: int, rb: int|
        #![trigger sol.routes@[ra], sol.routes@[rb]]
        0 <= ra < rb < sol.routes@.len() && sol.routes@[ra].customers@.len() > 0
            && sol.routes@[rb].customers@.len() > 0 ==> two_opt_star_pair_done(
            entry,
            sol,
            p,
            capacity_penalty,
            ra,
            rb,
        ) || two_opt_star_pair_done(entry, sol, p, capacity_penalty, rb, ra)
}

/// What the sweep's memo stamps mean here: any anchor/target the memo now
/// blocks was blocked at entry or has been measured this sweep.
pub open spec fn memo_inv_two_opt_star(
    entry: &LocalSearch,
    now: &LocalSearch,
    sol: &Solution,
    p: &Problem,
    capacity_penalty: u64,
) -> bool {
    forall|r1: int, i: int, r2: int|
        #![trigger move_blocked(now, sol.routes@[r1].customers@[i] as int, 3, r2)]
        0 <= r1 < sol.routes@.len() && 0 <= i < sol.routes@[r1].customers@.len() && 0 <= r2
            < sol.routes@.len() && r2 != r1 && move_blocked(
            now,
            sol.routes@[r1].customers@[i] as int,
            3,
            r2,
        ) ==> move_blocked(entry, sol.routes@[r1].customers@[i] as int, 3, r2)
            || two_opt_star_settled(sol, p, capacity_penalty, r1, r2, i)
}

/// Exchanging tails after `i` in `s1` and `j` in `s2` replaces exactly the
/// two cut edges: the moved tails carry their inner paths with them.
proof fn lemma_tail_swap(p: &Problem, s1: Seq<usize>, s2: Seq<usize>, i: int, j: int)
    requires
        p.wf(),
        valid_customers(p, s1),
        valid_customers(p, s2),
        0 <= i < s1.len(),
        0 <= j < s2.len(),
    ensures
        ({
            let n1 = if i + 1 < s1.len() {
                s1[i + 1] as int
            } else {
                p.depot_index as int
            };
            let n2 = if j + 1 < s2.len() {
                s2[j + 1] as int
            } else {
                p.depot_index as int
            };
            route_dist(p, s1.take(i + 1) + s2.skip(j + 1)) + route_dist(p, s2.take(j + 1) + s1.skip(i + 1))
                == route_dist(p, s1) + route_dist(p, s2) + p.dist(s1[i] as int, n2) + p.dist(s2[j] as int, n1)
                - p.dist(s1[i] as int, n1) - p.dist(s2[j] as int, n2)
        }),
{
    let a1 = seq![p.depot_index] + s1.take(i + 1);
    let a2 = seq![p.depot_index] + s2.take(j + 1);
    let b1 = s1.skip(i + 1) + seq![p.depot_index];
    let b2 = s2.skip(j + 1) + seq![p.depot_index];
    let r1new = s1.take(i + 1) + s2.skip(j + 1);
    let r2new = s2.take(j + 1) + s1.skip(i + 1);
    assert(super::utils::aug(p, s1) =~= a1 + b1);
    assert(super::utils::aug(p, s2) =~= a2 + b2);
    assert(super::utils::aug(p, r1new) =~= a1 + b2);
    assert(super::utils::aug(p, r2new) =~= a2 + b1);
    lemma_route_dist_is_aug_path(p, s1);
    lemma_route_dist_is_aug_path(p, s2);
    lemma_route_dist_is_aug_path(p, r1new);
    lemma_route_dist_is_aug_path(p, r2new);
    lemma_path_dist_append(p, a1, b1);
    lemma_path_dist_append(p, a1, b2);
    lemma_path_dist_append(p, a2, b1);
    lemma_path_dist_append(p, a2, b2);
    assert(a1.last() == s1[i]);
    assert(a2.last() == s2[j]);
    assert(b1[0] as int == (if i + 1 < s1.len() {
        s1[i + 1] as int
    } else {
        p.depot_index as int
    }));
    assert(b2[0] as int == (if j + 1 < s2.len() {
        s2[j + 1] as int
    } else {
        p.depot_index as int
    }));
}

impl LocalSearch {
    /// Try every 2-Opt* move in granular-neighbour order and apply the
    /// first improving one; report whether one was applied.  The customers
    /// keep exactly their multiset.
    pub fn two_opt_star_neighborhood(
        &mut self,
        solution: &mut Solution,
        problem: &Problem,
        capacity_penalty: u64,
    ) -> (improved: bool)
        requires
            problem.wf(),
            old(solution).wf(problem),
            old(solution).evaluated(problem, capacity_penalty),
            concat_routes(old(solution).routes@).no_duplicates(),
            old(self).neighbors_ready(problem),
            old(self).n_tracked_routes() == old(solution).routes@.len(),
        ensures
            final(self).neighbors_ready(problem),
            final(self).granularity == old(self).granularity,
            final(self).n_tracked_routes() == final(solution).routes@.len(),
            final(solution).routes@.len() == old(solution).routes@.len(),
            final(solution).giant_tour == old(solution).giant_tour,
            final(solution).wf(problem),
            final(solution).evaluated(problem, capacity_penalty),
            concat_routes(final(solution).routes@).to_multiset() == concat_routes(
                old(solution).routes@,
            ).to_multiset(),
            concat_routes(final(solution).routes@).no_duplicates(),
            improved ==> final(solution).cost < old(solution).cost,
            !improved ==> *final(solution) == *old(solution),
            !improved ==> two_opt_star_no_gain(old(self), old(solution), problem, capacity_penalty),
    {
        proof {
            crate::solution::lemma_concat_nodup(old(solution).routes@);
        }
        let nroutes = solution.routes.len();
        let route_indices = shuffled_indices(nroutes);
        let mut r1p: usize = 0;
        while r1p < nroutes
            invariant
                problem.wf(),
                *solution == *old(solution),
                solution.wf(problem),
                solution.evaluated(problem, capacity_penalty),
                self.neighbors_ready(problem),
                self.granularity == old(self).granularity,
                self.route_timestamps == old(self).route_timestamps,
                self.customer_neighbors == old(self).customer_neighbors,
                self.n_tracked_routes() == solution.routes@.len(),
                nroutes == solution.routes@.len(),
                concat_routes(solution.routes@).no_duplicates(),
                route_indices@.len() == nroutes,
                forall|q: int| 0 <= q < nroutes ==> (#[trigger] route_indices@[q] as int) < nroutes,
                route_indices@.no_duplicates(),
                forall|v: usize| (v as int) < nroutes ==> route_indices@.contains(v),
                r1p <= nroutes,
                memo_inv_two_opt_star(old(self), self, solution, problem, capacity_penalty),
                forall|a: int, b: int|
                    0 <= a < r1p && a < b < nroutes ==> tos_pair_fact(
                        old(self),
                        solution,
                        problem,
                        capacity_penalty,
                        #[trigger] route_indices@[a] as int,
                        #[trigger] route_indices@[b] as int,
                    ),
            decreases nroutes - r1p,
        {
            let r1_idx = route_indices[r1p];
            let n1 = solution.routes[r1_idx].customers.len();
            if n1 > 0 {
                let mut r2p: usize = r1p + 1;
                while r2p < nroutes
                    invariant
                        problem.wf(),
                        *solution == *old(solution),
                        solution.wf(problem),
                        solution.evaluated(problem, capacity_penalty),
                        self.neighbors_ready(problem),
                        self.granularity == old(self).granularity,
                        self.route_timestamps == old(self).route_timestamps,
                        self.customer_neighbors == old(self).customer_neighbors,
                        self.n_tracked_routes() == solution.routes@.len(),
                        nroutes == solution.routes@.len(),
                        concat_routes(solution.routes@).no_duplicates(),
                        route_indices@.len() == nroutes,
                        forall|q: int|
                            0 <= q < nroutes ==> (#[trigger] route_indices@[q] as int) < nroutes,
                        (r1_idx as int) < nroutes,
                        n1 == solution.routes@[r1_idx as int].customers@.len(),
                        n1 > 0,
                        route_indices@.no_duplicates(),
                        r1_idx == route_indices@[r1p as int],
                        r1p < r2p <= nroutes,
                        memo_inv_two_opt_star(old(self), self, solution, problem, capacity_penalty),
                        forall|b: int|
                            r1p < b < r2p ==> tos_pair_fact(
                                old(self),
                                solution,
                                problem,
                                capacity_penalty,
                                r1_idx as int,
                                #[trigger] route_indices@[b] as int,
                            ),
                    decreases nroutes - r2p,
                {
                    let r2_idx = route_indices[r2p];
                    let n2 = solution.routes[r2_idx].customers.len();
                    if n2 > 0 && r2_idx != r1_idx {
                        let mut i: usize = 0;
                        while i < n1
                            invariant
                                problem.wf(),
                                *solution == *old(solution),
                                solution.wf(problem),
                                solution.evaluated(problem, capacity_penalty),
                                self.neighbors_ready(problem),
                                self.granularity == old(self).granularity,
                                self.route_timestamps == old(self).route_timestamps,
                                self.customer_neighbors == old(self).customer_neighbors,
                                self.n_tracked_routes() == solution.routes@.len(),
                                nroutes == solution.routes@.len(),
                                concat_routes(solution.routes@).no_duplicates(),
                                (r1_idx as int) < nroutes,
                                (r2_idx as int) < nroutes,
                                r1_idx != r2_idx,
                                n1 == solution.routes@[r1_idx as int].customers@.len(),
                                n2 == solution.routes@[r2_idx as int].customers@.len(),
                                n1 > 0,
                                n2 > 0,
                                i <= n1,
                                memo_inv_two_opt_star(old(self), self, solution, problem, capacity_penalty),
                                forall|i0: int|
                                    #![trigger solution.routes@[r1_idx as int].customers@[i0]]
                                    0 <= i0 < i ==> tos_anchor_done(
                                        old(self),
                                        solution,
                                        problem,
                                        capacity_penalty,
                                        r1_idx as int,
                                        r2_idx as int,
                                        i0,
                                    ),
                            decreases n1 - i,
                        {
                            let customer1 = solution.routes[r1_idx].customers[i];
                            proof {
                                assert(solution.routes@[r1_idx as int].wf(problem));
                                assert(cust_ok(
                                    problem,
                                    solution.routes@[r1_idx as int].customers@[i as int],
                                ));
                            }
                            let neighbors = super::utils::clone_indices(
                                &self.customer_neighbors[customer1],
                            );
                            let mut np: usize = 0;
                            while np < neighbors.len()
                                invariant
                                    problem.wf(),
                                    *solution == *old(solution),
                                    solution.wf(problem),
                                    solution.evaluated(problem, capacity_penalty),
                                    self.neighbors_ready(problem),
                                    self.granularity == old(self).granularity,
                                    self.route_timestamps == old(self).route_timestamps,
                                    self.customer_neighbors == old(self).customer_neighbors,
                                    self.n_tracked_routes() == solution.routes@.len(),
                                    nroutes == solution.routes@.len(),
                                    concat_routes(solution.routes@).no_duplicates(),
                                    (r1_idx as int) < nroutes,
                                    (r2_idx as int) < nroutes,
                                    r1_idx != r2_idx,
                                    n1 == solution.routes@[r1_idx as int].customers@.len(),
                                    n2 == solution.routes@[r2_idx as int].customers@.len(),
                                    n2 > 0,
                                    (i as int) < n1,
                                    customer1 == solution.routes@[r1_idx as int].customers@[i as int],
                                    neighbors@ == old(self).customer_neighbors@[customer1 as int]@,
                                    np <= neighbors@.len(),
                                    memo_inv_two_opt_star(old(self), self, solution, problem, capacity_penalty),
                                    forall|k0: int|
                                        #![trigger neighbors@[k0]]
                                        0 <= k0 < np && solution.routes@[r2_idx as int].customers@.contains(
                                            neighbors@[k0],
                                        ) ==> move_blocked(old(self), customer1 as int, 3, r2_idx as int)
                                            || two_opt_star_settled(
                                            solution,
                                            problem,
                                            capacity_penalty,
                                            r1_idx as int,
                                            r2_idx as int,
                                            i as int,
                                        ),
                                decreases neighbors@.len() - np,
                            {
                                let neighbor = neighbors[np];
                                let pos_found = position_of(&solution.routes[r2_idx], neighbor);
                                match pos_found {
                                    None => {},
                                    Some(j) => {
                                        let ghost pre_self = *self;
                                        let tested = self.is_move_valid(customer1, 3, r2_idx);
                                        proof {
                                            if !tested {
                                                assert(move_blocked(
                                                    &pre_self,
                                                    customer1 as int,
                                                    3,
                                                    r2_idx as int,
                                                ));
                                            }
                                        }
                                        if tested {
                                            let delta = Self::evaluate_two_opt_star(
                                                solution,
                                                problem,
                                                r1_idx,
                                                r2_idx,
                                                i,
                                                j,
                                                capacity_penalty,
                                            );
                                            proof {
                                                if delta >= 0 {
                                                    assert(two_opt_star_delta(
                                                        solution,
                                                        problem,
                                                        r1_idx as int,
                                                        r2_idx as int,
                                                        i as int,
                                                        j as int,
                                                        capacity_penalty,
                                                    ) >= 0);
                                                    assert(two_opt_star_settled(
                                                        solution,
                                                        problem,
                                                        capacity_penalty,
                                                        r1_idx as int,
                                                        r2_idx as int,
                                                        i as int,
                                                    ));
                                                }
                                                // The fresh stamp only blocks
                                                // this anchor/target pair.
                                                crate::solution::lemma_concat_nodup(solution.routes@);
                                                assert forall|ra: int, ia: int, rb: int|
                                                    #![trigger move_blocked(self, solution.routes@[ra].customers@[ia] as int, 3, rb)]
                                                    0 <= ra < solution.routes@.len() && 0 <= ia
                                                        < solution.routes@[ra].customers@.len() && 0 <= rb
                                                        < solution.routes@.len() && rb != ra
                                                        && move_blocked(
                                                        self,
                                                        solution.routes@[ra].customers@[ia] as int,
                                                        3,
                                                        rb,
                                                    ) && delta >= 0 implies move_blocked(
                                                    old(self),
                                                    solution.routes@[ra].customers@[ia] as int,
                                                    3,
                                                    rb,
                                                ) || two_opt_star_settled(
                                                    solution,
                                                    problem,
                                                    capacity_penalty,
                                                    ra,
                                                    rb,
                                                    ia,
                                                ) by {
                                                    let cv = solution.routes@[ra].customers@[ia];
                                                    if !move_blocked(&pre_self, cv as int, 3, rb) {
                                                        assert(cust_ok(problem, cv)) by {
                                                            assert(solution.routes@[ra].wf(problem));
                                                        }
                                                        super::lemma_move_key_injective(
                                                            cv as int,
                                                            3,
                                                            rb,
                                                            customer1 as int,
                                                            3,
                                                            r2_idx as int,
                                                        );
                                                        assert(cv == customer1 && rb == r2_idx);
                                                        assert(ra == r1_idx && ia == i) by {
                                                            if ra != r1_idx {
                                                                assert(solution.routes@[ra].customers@.contains(
                                                                    cv,
                                                                ));
                                                                assert(solution.routes@[r1_idx as int].customers@.contains(
                                                                    customer1,
                                                                ));
                                                            } else {
                                                                assert(solution.routes@[r1_idx as int].customers@.no_duplicates());
                                                            }
                                                        }
                                                    }
                                                }
                                            }
                                            if delta < 0 {
                                                let ghost routes0 = solution.routes@;
                                                let ghost cost0 = solution.cost;
                                                Self::apply_two_opt_star(
                                                    solution,
                                                    problem,
                                                    r1_idx,
                                                    r2_idx,
                                                    i,
                                                    j,
                                                );
                                                self.update_route_timestamp(r1_idx);
                                                self.update_route_timestamp(r2_idx);
                                                let ghost mid = solution.routes@;
                                                solution.evaluate(problem, capacity_penalty);
                                                proof {
                                                    lemma_routes_same_customers(
                                                        problem,
                                                        solution.routes@,
                                                        mid,
                                                    );
                                                    lemma_tail_swap_cost_drop(
                                                        problem,
                                                        routes0,
                                                        mid,
                                                        r1_idx as int,
                                                        r2_idx as int,
                                                        i as int,
                                                        j as int,
                                                    );
                                                    let s1 = routes0[r1_idx as int].customers@;
                                                    let s2 = routes0[r2_idx as int].customers@;
                                                    let cap = problem.vehicle_capacity as int;
                                                    let se0 = sol_excess(problem, routes0);
                                                    let e1 = excess_of(load_of(problem, s1), cap);
                                                    let e2 = excess_of(load_of(problem, s2), cap);
                                                    let e1p = excess_of(
                                                        load_of(problem, s1.take(i + 1) + s2.skip(j + 1)),
                                                        cap,
                                                    );
                                                    let e2p = excess_of(
                                                        load_of(problem, s2.take(j + 1) + s1.skip(i + 1)),
                                                        cap,
                                                    );
                                                    let pen = capacity_penalty as int;
                                                    assert(pen * (se0 + e1p - e1 + e2p - e2) == pen * se0
                                                        + pen * e1p - pen * e1 + pen * e2p - pen * e2)
                                                        by (nonlinear_arith);
                                                    assert(solution.cost as int == cost0 + delta);
                                                    assert(solution.cost < cost0);
                                                    broadcast use vstd::seq_lib::group_to_multiset_ensures;

                                                    concat_routes(
                                                        routes0,
                                                    ).lemma_multiset_has_no_duplicates();
                                                    concat_routes(
                                                        solution.routes@,
                                                    ).lemma_multiset_has_no_duplicates_conv();
                                                }
                                                return true;
                                            }
                                        }
                                    },
                                }
                                np += 1;
                            }
                            proof {
                                assert forall|k: int|
                                    0 <= k < old(self).customer_neighbors@[customer1 as int]@.len()
                                        && solution.routes@[r2_idx as int].customers@.contains(
                                        #[trigger] old(self).customer_neighbors@[customer1 as int]@[k],
                                    ) implies move_blocked(old(self), customer1 as int, 3, r2_idx as int)
                                    || two_opt_star_settled(
                                    solution,
                                    problem,
                                    capacity_penalty,
                                    r1_idx as int,
                                    r2_idx as int,
                                    i as int,
                                ) by {
                                    assert(neighbors@[k] == old(self).customer_neighbors@[customer1 as int]@[k]);
                                }
                                assert(tos_anchor_done(
                                    old(self),
                                    solution,
                                    problem,
                                    capacity_penalty,
                                    r1_idx as int,
                                    r2_idx as int,
                                    i as int,
                                ));
                            }
                            i += 1;
                        }
                        proof {
                            assert(two_opt_star_pair_done(
                                old(self),
                                solution,
                                problem,
                                capacity_penalty,
                                r1_idx as int,
                                r2_idx as int,
                            ));
                        }
                    }
                    proof {
                        if r2_idx == r1_idx {
                            assert(route_indices@[r1p as int] == route_indices@[r2p as int]);
                            assert(false);
                        }
                        assert(tos_pair_fact(
                            old(self),
                            solution,
                            problem,
                            capacity_penalty,
                            r1_idx as int,
                            r2_idx as int,
                        ));
                    }
                    r2p += 1;
                }
            }
            proof {
                assert forall|b: int| r1p < b < nroutes implies tos_pair_fact(
                    old(self),
                    solution,
                    problem,
                    capacity_penalty,
                    route_indices@[r1p as int] as int,
                    #[trigger] route_indices@[b] as int,
                ) by {
                    if n1 == 0 {
                        assert(solution.routes@[route_indices@[r1p as int] as int].customers@.len()
                            == 0);
                    }
                }
            }
            r1p += 1;
        }
        proof {
            assert forall|ra: int, rb: int|
                #![trigger solution.routes@[ra], solution.routes@[rb]]
                0 <= ra < rb < solution.routes@.len() && solution.routes@[ra].customers@.len() > 0
                    && solution.routes@[rb].customers@.len() > 0 implies two_opt_star_pair_done(
                old(self),
                solution,
                problem,
                capacity_penalty,
                ra,
                rb,
            ) || two_opt_star_pair_done(old(self), solution, problem, capacity_penalty, rb, ra) by {
                let va: usize = ra as usize;
                let vb: usize = rb as usize;
                assert(route_indices@.contains(va));
                assert(route_indices@.contains(vb));
                let a = choose|a: int| 0 <= a < route_indices@.len() && route_indices@[a] == va;
                let b = choose|b: int| 0 <= b < route_indices@.len() && route_indices@[b] == vb;
                if a < b {
                    assert(tos_pair_fact(
                        old(self),
                        solution,
                        problem,
                        capacity_penalty,
                        route_indices@[a] as int,
                        route_indices@[b] as int,
                    ));
                } else {
                    assert(tos_pair_fact(
                        old(self),
                        solution,
                        problem,
                        capacity_penalty,
                        route_indices@[b] as int,
                        route_indices@[a] as int,
                    ));
                }
            }
            assert(two_opt_star_no_gain(old(self), solution, problem, capacity_penalty));
            assert(*solution == *old(solution));
        }
        false
    }

    /// The exact penalised-cost change of exchanging the tails after `i`
    /// in route `r1_idx` and after `j` in route `r2_idx`.
    fn evaluate_two_opt_star(
        solution: &Solution,
        problem: &Problem,
        r1_idx: usize,
        r2_idx: usize,
        i: usize,
        j: usize,
        capacity_penalty: u64,
    ) -> (delta: i128)
        requires
            problem.wf(),
            solution.wf(problem),
            solution.routes_fresh(problem),
            (r1_idx as int) < solution.routes@.len(),
            (r2_idx as int) < solution.routes@.len(),
            r1_idx != r2_idx,
            (i as int) < solution.routes@[r1_idx as int].customers@.len(),
            (j as int) < solution.routes@[r2_idx as int].customers@.len(),
        ensures
            delta as int == two_opt_star_delta(
                solution,
                problem,
                r1_idx as int,
                r2_idx as int,
                i as int,
                j as int,
                capacity_penalty,
            ),
    {
        let r1 = &solution.routes[r1_idx];
        let r2 = &solution.routes[r2_idx];
        proof {
            assert(solution.routes@[r1_idx as int].wf(problem));
            assert(solution.routes@[r2_idx as int].wf(problem));
        }
        let customer1 = r1.customers[i];
        let customer2 = r2.customers[j];
        let r1_tail_load = tail_load(r1, i + 1, problem);
        let r2_tail_load = tail_load(r2, j + 1, problem);
        proof {
            let s1 = solution.routes@[r1_idx as int].customers@;
            let s2 = solution.routes@[r2_idx as int].customers@;
            assert(s1 =~= s1.take(i + 1) + s1.skip(i + 1));
            assert(s2 =~= s2.take(j + 1) + s2.skip(j + 1));
            lemma_load_of_append(problem, s1.take(i + 1), s1.skip(i + 1));
            lemma_load_of_append(problem, s2.take(j + 1), s2.skip(j + 1));
            lemma_load_of_append(problem, s1.take(i + 1), s2.skip(j + 1));
            lemma_load_of_append(problem, s2.take(j + 1), s1.skip(i + 1));
            lemma_load_of_bound(problem, s1);
            lemma_load_of_bound(problem, s2);
            assert(valid_customers(problem, s1.take(i + 1))) by {
                assert(forall|q: int| 0 <= q <= i ==> s1.take(i + 1)[q] == #[trigger] s1[q]);
            }
            assert(valid_customers(problem, s2.take(j + 1))) by {
                assert(forall|q: int| 0 <= q <= j ==> s2.take(j + 1)[q] == #[trigger] s2[q]);
            }
            lemma_load_of_bound(problem, s1.take(i + 1));
            lemma_load_of_bound(problem, s2.take(j + 1));
        }
        let r1_new_load = r1.load - r1_tail_load + r2_tail_load;
        let r2_new_load = r2.load - r2_tail_load + r1_tail_load;
        let next1 = if i + 1 < r1.customers.len() {
            r1.customers[i + 1]
        } else {
            problem.depot_index
        };
        let next2 = if j + 1 < r2.customers.len() {
            r2.customers[j + 1]
        } else {
            problem.depot_index
        };
        let old_dist = problem.get_distance(customer1, next1) + problem.get_distance(customer2, next2);
        let new_dist = problem.get_distance(customer1, next2) + problem.get_distance(customer2, next1);
        let distance_delta = (new_dist as i128) - (old_dist as i128);
        let r1_pen = penalty_delta(capacity_penalty, r1.load, r1_new_load, problem.vehicle_capacity);
        let r2_pen = penalty_delta(capacity_penalty, r2.load, r2_new_load, problem.vehicle_capacity);
        proof {
            let s1 = solution.routes@[r1_idx as int].customers@;
            let s2 = solution.routes@[r2_idx as int].customers@;
            lemma_tail_swap(problem, s1, s2, i as int, j as int);
            assert(-20_000_000_000_000 <= (crate::PENALTY_UNIT as int) * (distance_delta as int)
                <= 20_000_000_000_000) by (nonlinear_arith)
                requires
                    -12_000_000_000 <= distance_delta <= 12_000_000_000,
                    crate::PENALTY_UNIT == 1000,
            ;
        }
        (crate::PENALTY_UNIT as i128) * distance_delta + r1_pen + r2_pen
    }

    /// Exchange the two tails, marking both routes modified.
    fn apply_two_opt_star(
        solution: &mut Solution,
        problem: &Problem,
        r1_idx: usize,
        r2_idx: usize,
        i: usize,
        j: usize,
    )
        requires
            problem.wf(),
            old(solution).wf(problem),
            old(solution).caches_ok(problem),
            (r1_idx as int) < old(solution).routes@.len(),
            (r2_idx as int) < old(solution).routes@.len(),
            r1_idx != r2_idx,
            (i as int) < old(solution).routes@[r1_idx as int].customers@.len(),
            (j as int) < old(solution).routes@[r2_idx as int].customers@.len(),
        ensures
            final(solution).wf(problem),
            final(solution).caches_ok(problem),
            final(solution).routes@.len() == old(solution).routes@.len(),
            final(solution).giant_tour == old(solution).giant_tour,
            forall|k: int|
                0 <= k < old(solution).routes@.len() && k != r1_idx && k != r2_idx
                    ==> #[trigger] final(solution).routes@[k] == old(solution).routes@[k],
            final(solution).routes@[r1_idx as int].customers@ == old(solution).routes@[r1_idx as int].customers@.take(
                i + 1,
            ) + old(solution).routes@[r2_idx as int].customers@.skip(j + 1),
            final(solution).routes@[r2_idx as int].customers@ == old(solution).routes@[r2_idx as int].customers@.take(
                j + 1,
            ) + old(solution).routes@[r1_idx as int].customers@.skip(i + 1),
            concat_routes(final(solution).routes@).to_multiset() == concat_routes(
                old(solution).routes@,
            ).to_multiset(),
    {
        broadcast use vstd::multiset::group_multiset_axioms;

        let ghost routes0 = solution.routes@;
        proof {
            lemma_two_routes_len_le_concat(routes0, r1_idx as int, r2_idx as int);
        }
        let r1 = vstd::std_specs::vec::vec_index_mut(&mut solution.routes, r1_idx);
        let mut r1_tail = r1.customers.split_off(i + 1);
        r1.modified = true;
        let r2 = vstd::std_specs::vec::vec_index_mut(&mut solution.routes, r2_idx);
        let mut r2_tail = r2.customers.split_off(j + 1);
        r2.customers.append(&mut r1_tail);
        r2.modified = true;
        let r1b = vstd::std_specs::vec::vec_index_mut(&mut solution.routes, r1_idx);
        r1b.customers.append(&mut r2_tail);
        proof {
            let routes2 = solution.routes@;
            let s1 = routes0[r1_idx as int].customers@;
            let s2 = routes0[r2_idx as int].customers@;
            let m1 = routes2[r1_idx as int].customers@;
            let m2 = routes2[r2_idx as int].customers@;
            assert(m1 == s1.subrange(0, i + 1) + s2.subrange(j + 1, s2.len() as int));
            assert(m2 == s2.subrange(0, j + 1) + s1.subrange(i + 1, s1.len() as int));
            assert(s1.subrange(0, i + 1) =~= s1.take(i + 1));
            assert(s2.subrange(0, j + 1) =~= s2.take(j + 1));
            assert(s1.subrange(i + 1, s1.len() as int) =~= s1.skip(i + 1));
            assert(s2.subrange(j + 1, s2.len() as int) =~= s2.skip(j + 1));
            vstd::seq_lib::lemma_multiset_commutative(s1.take(i + 1), s2.skip(j + 1));
            vstd::seq_lib::lemma_multiset_commutative(s2.take(j + 1), s1.skip(i + 1));
            vstd::seq_lib::lemma_multiset_commutative(s1.take(i + 1), s1.skip(i + 1));
            vstd::seq_lib::lemma_multiset_commutative(s2.take(j + 1), s2.skip(j + 1));
            assert(s1 =~= s1.take(i + 1) + s1.skip(i + 1));
            assert(s2 =~= s2.take(j + 1) + s2.skip(j + 1));
            assert(m1.to_multiset().add(m2.to_multiset()) =~= s1.to_multiset().add(s2.to_multiset()));
            lemma_two_route_exchange(routes0, r1_idx as int, r2_idx as int, routes2);
            assert(routes0[r1_idx as int].wf(problem));
            assert(routes0[r2_idx as int].wf(problem));
            assert(valid_customers(problem, m1)) by {
                assert(forall|q: int|
                    0 <= q < m1.len()
                        ==> m1[q] == (if q <= i {
                            #[trigger] s1[q]
                        } else {
                            s2[j + 1 + (q - i - 1)]
                        }));
            }
            assert(valid_customers(problem, m2)) by {
                assert(forall|q: int|
                    0 <= q < m2.len()
                        ==> m2[q] == (if q <= j {
                            #[trigger] s2[q]
                        } else {
                            s1[i + 1 + (q - j - 1)]
                        }));
            }
            assert(solution.wf(problem));
        }
    }
}

/// A tail exchange changes the solution's distance and excess sums by
/// exactly the two routes' own changes.
proof fn lemma_tail_swap_cost_drop(
    p: &Problem,
    routes0: Seq<Route>,
    mid: Seq<Route>,
    r1_idx: int,
    r2_idx: int,
    i: int,
    j: int,
)
    requires
        routes0.len() == mid.len(),
        0 <= r1_idx < routes0.len(),
        0 <= r2_idx < routes0.len(),
        r1_idx != r2_idx,
        0 <= i < routes0[r1_idx].customers@.len(),
        0 <= j < routes0[r2_idx].customers@.len(),
        forall|k: int|
            0 <= k < routes0.len() && k != r1_idx && k != r2_idx ==> #[trigger] mid[k] == routes0[k],
        mid[r1_idx].customers@ == routes0[r1_idx].customers@.take(i + 1) + routes0[r2_idx].customers@.skip(
            j + 1,
        ),
        mid[r2_idx].customers@ == routes0[r2_idx].customers@.take(j + 1) + routes0[r1_idx].customers@.skip(
            i + 1,
        ),
    ensures
        sol_dist(p, mid) == sol_dist(p, routes0) + route_dist(p, mid[r1_idx].customers@) - route_dist(
            p,
            routes0[r1_idx].customers@,
        ) + route_dist(p, mid[r2_idx].customers@) - route_dist(p, routes0[r2_idx].customers@),
        sol_excess(p, mid) == sol_excess(p, routes0) + excess_of(
            load_of(p, mid[r1_idx].customers@),
            p.vehicle_capacity as int,
        ) - excess_of(load_of(p, routes0[r1_idx].customers@), p.vehicle_capacity as int) + excess_of(
            load_of(p, mid[r2_idx].customers@),
            p.vehicle_capacity as int,
        ) - excess_of(load_of(p, routes0[r2_idx].customers@), p.vehicle_capacity as int),
{
    let step1 = routes0.update(r1_idx, mid[r1_idx]);
    assert(mid =~= step1.update(r2_idx, mid[r2_idx]));
    lemma_sol_sums_update(p, routes0, r1_idx, mid[r1_idx]);
    lemma_sol_sums_update(p, step1, r2_idx, mid[r2_idx]);
    assert(step1[r2_idx] == routes0[r2_idx]);
}

} // verus!
