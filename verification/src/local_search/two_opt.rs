//! 2-Opt: reverse a segment of one route to uncross its edges.

use vstd::prelude::*;
use crate::problem::Problem;
use crate::solution::{
    concat_routes, cust_ok, excess_of, lemma_load_of_multiset, lemma_one_route_exchange,
    lemma_routes_same_customers, lemma_sol_sums_update, load_of, route_dist, sol_dist, sol_excess,
    valid_customers, Solution,
};
use crate::PENALTY_UNIT;
use super::utils::{lemma_path_dist_append, lemma_path_dist_reverse, lemma_route_dist_is_aug_path};
use super::{move_blocked, shuffled_indices, LocalSearch};

verus! {

/// The route after a 2-Opt move on positions `i < j`: the segment strictly
/// between them, bounds included on the right, runs backwards.
pub open spec fn reversed_seq(s: Seq<usize>, i: int, j: int) -> Seq<usize> {
    s.take(i + 1) + s.subrange(i + 1, j + 1).reverse() + s.skip(j + 1)
}

/// The exact distance change of that move: two edges are replaced, and the
/// reversed segment itself keeps its length because the matrix is
/// symmetric.
pub open spec fn two_opt_delta(p: &Problem, s: Seq<usize>, i: int, j: int) -> int {
    let nj = if j + 1 < s.len() {
        s[j + 1] as int
    } else {
        p.depot_index as int
    };
    p.dist(s[i] as int, s[j] as int) + p.dist(s[i + 1] as int, nj) - p.dist(s[i] as int, s[i + 1] as int)
        - p.dist(s[j] as int, nj)
}

/// A 2-Opt move changes the round trip by exactly `two_opt_delta`, and
/// keeps the customers' multiset.
pub proof fn lemma_two_opt(p: &Problem, s: Seq<usize>, i: int, j: int)
    requires
        p.wf(),
        valid_customers(p, s),
        0 <= i,
        i + 1 <= j < s.len(),
    ensures
        route_dist(p, reversed_seq(s, i, j)) == route_dist(p, s) + two_opt_delta(p, s, i, j),
        reversed_seq(s, i, j).to_multiset() == s.to_multiset(),
        reversed_seq(s, i, j).len() == s.len(),
        valid_customers(p, reversed_seq(s, i, j)),
{
    broadcast use vstd::multiset::group_multiset_axioms;

    let a = seq![p.depot_index] + s.take(i + 1);
    let m = s.subrange(i + 1, j + 1);
    let b = s.skip(j + 1) + seq![p.depot_index];
    let rev = reversed_seq(s, i, j);
    assert(valid_customers(p, m)) by {
        assert(forall|q: int| 0 <= q < m.len() ==> m[q] == #[trigger] s[i + 1 + q]);
    }
    assert(valid_customers(p, rev)) by {
        assert(forall|q: int|
            0 <= q < rev.len()
                ==> rev[q] == (if q <= i {
                    #[trigger] s[q]
                } else if q <= j {
                    s[i + 1 + j - q]
                } else {
                    s[q]
                }));
    }
    assert(super::utils::aug(p, s) =~= a + m + b);
    assert(super::utils::aug(p, rev) =~= a + m.reverse() + b);
    lemma_route_dist_is_aug_path(p, s);
    lemma_route_dist_is_aug_path(p, rev);
    lemma_path_dist_reverse(p, m);
    assert(a + m + b =~= (a + m) + b);
    assert(a + m.reverse() + b =~= (a + m.reverse()) + b);
    lemma_path_dist_append(p, a, m);
    lemma_path_dist_append(p, a + m, b);
    lemma_path_dist_append(p, a, m.reverse());
    lemma_path_dist_append(p, a + m.reverse(), b);
    assert(a.last() == s[i]);
    assert(m[0] == s[i + 1]);
    assert(m.last() == s[j]);
    assert(m.reverse()[0] == m.last());
    assert(m.reverse().last() == m[0]);
    assert((a + m).last() == m.last());
    assert((a + m.reverse()).last() == m.reverse().last());
    assert(b[0] as int == (if j + 1 < s.len() {
        s[j + 1] as int
    } else {
        p.depot_index as int
    }));
    vstd::seq_lib::lemma_multiset_commutative(s.take(i + 1), m.reverse());
    vstd::seq_lib::lemma_multiset_commutative(s.take(i + 1) + m.reverse(), s.skip(j + 1));
    vstd::seq_lib::lemma_multiset_commutative(s.take(i + 1), m);
    vstd::seq_lib::lemma_multiset_commutative(s.take(i + 1) + m, s.skip(j + 1));
    m.lemma_reverse_to_multiset();
    assert(s =~= s.take(i + 1) + m + s.skip(j + 1));
    assert(rev =~= (s.take(i + 1) + m.reverse()) + s.skip(j + 1));
    assert(s =~= (s.take(i + 1) + m) + s.skip(j + 1));
    assert(rev.to_multiset() =~= s.to_multiset());
}

/// Some reversal anchored at position `i` was measured and does not
/// shorten the route.
pub open spec fn two_opt_settled(p: &Problem, s: Seq<usize>, i: int) -> bool {
    exists|j: int| i + 2 <= j < s.len() && #[trigger] two_opt_delta(p, s, i, j) >= 0
}

/// The 2-Opt candidates anchored at position `i` of route `r` are
/// accounted for: the anchor was already memo-blocked when the sweep
/// began, or a reversal at it was measured and found non-improving.
pub open spec fn two_opt_done(entry: &LocalSearch, sol: &Solution, p: &Problem, r: int, i: int) -> bool {
    ||| move_blocked(entry, sol.routes@[r].customers@[i] as int, 2, r)
    ||| two_opt_settled(p, sol.routes@[r].customers@, i)
}

/// Every 2-Opt candidate of a sweep over the whole solution is accounted
/// for, so a sweep that reports no improvement owes this of every anchor.
pub open spec fn two_opt_no_gain(entry: &LocalSearch, sol: &Solution, p: &Problem) -> bool {
    forall|r: int, i: int|
        #![trigger sol.routes@[r].customers@[i]]
        0 <= r < sol.routes@.len() && sol.routes@[r].customers@.len() >= 4 && 0 <= i && i + 2
            < sol.routes@[r].customers@.len() ==> two_opt_done(entry, sol, p, r, i)
}

/// Every anchor of one route is accounted for (trivial on short routes).
pub open spec fn two_opt_route_done(entry: &LocalSearch, sol: &Solution, p: &Problem, r: int) -> bool {
    ||| sol.routes@[r].customers@.len() < 4
    ||| forall|i: int|
        #![trigger sol.routes@[r].customers@[i]]
        0 <= i && i + 2 < sol.routes@[r].customers@.len() ==> two_opt_done(entry, sol, p, r, i)
}

/// What the sweep's memo stamps mean: any anchor the memo now blocks was
/// either blocked at entry or has been measured during this sweep.
pub open spec fn memo_inv_two_opt(entry: &LocalSearch, now: &LocalSearch, sol: &Solution, p: &Problem) -> bool {
    forall|r: int, i: int|
        #![trigger sol.routes@[r].customers@[i]]
        0 <= r < sol.routes@.len() && sol.routes@[r].customers@.len() >= 4 && 0 <= i && i + 2
            < sol.routes@[r].customers@.len() && move_blocked(
            now,
            sol.routes@[r].customers@[i] as int,
            2,
            r,
        ) ==> two_opt_done(entry, sol, p, r, i)
}

impl LocalSearch {
    /// Try every 2-Opt move in random order and apply the first improving
    /// one; report whether one was applied.  The customers keep exactly
    /// their multiset, and each accepted move keeps its route's load.
    /// When no move is applied, every candidate was either memo-blocked at
    /// entry or measured non-improving: success is owed wherever an
    /// unblocked improving reversal exists.
    pub fn two_opt_neighborhood(
        &mut self,
        solution: &mut Solution,
        problem: &Problem,
        capacity_penalty: u64,
    ) -> (improved: bool)
        requires
            problem.wf(),
            old(solution).wf(problem),
            old(solution).evaluated(problem, capacity_penalty),
            concat_routes(old(solution).routes@).no_duplicates(),
            old(self).neighbors_ready(problem),
            old(self).n_tracked_routes() == old(solution).routes@.len(),
        ensures
            final(self).neighbors_ready(problem),
            final(self).granularity == old(self).granularity,
            final(self).n_tracked_routes() == final(solution).routes@.len(),
            final(solution).routes@.len() == old(solution).routes@.len(),
            final(solution).giant_tour == old(solution).giant_tour,
            final(solution).wf(problem),
            final(solution).evaluated(problem, capacity_penalty),
            concat_routes(final(solution).routes@).to_multiset() == concat_routes(
                old(solution).routes@,
            ).to_multiset(),
            concat_routes(final(solution).routes@).no_duplicates(),
            improved ==> final(solution).cost < old(solution).cost,
            !improved ==> *final(solution) == *old(solution),
            !improved ==> two_opt_no_gain(old(self), old(solution), problem),
    {
        proof {
            crate::solution::lemma_concat_nodup(old(solution).routes@);
        }
        let nroutes = solution.routes.len();
        let route_indices = shuffled_indices(nroutes);
        let mut rp: usize = 0;
        while rp < nroutes
            invariant
                problem.wf(),
                *solution == *old(solution),
                solution.wf(problem),
                solution.evaluated(problem, capacity_penalty),
                concat_routes(solution.routes@).no_duplicates(),
                self.neighbors_ready(problem),
                self.granularity == old(self).granularity,
                self.route_timestamps == old(self).route_timestamps,
                self.n_tracked_routes() == solution.routes@.len(),
                nroutes == solution.routes@.len(),
                route_indices@.len() == nroutes,
                forall|q: int| 0 <= q < nroutes ==> (#[trigger] route_indices@[q] as int) < nroutes,
                route_indices@.no_duplicates(),
                forall|v: usize| (v as int) < nroutes ==> route_indices@.contains(v),
                rp <= nroutes,
                memo_inv_two_opt(old(self), self, solution, problem),
                forall|a: int|
                    0 <= a < rp ==> two_opt_route_done(
                        old(self),
                        solution,
                        problem,
                        #[trigger] route_indices@[a] as int,
                    ),
            decreases nroutes - rp,
        {
            let r_idx = route_indices[rp];
            let n = solution.routes[r_idx].customers.len();
            if n >= 4 {
                let positions = shuffled_indices(n - 1);
                let mut ip: usize = 0;
                while ip < n - 1
                    invariant
                        problem.wf(),
                        *solution == *old(solution),
                        solution.wf(problem),
                        solution.evaluated(problem, capacity_penalty),
                        self.neighbors_ready(problem),
                        self.granularity == old(self).granularity,
                        self.route_timestamps == old(self).route_timestamps,
                        self.n_tracked_routes() == solution.routes@.len(),
                        nroutes == solution.routes@.len(),
                        concat_routes(solution.routes@).no_duplicates(),
                        (r_idx as int) < nroutes,
                        4 <= n == solution.routes@[r_idx as int].customers@.len(),
                        positions@.len() == n - 1,
                        forall|q: int| 0 <= q < n - 1 ==> (#[trigger] positions@[q] as int) < n - 1,
                        positions@.no_duplicates(),
                        forall|v: usize| (v as int) < n - 1 ==> positions@.contains(v),
                        ip <= n - 1,
                        memo_inv_two_opt(old(self), self, solution, problem),
                        forall|b: int|
                            0 <= b < ip ==> (#[trigger] positions@[b] as int) + 2 >= n || two_opt_done(
                                old(self),
                                solution,
                                problem,
                                r_idx as int,
                                positions@[b] as int,
                            ),
                    decreases n - 1 - ip,
                {
                    let i = positions[ip];
                    if i + 2 < n {
                        let positions_j = shuffled_indices(n - (i + 2));
                        let mut jp: usize = 0;
                        while jp < n - (i + 2)
                            invariant
                                problem.wf(),
                                *solution == *old(solution),
                                solution.wf(problem),
                                solution.evaluated(problem, capacity_penalty),
                                self.neighbors_ready(problem),
                                self.granularity == old(self).granularity,
                                self.route_timestamps == old(self).route_timestamps,
                                self.n_tracked_routes() == solution.routes@.len(),
                                nroutes == solution.routes@.len(),
                                concat_routes(solution.routes@).no_duplicates(),
                                (r_idx as int) < nroutes,
                                4 <= n == solution.routes@[r_idx as int].customers@.len(),
                                (i as int) < n - 1,
                                i + 2 < n,
                                positions_j@.len() == n - (i + 2),
                                forall|q: int|
                                    0 <= q < n - (i + 2)
                                        ==> (#[trigger] positions_j@[q] as int) < n - (i + 2),
                                jp <= n - (i + 2),
                                memo_inv_two_opt(old(self), self, solution, problem),
                                jp >= 1 ==> two_opt_done(old(self), solution, problem, r_idx as int, i as int),
                            decreases n - (i + 2) - jp,
                        {
                            let j = i + 2 + positions_j[jp];
                            let anchor = solution.routes[r_idx].customers[i];
                            proof {
                                assert(solution.routes@[r_idx as int].wf(problem));
                                assert(cust_ok(
                                    problem,
                                    solution.routes@[r_idx as int].customers@[i as int],
                                ));
                            }
                            let ghost pre_self = *self;
                            let tested = self.is_move_valid(anchor, 2, r_idx);
                            proof {
                                if !tested {
                                    // Already blocked: the memo invariant says
                                    // this anchor is accounted for.
                                    assert(move_blocked(&pre_self, anchor as int, 2, r_idx as int));
                                    assert(two_opt_done(
                                        old(self),
                                        solution,
                                        problem,
                                        r_idx as int,
                                        i as int,
                                    ));
                                }
                            }
                            if tested {
                                let delta = Self::evaluate_two_opt(solution, problem, r_idx, i, j);
                                proof {
                                    let s = solution.routes@[r_idx as int].customers@;
                                    assert(solution.routes@[r_idx as int].wf(problem));
                                    lemma_two_opt(problem, s, i as int, j as int);
                                    assert(delta as int == two_opt_delta(problem, s, i as int, j as int));
                                    if delta >= 0 {
                                        assert(two_opt_settled(problem, s, i as int));
                                    }
                                    // The fresh stamp only blocks this anchor's
                                    // key; every other blocked anchor was
                                    // already accounted for.
                                    crate::solution::lemma_concat_nodup(solution.routes@);
                                    assert forall|r2: int, i2: int|
                                        #![trigger solution.routes@[r2].customers@[i2]]
                                        0 <= r2 < solution.routes@.len()
                                            && solution.routes@[r2].customers@.len() >= 4 && 0 <= i2 && i2
                                            + 2 < solution.routes@[r2].customers@.len() && move_blocked(
                                            self,
                                            solution.routes@[r2].customers@[i2] as int,
                                            2,
                                            r2,
                                        ) && delta >= 0 implies two_opt_done(
                                        old(self),
                                        solution,
                                        problem,
                                        r2,
                                        i2,
                                    ) by {
                                        let c2 = solution.routes@[r2].customers@[i2];
                                        if move_blocked(&pre_self, c2 as int, 2, r2) {
                                            assert(two_opt_done(old(self), solution, problem, r2, i2));
                                        } else {
                                            assert(cust_ok(problem, c2)) by {
                                                assert(solution.routes@[r2].wf(problem));
                                            }
                                            super::lemma_move_key_injective(
                                                c2 as int,
                                                2,
                                                r2,
                                                anchor as int,
                                                2,
                                                r_idx as int,
                                            );
                                            assert(c2 == anchor && r2 == r_idx);
                                            assert(i2 == i) by {
                                                assert(solution.routes@[r_idx as int].customers@.no_duplicates());
                                            }
                                        }
                                    }
                                }
                                if delta < 0 {
                                    let ghost routes0 = solution.routes@;
                                    let ghost cost0 = solution.cost;
                                    Self::apply_two_opt(solution, problem, r_idx, i, j);
                                    self.update_route_timestamp(r_idx);
                                    let ghost mid = solution.routes@;
                                    solution.evaluate(problem, capacity_penalty);
                                    proof {
                                        lemma_routes_same_customers(problem, solution.routes@, mid);
                                        // The move replaced one route; the whole
                                        // solution's distance moved by the move's
                                        // delta and the excess stayed put, so the
                                        // cost strictly dropped.
                                        assert(mid =~= routes0.update(r_idx as int, mid[r_idx as int]));
                                        lemma_sol_sums_update(
                                            problem,
                                            routes0,
                                            r_idx as int,
                                            mid[r_idx as int],
                                        );
                                        assert(sol_dist(problem, solution.routes@) == sol_dist(problem, mid));
                                        assert(sol_excess(problem, solution.routes@) == sol_excess(
                                            problem,
                                            mid,
                                        ));
                                        assert(sol_dist(problem, mid) == sol_dist(problem, routes0)
                                            + delta);
                                        assert(sol_excess(problem, mid) == sol_excess(problem, routes0));
                                        assert(solution.cost as int == cost0 + PENALTY_UNIT * delta);
                                        assert(solution.cost < cost0);
                                        broadcast use vstd::seq_lib::group_to_multiset_ensures;

                                        concat_routes(routes0).lemma_multiset_has_no_duplicates();
                                        concat_routes(
                                            solution.routes@,
                                        ).lemma_multiset_has_no_duplicates_conv();
                                    }
                                    return true;
                                }
                            }
                            jp += 1;
                        }
                    }
                    ip += 1;
                }
                proof {
                    assert forall|i0: int|
                        0 <= i0 && i0 + 2 < n implies two_opt_done(
                        old(self),
                        solution,
                        problem,
                        r_idx as int,
                        i0,
                    ) by {
                        let v: usize = i0 as usize;
                        assert(positions@.contains(v));
                        let b = choose|b: int| 0 <= b < positions@.len() && positions@[b] == v;
                        assert((positions@[b] as int) + 2 >= n || two_opt_done(
                            old(self),
                            solution,
                            problem,
                            r_idx as int,
                            positions@[b] as int,
                        ));
                    }
                    assert(two_opt_route_done(old(self), solution, problem, r_idx as int));
                }
            }
            proof {
                if n < 4 {
                    assert(two_opt_route_done(old(self), solution, problem, r_idx as int));
                }
            }
            rp += 1;
        }
        proof {
            assert forall|r: int, i: int|
                #![trigger solution.routes@[r].customers@[i]]
                0 <= r < solution.routes@.len() && solution.routes@[r].customers@.len() >= 4 && 0 <= i && i
                    + 2 < solution.routes@[r].customers@.len() implies two_opt_done(
                old(self),
                solution,
                problem,
                r,
                i,
            ) by {
                let v: usize = r as usize;
                assert(route_indices@.contains(v));
                let a = choose|a: int| 0 <= a < route_indices@.len() && route_indices@[a] == v;
                assert(two_opt_route_done(old(self), solution, problem, route_indices@[a] as int));
            }
            assert(two_opt_no_gain(old(self), solution, problem));
            assert(*solution == *old(solution));
        }
        false
    }

    /// The exact distance change of reversing the segment between `i` and
    /// `j` of the route.
    fn evaluate_two_opt(solution: &Solution, problem: &Problem, r_idx: usize, i: usize, j: usize) -> (delta:
        i128)
        requires
            problem.wf(),
            solution.wf(problem),
            (r_idx as int) < solution.routes@.len(),
            i + 1 <= j,
            (j as int) < solution.routes@[r_idx as int].customers@.len(),
        ensures
            delta == route_dist(
                problem,
                reversed_seq(solution.routes@[r_idx as int].customers@, i as int, j as int),
            ) - route_dist(problem, solution.routes@[r_idx as int].customers@),
    {
        let route = &solution.routes[r_idx];
        let customers = &route.customers;
        proof {
            assert(solution.routes@[r_idx as int].wf(problem));
        }
        let i_node = customers[i];
        let i_next = customers[i + 1];
        let j_node = customers[j];
        let j_next = if j + 1 < customers.len() {
            customers[j + 1]
        } else {
            problem.depot_index
        };
        let old_cost = problem.get_distance(i_node, i_next) + problem.get_distance(j_node, j_next);
        let new_cost = problem.get_distance(i_node, j_node) + problem.get_distance(i_next, j_next);
        proof {
            lemma_two_opt(problem, route.customers@, i as int, j as int);
        }
        (new_cost as i128) - (old_cost as i128)
    }

    /// Reverse the segment `(i, j]` of the route in place, marking it
    /// modified.  The route keeps its load (same customers), and its
    /// round trip changes by exactly `two_opt_delta`.
    #[verifier::rlimit(100)]
    fn apply_two_opt(solution: &mut Solution, problem: &Problem, r_idx: usize, i: usize, j: usize)
        requires
            problem.wf(),
            old(solution).wf(problem),
            old(solution).caches_ok(problem),
            (r_idx as int) < old(solution).routes@.len(),
            i + 1 <= j,
            (j as int) < old(solution).routes@[r_idx as int].customers@.len(),
        ensures
            final(solution).wf(problem),
            final(solution).caches_ok(problem),
            final(solution).routes@.len() == old(solution).routes@.len(),
            final(solution).giant_tour == old(solution).giant_tour,
            forall|k: int|
                0 <= k < old(solution).routes@.len() && k != r_idx
                    ==> #[trigger] final(solution).routes@[k] == old(solution).routes@[k],
            concat_routes(final(solution).routes@).to_multiset() == concat_routes(
                old(solution).routes@,
            ).to_multiset(),
            final(solution).routes@[r_idx as int].customers@ == reversed_seq(
                old(solution).routes@[r_idx as int].customers@,
                i as int,
                j as int,
            ),
            load_of(problem, final(solution).routes@[r_idx as int].customers@) == load_of(
                problem,
                old(solution).routes@[r_idx as int].customers@,
            ),
            route_dist(problem, final(solution).routes@[r_idx as int].customers@) == route_dist(
                problem,
                old(solution).routes@[r_idx as int].customers@,
            ) + two_opt_delta(problem, old(solution).routes@[r_idx as int].customers@, i as int, j as int),
    {
        let ghost routes0 = solution.routes@;
        let ghost s = routes0[r_idx as int].customers@;
        let route = vstd::std_specs::vec::vec_index_mut(&mut solution.routes, r_idx);
        let mut lo: usize = i + 1;
        let mut hi: usize = j;
        while lo < hi
            invariant
                i + 1 <= lo,
                lo <= hi + 1,
                hi <= j,
                lo + hi == i + 1 + j,
                (j as int) < s.len(),
                route.customers@.len() == s.len(),
                route.load == routes0[r_idx as int].load,
                route.distance == routes0[r_idx as int].distance,
                route.modified == routes0[r_idx as int].modified,
                forall|q: int|
                    0 <= q < s.len()
                        ==> route.customers@[q] == (if i + 1 <= q < lo || hi < q <= j {
                            s[i + 1 + j - q]
                        } else {
                            #[trigger] s[q]
                        }),
            decreases hi + 1 - lo,
        {
            let a = route.customers[lo];
            let b = route.customers[hi];
            *vstd::std_specs::vec::vec_index_mut(&mut route.customers, lo) = b;
            *vstd::std_specs::vec::vec_index_mut(&mut route.customers, hi) = a;
            lo += 1;
            hi -= 1;
        }
        route.modified = true;
        proof {
            let cur = route.customers@;
            let rev = reversed_seq(s, i as int, j as int);
            assert(valid_customers(problem, s)) by {
                assert(routes0[r_idx as int].wf(problem));
            }
            lemma_two_opt(problem, s, i as int, j as int);
            assert forall|q: int| 0 <= q < s.len() implies cur[q] == rev[q] by {
                if q <= i {
                    assert(rev[q] == s[q]);
                } else if q <= j {
                    assert(rev[q] == s.subrange(i + 1, j + 1).reverse()[q - i - 1]);
                    assert(s.subrange(i + 1, j + 1).reverse()[q - i - 1] == s.subrange(i + 1, j + 1)[j - q]);
                    assert(s.subrange(i + 1, j + 1)[j - q] == s[i + 1 + j - q]);
                    if lo <= q && q <= hi {
                        assert(q == lo && q == hi);
                        assert(cur[q] == s[q]);
                        assert(i + 1 + j - q == q);
                    }
                } else {
                    assert(rev[q] == s[q]);
                }
            }
            assert(cur =~= rev);
        }
        proof {
            let routes2 = solution.routes@;
            lemma_one_route_exchange(routes0, r_idx as int, routes2);
            lemma_load_of_multiset(
                problem,
                routes2[r_idx as int].customers@,
                routes0[r_idx as int].customers@,
            );
            assert(valid_customers(problem, routes2[r_idx as int].customers@));
            crate::solution::lemma_route_len_le_concat(routes2, r_idx as int);
            assert(solution.wf(problem));
        }
    }
}

} // verus!
