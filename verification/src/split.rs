//! Split: optimal order-preserving partition of a giant tour into routes.
//!
//! The algorithm is a shortest path on the prefix graph of the tour:
//! `opt_cost(m)` is the cheapest way to serve the first `m` tour customers
//! with complete routes.  A route is admissible when it respects the
//! vehicle capacity; a single-customer route is always admissible, so a
//! customer whose demand alone exceeds the capacity still gets a route and
//! the violation surfaces at evaluation instead of stopping the search.

use vstd::prelude::*;
use crate::problem::Problem;
use crate::solution::{
    concat_routes, cust_ok, lemma_routes_same_customers, load_of, path_dist, route_dist, sol_dist,
    valid_customers, Route, Solution,
};
use crate::{MAX_DIST, MAX_NODES, PENALTY_UNIT};

verus! {

/// Marker for a prefix the relaxation has not reached yet.
pub const UNREACHED: u128 = 0xffff_ffff_ffff_ffff_ffff_ffff_ffff_ffff;

/// A tour segment may form a route: within capacity, or a lone customer.
pub open spec fn seg_ok(p: &Problem, tour: Seq<usize>, k: int, m: int) -> bool {
    load_of(p, tour.subrange(k, m)) <= p.vehicle_capacity || m - k == 1
}

/// Cost of serving `tour[k..m]` as one route appended to an optimal
/// partition of `tour[0..k]`; unreachable when the segment is not
/// admissible.
pub open spec fn ext_cost(p: &Problem, tour: Seq<usize>, k: int, m: int) -> int {
    if seg_ok(p, tour, k, m) {
        opt_cost(p, tour, k) + route_dist(p, tour.subrange(k, m))
    } else {
        UNREACHED as int
    }
}

/// Cheapest extension into prefix `m` over cut points below `i`.
pub open spec fn relaxed(p: &Problem, tour: Seq<usize>, m: int, i: int) -> int
    decreases m, i when 0 <= i <= m
{
    if i <= 0 {
        UNREACHED as int
    } else {
        let c = if seg_ok(p, tour, i - 1, m) {
            opt_cost(p, tour, i - 1) + route_dist(p, tour.subrange(i - 1, m))
        } else {
            UNREACHED as int
        };
        let rest = relaxed(p, tour, m, i - 1);
        if c < rest {
            c
        } else {
            rest
        }
    }
}

/// Cheapest admissible partition of the first `m` tour customers.
pub open spec fn opt_cost(p: &Problem, tour: Seq<usize>, m: int) -> int
    decreases m, m + 1int
{
    if m <= 0 {
        0
    } else {
        relaxed(p, tour, m, m)
    }
}

/// Segment loads grow with the segment.
pub proof fn lemma_seg_load_monotone(p: &Problem, tour: Seq<usize>, i: int, j1: int, j2: int)
    requires
        0 <= i <= j1 <= j2 <= tour.len(),
    ensures
        load_of(p, tour.subrange(i, j1)) <= load_of(p, tour.subrange(i, j2)),
    decreases j2 - j1,
{
    if j1 < j2 {
        lemma_seg_load_monotone(p, tour, i, j1, j2 - 1);
        assert(tour.subrange(i, j2).drop_last() =~= tour.subrange(i, j2 - 1));
        assert(load_of(p, tour.subrange(i, j2)) == load_of(p, tour.subrange(i, j2 - 1)) + p.demand(
            tour.subrange(i, j2).last() as int,
        ));
    }
}

/// Bounds on `relaxed` and `opt_cost`: non-negative, and well below the
/// `UNREACHED` marker whenever the tour fits the instance limits.
pub proof fn lemma_relaxed_bounds(p: &Problem, tour: Seq<usize>, m: int, i: int)
    requires
        p.wf(),
        valid_customers(p, tour),
        tour.len() <= MAX_NODES,
        0 <= i <= m <= tour.len(),
    ensures
        0 <= relaxed(p, tour, m, i) <= UNREACHED,
    decreases m, i,
{
    if i > 0 {
        lemma_opt_cost_bounds(p, tour, i - 1);
        assert(valid_customers(p, tour.subrange(i - 1, m))) by {
            assert(forall|q: int|
                0 <= q < m - (i - 1) ==> tour.subrange(i - 1, m)[q] == #[trigger] tour[i - 1 + q]);
        }
        crate::solution::lemma_route_dist_bound(p, tour.subrange(i - 1, m));
        assert((m - i + 2) * MAX_DIST <= (MAX_NODES + 1) * MAX_DIST) by (nonlinear_arith)
            requires m - i + 2 <= MAX_NODES + 1;
        lemma_relaxed_bounds(p, tour, m, i - 1);
    }
}

/// See `lemma_relaxed_bounds`: the optimum of a prefix costs at most two
/// bounded legs per customer, so it stays far below `UNREACHED`.
pub proof fn lemma_opt_cost_bounds(p: &Problem, tour: Seq<usize>, m: int)
    requires
        p.wf(),
        valid_customers(p, tour),
        tour.len() <= MAX_NODES,
        0 <= m <= tour.len(),
    ensures
        0 <= opt_cost(p, tour, m) <= m * 2 * MAX_DIST,
    decreases m, m + 1int,
{
    if m > 0 {
        lemma_relaxed_bounds(p, tour, m, m);
        lemma_opt_cost_bounds(p, tour, m - 1);
        let single = tour.subrange(m - 1, m);
        assert(valid_customers(p, single)) by {
            assert(single[0] == tour[m - 1]);
        }
        assert(seg_ok(p, tour, m - 1, m));
        crate::solution::lemma_route_dist_bound(p, single);
        lemma_relaxed_le_ext(p, tour, m, m, m - 1);
        assert(opt_cost(p, tour, m) <= opt_cost(p, tour, m - 1) + 2 * MAX_DIST);
        assert((m - 1) * 2 * MAX_DIST + 2 * MAX_DIST == m * 2 * MAX_DIST) by (nonlinear_arith);
        lemma_relaxed_nonneg(p, tour, m, m);
    }
}

/// Every candidate folded into `relaxed` is non-negative.
proof fn lemma_relaxed_nonneg(p: &Problem, tour: Seq<usize>, m: int, i: int)
    requires
        p.wf(),
        valid_customers(p, tour),
        tour.len() <= MAX_NODES,
        0 <= i <= m <= tour.len(),
    ensures
        relaxed(p, tour, m, i) >= 0,
    decreases m, i,
{
    if i > 0 {
        lemma_opt_cost_nonneg(p, tour, i - 1);
        assert(valid_customers(p, tour.subrange(i - 1, m))) by {
            assert(forall|q: int|
                0 <= q < m - (i - 1) ==> tour.subrange(i - 1, m)[q] == #[trigger] tour[i - 1 + q]);
        }
        crate::solution::lemma_route_dist_bound(p, tour.subrange(i - 1, m));
        lemma_relaxed_nonneg(p, tour, m, i - 1);
    }
}

/// See `lemma_relaxed_nonneg`.
proof fn lemma_opt_cost_nonneg(p: &Problem, tour: Seq<usize>, m: int)
    requires
        p.wf(),
        valid_customers(p, tour),
        tour.len() <= MAX_NODES,
        0 <= m <= tour.len(),
    ensures
        opt_cost(p, tour, m) >= 0,
    decreases m, m + 1int,
{
    if m > 0 {
        lemma_relaxed_nonneg(p, tour, m, m);
    }
}

/// `relaxed(m, i)` is at most the cost of extending from any cut below `i`.
pub proof fn lemma_relaxed_le_ext(p: &Problem, tour: Seq<usize>, m: int, i: int, k: int)
    requires
        0 <= k < i <= m,
    ensures
        relaxed(p, tour, m, i) <= ext_cost(p, tour, k, m),
    decreases i,
{
    if k < i - 1 {
        lemma_relaxed_le_ext(p, tour, m, i - 1, k);
    }
}

/// The optimum of a prefix never exceeds the cost of any admissible
/// order-preserving partition of it: `opt_cost` is a true minimum.
pub proof fn lemma_opt_cost_minimal(p: &Problem, tour: Seq<usize>, routes: Seq<Route>, m: int)
    requires
        0 <= m <= tour.len(),
        concat_routes(routes) == tour.subrange(0, m),
        forall|q: int| 0 <= q < routes.len() ==> (#[trigger] routes[q]).customers@.len() > 0,
        forall|q: int|
            0 <= q < routes.len()
                ==> load_of(p, (#[trigger] routes[q]).customers@) <= p.vehicle_capacity
                    || routes[q].customers@.len() == 1,
    ensures
        opt_cost(p, tour, m) <= sol_dist(p, routes),
    decreases routes.len(),
{
    if routes.len() == 0 {
        assert(tour.subrange(0, m).len() == 0);
    } else {
        let last = routes.last();
        let ll = last.customers@.len() as int;
        let prefix = routes.drop_last();
        assert(concat_routes(routes) == concat_routes(prefix) + last.customers@);
        assert(concat_routes(prefix).len() == m - ll);
        assert(concat_routes(prefix) =~= tour.subrange(0, m - ll)) by {
            assert(forall|q: int|
                0 <= q < m - ll ==> concat_routes(prefix)[q] == #[trigger] tour.subrange(0, m)[q]);
        }
        assert forall|q: int| 0 <= q < ll implies last.customers@[q] == tour.subrange(m - ll, m)[q] by {
            assert((concat_routes(prefix) + last.customers@)[m - ll + q] == last.customers@[q]);
            assert(tour.subrange(0, m)[m - ll + q] == tour[m - ll + q]);
        }
        assert(last.customers@ =~= tour.subrange(m - ll, m));
        lemma_opt_cost_minimal(p, tour, prefix, m - ll);
        assert(seg_ok(p, tour, m - ll, m));
        lemma_relaxed_le_ext(p, tour, m, m, m - ll);
        assert(opt_cost(p, tour, m) <= opt_cost(p, tour, m - ll) + route_dist(p, tour.subrange(m - ll, m)));
    }
}

/// Prepending a route to a sequence prepends its customers and adds its
/// round trip.
pub proof fn lemma_routes_prepend(p: &Problem, r: Route, s: Seq<Route>)
    ensures
        concat_routes(seq![r] + s) == r.customers@ + concat_routes(s),
        sol_dist(p, seq![r] + s) == route_dist(p, r.customers@) + sol_dist(p, s),
    decreases s.len(),
{
    if s.len() == 0 {
        assert(seq![r] + s =~= seq![r]);
        assert(seq![r].drop_last() =~= Seq::<Route>::empty());
        assert(seq![r].last() == r);
        assert(concat_routes(seq![r]) == concat_routes(Seq::<Route>::empty()) + r.customers@);
        assert(concat_routes(seq![r]) =~= r.customers@ + concat_routes(s));
        assert(sol_dist(p, seq![r]) == sol_dist(p, Seq::<Route>::empty()) + route_dist(p, r.customers@));
    } else {
        assert((seq![r] + s).drop_last() =~= seq![r] + s.drop_last());
        assert((seq![r] + s).last() == s.last());
        lemma_routes_prepend(p, r, s.drop_last());
        assert(concat_routes(seq![r] + s) =~= r.customers@ + concat_routes(s)) by {
            assert(concat_routes(seq![r] + s) == (r.customers@ + concat_routes(s.drop_last()))
                + s.last().customers@);
            assert(concat_routes(s) == concat_routes(s.drop_last()) + s.last().customers@);
        }
    }
}

/// Routes that may leave Split: every route is well formed with current
/// caches, serves at least one customer, and either respects the capacity
/// or is a lone over-demand customer.
pub open spec fn routes_admissible(p: &Problem, rs: Seq<Route>) -> bool {
    forall|q: int|
        0 <= q < rs.len() ==> {
            &&& (#[trigger] rs[q]).wf(p)
            &&& rs[q].caches_current(p)
            &&& rs[q].customers@.len() >= 1
            &&& (load_of(p, rs[q].customers@) <= p.vehicle_capacity || rs[q].customers@.len() == 1)
        }
}

/// The Split procedure.
pub struct Split;

impl Split {
    /// Partition the giant tour into routes, preserving its order,
    /// admitting only capacity-respecting routes (or lone customers), and
    /// minimising the summed round-trip distance; then evaluate the
    /// solution under the unit penalty.
    pub fn split(solution: &mut Solution, problem: &Problem)
        requires
            problem.wf(),
            valid_customers(problem, old(solution).giant_tour@),
            old(solution).giant_tour@.len() <= MAX_NODES,
        ensures
            final(solution).giant_tour == old(solution).giant_tour,
            concat_routes(final(solution).routes@) == old(solution).giant_tour@,
            forall|q: int|
                0 <= q < final(solution).routes@.len()
                    ==> (#[trigger] final(solution).routes@[q]).customers@.len() >= 1,
            forall|q: int|
                0 <= q < final(solution).routes@.len() ==> {
                    load_of(problem, (#[trigger] final(solution).routes@[q]).customers@)
                        <= problem.vehicle_capacity
                        || final(solution).routes@[q].customers@.len() == 1
                },
            sol_dist(problem, final(solution).routes@) == opt_cost(
                problem,
                old(solution).giant_tour@,
                old(solution).giant_tour@.len() as int,
            ),
            final(solution).wf(problem),
            final(solution).evaluated(problem, PENALTY_UNIT),
    {
        let ghost tour = solution.giant_tour@;
        let n = solution.giant_tour.len();
        let mut potential: Vec<u128> = vec![UNREACHED; n + 1];
        let mut pred: Vec<usize> = vec![0usize; n + 1];
        *vstd::std_specs::vec::vec_index_mut(&mut potential, 0) = 0;

        let mut i: usize = 0;
        while i < n
            invariant
                problem.wf(),
                valid_customers(problem, tour),
                tour.len() == n,
                n <= MAX_NODES,
                solution.giant_tour@ == tour,
                potential@.len() == n + 1,
                pred@.len() == n + 1,
                i <= n,
                forall|m: int| 0 <= m <= i ==> #[trigger] potential@[m] as int == opt_cost(problem, tour, m),
                forall|m: int|
                    i < m <= n ==> #[trigger] potential@[m] as int == relaxed(problem, tour, m, i as int),
                forall|m: int|
                    1 <= m <= n && (#[trigger] potential@[m] as int) < UNREACHED ==> {
                        &&& 0 <= pred@[m] < m
                        &&& seg_ok(problem, tour, pred@[m] as int, m)
                        &&& potential@[m] as int == opt_cost(problem, tour, pred@[m] as int) + route_dist(
                            problem,
                            tour.subrange(pred@[m] as int, m),
                        )
                    },
            decreases n - i,
        {
            let pot_i: u128 = potential[i];
            proof {
                lemma_opt_cost_bounds(problem, tour, i as int);
                assert(2 * MAX_DIST * i <= 2 * MAX_DIST * MAX_NODES) by (nonlinear_arith)
                    requires i <= MAX_NODES;
            }
            let d0 = problem.get_distance(problem.depot_index, solution.giant_tour[i]);
            let mut j: usize = i;
            let mut load: u64 = 0;
            let mut rdist: u64 = 0;
            let mut stop: bool = false;
            while j < n && !stop
                invariant
                    problem.wf(),
                    valid_customers(problem, tour),
                    tour.len() == n,
                    n <= MAX_NODES,
                    solution.giant_tour@ == tour,
                    potential@.len() == n + 1,
                    pred@.len() == n + 1,
                    i <= j <= n,
                    i < n,
                    pot_i as int == opt_cost(problem, tour, i as int),
                    pot_i as int <= 2 * MAX_DIST * MAX_NODES,
                    d0 as int == problem.dist(problem.depot_index as int, tour[i as int] as int),
                    d0 <= MAX_DIST,
                    load as int == load_of(problem, tour.subrange(i as int, j as int)),
                    load as int <= (j - i) * crate::DEMAND_LIMIT,
                    j > i ==> rdist as int == problem.dist(problem.depot_index as int, tour[i as int] as int)
                        + path_dist(problem, tour.subrange(i as int, j as int)),
                    j > i ==> rdist as int <= (j - i) * MAX_DIST,
                    stop ==> i < j < n && load_of(problem, tour.subrange(i as int, j + 1)) > problem.vehicle_capacity,
                    forall|m: int| 0 <= m <= i ==> #[trigger] potential@[m] as int == opt_cost(problem, tour, m),
                    forall|m: int|
                        i < m <= j ==> #[trigger] potential@[m] as int == relaxed(problem, tour, m, i + 1),
                    forall|m: int|
                        j < m <= n ==> #[trigger] potential@[m] as int == relaxed(problem, tour, m, i as int),
                    forall|m: int|
                        1 <= m <= n && (#[trigger] potential@[m] as int) < UNREACHED ==> {
                            &&& 0 <= pred@[m] < m
                            &&& seg_ok(problem, tour, pred@[m] as int, m)
                            &&& potential@[m] as int == opt_cost(problem, tour, pred@[m] as int) + route_dist(
                                problem,
                                tour.subrange(pred@[m] as int, m),
                            )
                        },
                decreases n - j, (if stop { 0int } else { 1int }),
            {
                let c = solution.giant_tour[j];
                proof {
                    assert(cust_ok(problem, tour[j as int]));
                    let s1 = tour.subrange(i as int, j + 1);
                    assert(s1.drop_last() =~= tour.subrange(i as int, j as int));
                    assert(s1.last() == tour[j as int]);
                    assert((j - i) * crate::DEMAND_LIMIT + crate::DEMAND_LIMIT == (j + 1 - i) * crate::DEMAND_LIMIT)
                        by (nonlinear_arith);
                    assert((j + 1 - i) * crate::DEMAND_LIMIT <= MAX_NODES * crate::DEMAND_LIMIT) by (nonlinear_arith)
                        requires j + 1 - i <= MAX_NODES;
                }
                let new_load = load + problem.nodes[c].demand;
                if j > i && new_load > problem.vehicle_capacity {
                    stop = true;
                } else {
                    load = new_load;
                    if j == i {
                        rdist = d0;
                        proof {
                            assert(path_dist(problem, tour.subrange(i as int, i + 1)) == 0);
                        }
                    } else {
                        let prev = solution.giant_tour[j - 1];
                        proof {
                            assert(cust_ok(problem, tour[j - 1]));
                            let s1 = tour.subrange(i as int, j + 1);
                            assert(s1.drop_last() =~= tour.subrange(i as int, j as int));
                            assert(s1[j - i - 1] == tour[j - 1]);
                            assert(s1.last() == tour[j as int]);
                            assert(path_dist(problem, s1) == path_dist(problem, tour.subrange(i as int, j as int))
                                + problem.dist(tour[j - 1] as int, tour[j as int] as int));
                            assert((j - i) * MAX_DIST + MAX_DIST == (j + 1 - i) * MAX_DIST) by (nonlinear_arith);
                            assert((j + 1 - i) * MAX_DIST <= (MAX_NODES + 1) * MAX_DIST) by (nonlinear_arith)
                                requires j + 1 - i <= MAX_NODES + 1;
                        }
                        rdist = rdist + problem.get_distance(prev, c);
                    }
                    let d_back = problem.get_distance(c, problem.depot_index);
                    let cost: u128 = pot_i + (rdist as u128) + (d_back as u128);
                    let ghost seg = tour.subrange(i as int, j + 1);
                    proof {
                        assert(seg[0] == tour[i as int]);
                        assert(seg.last() == tour[j as int]);
                        assert(cost as int == opt_cost(problem, tour, i as int) + route_dist(problem, seg));
                        assert(seg_ok(problem, tour, i as int, j + 1));
                        assert(cost as int <= 2 * MAX_DIST * MAX_NODES + (MAX_NODES + 1) * MAX_DIST + MAX_DIST)
                            by (nonlinear_arith)
                            requires
                                pot_i as int <= 2 * MAX_DIST * MAX_NODES,
                                rdist as int <= (MAX_NODES + 1) * MAX_DIST,
                                d_back <= MAX_DIST,
                                cost as int == pot_i as int + rdist as int + d_back as int,
                        ;
                    }
                    let ghost pre_potential = potential@;
                    let ghost pre_pred = pred@;
                    if cost < potential[j + 1] {
                        *vstd::std_specs::vec::vec_index_mut(&mut potential, j + 1) = cost;
                        *vstd::std_specs::vec::vec_index_mut(&mut pred, j + 1) = i;
                    }
                    proof {
                        assert(potential@[j + 1] as int == relaxed(problem, tour, j + 1, i + 1)) by {
                            assert(pre_potential[j + 1] as int == relaxed(problem, tour, j + 1, i as int));
                        }
                        assert(forall|m: int|
                            0 <= m <= n && m != j + 1 ==> #[trigger] potential@[m] == pre_potential[m]);
                        assert(forall|m: int|
                            0 <= m <= n && m != j + 1 ==> #[trigger] pred@[m] == pre_pred[m]);
                    }
                    j += 1;
                }
            }
            proof {
                if stop {
                    assert forall|m: int| i < m <= n implies #[trigger] potential@[m] as int == relaxed(
                        problem,
                        tour,
                        m,
                        i + 1,
                    ) by {
                        if m > j {
                            lemma_seg_load_monotone(problem, tour, i as int, j + 1, m);
                            assert(!seg_ok(problem, tour, i as int, m));
                            lemma_relaxed_bounds(problem, tour, m, i as int);
                        }
                    }
                }
                assert(opt_cost(problem, tour, i + 1) == relaxed(problem, tour, i + 1, i + 1));
            }
            i += 1;
        }

        // Reconstruct the optimal cut sequence from the predecessor table.
        let ghost nn = n as int;
        proof {
            assert forall|m: int| 0 <= m <= n implies opt_cost(problem, tour, m) < UNREACHED by {
                lemma_opt_cost_bounds(problem, tour, m);
                assert(2 * MAX_DIST * m < UNREACHED) by (nonlinear_arith)
                    requires 0 <= m <= MAX_NODES;
            }
        }
        let mut routes_rev: Vec<Route> = Vec::new();
        proof {
            assert(Seq::<Route>::empty().reverse() =~= Seq::<Route>::empty());
            assert(concat_routes(Seq::<Route>::empty()) =~= tour.subrange(n as int, nn));
        }
        let mut jj: usize = n;
        while jj > 0
            invariant
                problem.wf(),
                valid_customers(problem, tour),
                tour.len() == n,
                n <= MAX_NODES,
                solution.giant_tour@ == tour,
                nn == n as int,
                potential@.len() == n + 1,
                pred@.len() == n + 1,
                jj <= n,
                forall|m: int| 0 <= m <= n ==> #[trigger] potential@[m] as int == opt_cost(problem, tour, m),
                forall|m: int| 0 <= m <= n ==> opt_cost(problem, tour, m) < UNREACHED,
                forall|m: int|
                    1 <= m <= n && (#[trigger] potential@[m] as int) < UNREACHED ==> {
                        &&& 0 <= pred@[m] < m
                        &&& seg_ok(problem, tour, pred@[m] as int, m)
                        &&& potential@[m] as int == opt_cost(problem, tour, pred@[m] as int) + route_dist(
                            problem,
                            tour.subrange(pred@[m] as int, m),
                        )
                    },
                routes_admissible(problem, routes_rev@),
                routes_rev@.len() <= n - jj,
                concat_routes(routes_rev@.reverse()) == tour.subrange(jj as int, nn),
                sol_dist(problem, routes_rev@.reverse()) == opt_cost(problem, tour, nn) - opt_cost(
                    problem,
                    tour,
                    jj as int,
                ),
            decreases jj,
        {
            let ii = pred[jj];
            proof {
                assert(potential@[jj as int] as int == opt_cost(problem, tour, jj as int));
                assert((potential@[jj as int] as int) < UNREACHED);
                assert(0 <= ii < jj);
                assert(seg_ok(problem, tour, ii as int, jj as int));
                assert(opt_cost(problem, tour, jj as int) == opt_cost(problem, tour, ii as int) + route_dist(
                    problem,
                    tour.subrange(ii as int, jj as int),
                ));
            }
            let mut route = Route::new();
            let mut k: usize = ii;
            while k < jj
                invariant
                    problem.wf(),
                    valid_customers(problem, tour),
                    tour.len() == n,
                    n <= MAX_NODES,
                    solution.giant_tour@ == tour,
                    ii <= k <= jj <= n,
                    route.customers@ =~= tour.subrange(ii as int, k as int),
                    route.modified,
                decreases jj - k,
            {
                let c = solution.giant_tour[k];
                route.customers.push(c);
                proof {
                    assert(route.customers@ =~= tour.subrange(ii as int, k + 1));
                }
                k += 1;
            }
            proof {
                assert(route.customers@ =~= tour.subrange(ii as int, jj as int));
                assert(valid_customers(problem, route.customers@)) by {
                    assert(forall|q: int|
                        0 <= q < jj - ii ==> route.customers@[q] == #[trigger] tour[ii + q]);
                }
                assert(route.wf(problem));
            }
            route.calculate_load(problem);
            route.calculate_distance(problem);
            let ghost pre_rev = routes_rev@;
            let ghost rt = route;
            routes_rev.push(route);
            proof {
                let seg = tour.subrange(ii as int, jj as int);
                assert(routes_rev@ =~= pre_rev.push(rt));
                assert(routes_rev@.reverse() =~= seq![rt] + pre_rev.reverse());
                lemma_routes_prepend(problem, rt, pre_rev.reverse());
                assert(concat_routes(seq![rt] + pre_rev.reverse()) == rt.customers@ + concat_routes(
                    pre_rev.reverse(),
                ));
                assert(rt.customers@ == seg);
                assert(concat_routes(pre_rev.reverse()) == tour.subrange(jj as int, nn));
                let tail = tour.subrange(jj as int, nn);
                let whole = tour.subrange(ii as int, nn);
                assert(seg.len() == jj - ii && tail.len() == nn - jj && whole.len() == nn - ii);
                assert forall|q: int| 0 <= q < nn - ii implies (seg + tail)[q] == whole[q] by {
                    if q < jj - ii {
                        assert((seg + tail)[q] == seg[q]);
                        assert(seg[q] == tour[ii + q]);
                        assert(whole[q] == tour[ii + q]);
                    } else {
                        assert((seg + tail)[q] == tail[q - (jj - ii)]);
                        assert(tail[q - (jj - ii)] == tour[jj + (q - (jj - ii))]);
                        assert(jj + (q - (jj - ii)) == ii + q);
                        assert(whole[q] == tour[ii + q]);
                    }
                }
                assert(seg + tail =~= whole);
                assert(concat_routes(routes_rev@.reverse()) == tour.subrange(ii as int, nn));
                assert(sol_dist(problem, routes_rev@.reverse()) == opt_cost(problem, tour, nn) - opt_cost(
                    problem,
                    tour,
                    ii as int,
                ));
            }
            jj = ii;
        }

        // Reverse the collected routes into tour order.
        let ghost rev_orig = routes_rev@;
        proof {
            assert(tour.subrange(0, nn) =~= tour);
        }
        let mut routes: Vec<Route> = Vec::new();
        proof {
            assert(routes_rev@ =~= rev_orig.take(routes_rev@.len() as int));
            assert(routes@ =~= rev_orig.skip(routes_rev@.len() as int).reverse());
        }
        while routes_rev.len() > 0
            invariant
                routes_rev@.len() + routes@.len() == rev_orig.len(),
                routes_rev@ =~= rev_orig.take(routes_rev@.len() as int),
                routes@ =~= rev_orig.skip(routes_rev@.len() as int).reverse(),
            decreases routes_rev@.len(),
        {
            let ghost pre = routes_rev@;
            let r = routes_rev.pop().unwrap();
            routes.push(r);
            proof {
                assert(routes_rev@ =~= rev_orig.take(routes_rev@.len() as int));
                assert(routes@ =~= rev_orig.skip(routes_rev@.len() as int).reverse());
            }
        }
        proof {
            assert(rev_orig.skip(0) =~= rev_orig);
            assert(routes@ =~= rev_orig.reverse());
        }
        solution.routes = routes;
        proof {
            let rs = solution.routes@;
            assert(routes_admissible(problem, rs)) by {
                assert(forall|q: int|
                    0 <= q < rs.len() ==> rs[q] == #[trigger] rev_orig[rs.len() - 1 - q]);
            }
            assert(concat_routes(rs) == tour);
            assert(sol_dist(problem, rs) == opt_cost(problem, tour, nn));
            assert(solution.wf(problem));
            assert(solution.caches_ok(problem));
        }
        let ghost before_eval = solution.routes@;
        solution.evaluate(problem, PENALTY_UNIT);
        proof {
            lemma_routes_same_customers(problem, final(solution).routes@, before_eval);
        }
    }

    /// Rebuild the giant tour as the concatenation of the routes.
    pub fn merge_routes(solution: &mut Solution)
        ensures
            final(solution).routes == old(solution).routes,
            final(solution).cost == old(solution).cost,
            final(solution).distance == old(solution).distance,
            final(solution).excess_capacity == old(solution).excess_capacity,
            final(solution).is_feasible == old(solution).is_feasible,
            final(solution).giant_tour@ == concat_routes(old(solution).routes@),
    {
        solution.update_giant_tour();
    }
}

} // verus!
