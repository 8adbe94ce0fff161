//! SWAP*: exchange two customers between sector-overlapping routes, each
//! landing at its best insertion position in the other route.

use vstd::prelude::*;
use crate::problem::Problem;
use crate::solution::{
    concat_routes, cust_ok, excess_of, lemma_load_of_bound, lemma_load_of_insert,
    lemma_load_of_remove, lemma_route_dist_bound, lemma_routes_same_customers,
    lemma_sol_sums_update, lemma_two_route_exchange, load_of, route_dist, sol_dist, sol_excess,
    valid_customers, Route, Solution,
};
use crate::PENALTY_UNIT;
use super::utils::{calculate_insertion_cost, create_temp_route, RouteInfo};
use super::{move_blocked, penalty_delta, LocalSearch};

verus! {

/// One quarter turn in integer angle units.
pub const ANGLE_SCALE: u64 = 1_048_576;

/// The integer angle encoding, stated arithmetically: in each quadrant
/// the fraction of the way through it, scaled to a quarter turn and
/// clamped, plus the full quarter turns before it.
pub open spec fn angle_units_of(dx: int, dy: int) -> int {
    let scale = ANGLE_SCALE as int;
    if dx == 0 && dy == 0 {
        0
    } else if dx > 0 && dy >= 0 {
        let q = (dy * scale) / (dx + dy);
        if q > scale {
            scale
        } else {
            q
        }
    } else if dx <= 0 && dy > 0 {
        let q = ((-dx) * scale) / (dy - dx);
        scale + (if q > scale {
            scale
        } else {
            q
        })
    } else if dx < 0 && dy <= 0 {
        let q = ((-dy) * scale) / (-dx - dy);
        2 * scale + (if q > scale {
            scale
        } else {
            q
        })
    } else {
        let q = (dx * scale) / (dx - dy);
        3 * scale + (if q > scale {
            scale
        } else {
            q
        })
    }
}

/// The angle of a node around the depot.
pub open spec fn node_angle(p: &Problem, c: int) -> int {
    angle_units_of(
        p.nodes@[c].x - p.nodes@[p.depot_index as int].x,
        p.nodes@[c].y - p.nodes@[p.depot_index as int].y,
    )
}

/// `lo` and `hi` are the least and greatest node angles on the route.
pub open spec fn route_angle_span(p: &Problem, s: Seq<usize>, lo: int, hi: int) -> bool {
    &&& (exists|k: int| 0 <= k < s.len() && #[trigger] node_angle(p, s[k] as int) == lo)
    &&& (exists|k: int| 0 <= k < s.len() && #[trigger] node_angle(p, s[k] as int) == hi)
    &&& (forall|k: int| 0 <= k < s.len() ==> lo <= #[trigger] node_angle(p, s[k] as int) <= hi)
}

/// The recorded sector for an angle span: the span itself, or — when it
/// stretches past a half turn, so the route really wraps the zero
/// direction — the ends swapped with the smaller one unrolled by a full
/// turn.
pub open spec fn sector_of_span(info: RouteInfo, lo: int, hi: int) -> bool {
    if hi - lo > 2 * ANGLE_SCALE {
        info.polar_min == hi && info.polar_max == lo + 4 * ANGLE_SCALE
    } else {
        info.polar_min == lo && info.polar_max == hi
    }
}

/// A monotone integer encoding of the polar angle of `(dx, dy)` around the
/// origin: ordering two directions by this value orders them by `atan2`,
/// and a difference of two quarter turns is exactly a half turn.  The
/// origin itself maps to zero.
pub fn polar_angle_units(dx: i64, dy: i64) -> (r: u64)
    requires
        -2_000_000_000 <= dx <= 2_000_000_000,
        -2_000_000_000 <= dy <= 2_000_000_000,
    ensures
        r <= 4 * ANGLE_SCALE,
        r as int == angle_units_of(dx as int, dy as int),
{
    if dx == 0 && dy == 0 {
        return 0;
    }
    if dx > 0 && dy >= 0 {
        let q = ((dy as u64) * ANGLE_SCALE) / ((dx + dy) as u64);
        if q > ANGLE_SCALE {
            ANGLE_SCALE
        } else {
            q
        }
    } else if dx <= 0 && dy > 0 {
        let q = (((-dx) as u64) * ANGLE_SCALE) / ((dy - dx) as u64);
        ANGLE_SCALE + (if q > ANGLE_SCALE {
            ANGLE_SCALE
        } else {
            q
        })
    } else if dx < 0 && dy <= 0 {
        let q = (((-dy) as u64) * ANGLE_SCALE) / ((-dx - dy) as u64);
        2 * ANGLE_SCALE + (if q > ANGLE_SCALE {
            ANGLE_SCALE
        } else {
            q
        })
    } else {
        let q = ((dx as u64) * ANGLE_SCALE) / ((dx - dy) as u64);
        3 * ANGLE_SCALE + (if q > ANGLE_SCALE {
            ANGLE_SCALE
        } else {
            q
        })
    }
}

/// Whether two recorded polar sectors overlap; degenerate (empty)
/// sectors overlap nothing.
pub open spec fn sectors_overlap(a: RouteInfo, b: RouteInfo) -> bool {
    &&& a.polar_min != a.polar_max
    &&& b.polar_min != b.polar_max
    &&& !(a.polar_max < b.polar_min || b.polar_max < a.polar_min)
}

/// Some SWAP* exchange of the anchor at `pos1` of `r1` with a member of
/// `r2` was measured and found non-improving.
pub open spec fn swap_star_settled(
    sol: &Solution,
    p: &Problem,
    capacity_penalty: u64,
    r1: int,
    r2: int,
    pos1: int,
) -> bool {
    exists|pos2: int, i1: int, i2: int|
        0 <= pos2 < sol.routes@[r2].customers@.len() && 0 <= i1 <= sol.routes@[r1].customers@.len()
            && 0 <= i2 <= sol.routes@[r2].customers@.len() && #[trigger] swap_star_delta(
            sol,
            p,
            r1,
            r2,
            pos1,
            pos2,
            i1,
            i2,
            capacity_penalty,
        ) >= 0
}

/// The SWAP* candidates of the anchor at `pos1` of `r1` toward `r2` are
/// accounted for: memo-blocked at entry, or measured non-improving.
pub open spec fn swap_star_done(
    entry: &LocalSearch,
    sol: &Solution,
    p: &Problem,
    capacity_penalty: u64,
    r1: int,
    r2: int,
    pos1: int,
) -> bool {
    ||| move_blocked(entry, sol.routes@[r1].customers@[pos1] as int, 4, r2)
    ||| swap_star_settled(sol, p, capacity_penalty, r1, r2, pos1)
}

/// Every anchor of `r1` is accounted for toward `r2`.
pub open spec fn swap_star_pair_done(
    entry: &LocalSearch,
    sol: &Solution,
    p: &Problem,
    capacity_penalty: u64,
    r1: int,
    r2: int,
) -> bool {
    forall|pos1: int|
        #![trigger sol.routes@[r1].customers@[pos1]]
        0 <= pos1 < sol.routes@[r1].customers@.len() ==> swap_star_done(
            entry,
            sol,
            p,
            capacity_penalty,
            r1,
            r2,
            pos1,
        )
}

/// Every SWAP* candidate of a sweep is accounted for: every ordered pair
/// of distinct nonempty routes whose recorded sectors (held by `now`)
/// overlap.
pub open spec fn swap_star_no_gain(
    entry: &LocalSearch,
    now: &LocalSearch,
    sol: &Solution,
    p: &Problem,
    capacity_penalty: u64,
) -> bool {
    forall|r1: int, r2: int|
        #![trigger sol.routes@[r1], sol.routes@[r2]]
        0 <= r1 < sol.routes@.len() && 0 <= r2 < sol.routes@.len() && r2 != r1
            && sol.routes@[r1].customers@.len() > 0 && sol.routes@[r2].customers@.len() > 0
            && sectors_overlap(now.route_sectors@[r1], now.route_sectors@[r2])
            ==> swap_star_pair_done(entry, sol, p, capacity_penalty, r1, r2)
}

/// What the sweep's memo stamps mean for SWAP*: any anchor/target pair
/// the memo now blocks was blocked at entry or has been measured this
/// sweep.
pub open spec fn memo_inv_swap_star(
    entry: &LocalSearch,
    now: &LocalSearch,
    sol: &Solution,
    p: &Problem,
    capacity_penalty: u64,
) -> bool {
    forall|r1: int, pos1: int, r2: int|
        #![trigger move_blocked(now, sol.routes@[r1].customers@[pos1] as int, 4, r2)]
        0 <= r1 < sol.routes@.len() && 0 <= pos1 < sol.routes@[r1].customers@.len() && 0 <= r2
            < sol.routes@.len() && r2 != r1 && move_blocked(
            now,
            sol.routes@[r1].customers@[pos1] as int,
            4,
            r2,
        ) ==> swap_star_done(entry, sol, p, capacity_penalty, r1, r2, pos1)
}

/// As `memo_inv_swap_star`, except that one anchor/target pair — the one
/// whose stamp the sweep has just written and not yet measured — is not
/// yet accounted for.
pub open spec fn memo_inv_swap_star_except(
    entry: &LocalSearch,
    now: &LocalSearch,
    sol: &Solution,
    p: &Problem,
    capacity_penalty: u64,
    c_ex: int,
    r_ex: int,
) -> bool {
    forall|r1: int, pos1: int, r2: int|
        #![trigger move_blocked(now, sol.routes@[r1].customers@[pos1] as int, 4, r2)]
        0 <= r1 < sol.routes@.len() && 0 <= pos1 < sol.routes@[r1].customers@.len() && 0 <= r2
            < sol.routes@.len() && r2 != r1 && move_blocked(
            now,
            sol.routes@[r1].customers@[pos1] as int,
            4,
            r2,
        ) && !(sol.routes@[r1].customers@[pos1] as int == c_ex && r2 == r_ex)
            ==> swap_star_done(entry, sol, p, capacity_penalty, r1, r2, pos1)
}

impl LocalSearch {
    /// Record each route's polar sector; empty routes get the empty sector
    /// `(0, 0)`, which intersects nothing.
    pub fn calculate_route_sectors(&mut self, solution: &Solution, problem: &Problem)
        requires
            problem.wf(),
            solution.wf(problem),
        ensures
            final(self).route_sectors@.len() == solution.routes@.len(),
            final(self).granularity == old(self).granularity,
            final(self).customer_neighbors == old(self).customer_neighbors,
            final(self).route_timestamps == old(self).route_timestamps,
            final(self).move_timestamps == old(self).move_timestamps,
            final(self).move_count == old(self).move_count,
            final(self).n_tracked_routes() == old(self).n_tracked_routes(),
            forall|r: int|
                #![trigger final(self).route_sectors@[r]]
                0 <= r < solution.routes@.len() ==> {
                    &&& final(self).route_sectors@[r].route_index == r
                    &&& (solution.routes@[r].customers@.len() == 0
                        ==> final(self).route_sectors@[r].polar_min == 0
                            && final(self).route_sectors@[r].polar_max == 0)
                    &&& (solution.routes@[r].customers@.len() > 0 ==> exists|lo: int, hi: int|
                        route_angle_span(problem, solution.routes@[r].customers@, lo, hi)
                            && #[trigger] sector_of_span(final(self).route_sectors@[r], lo, hi))
                },
    {
        self.route_sectors = Vec::new();
        let depot_x = problem.nodes[problem.depot_index].x;
        let depot_y = problem.nodes[problem.depot_index].y;
        let nroutes = solution.routes.len();
        let mut r_idx: usize = 0;
        while r_idx < nroutes
            invariant
                problem.wf(),
                solution.wf(problem),
                nroutes == solution.routes@.len(),
                r_idx <= nroutes,
                self.route_sectors@.len() == r_idx,
                forall|r: int|
                    #![trigger self.route_sectors@[r]]
                    0 <= r < r_idx ==> {
                        &&& self.route_sectors@[r].route_index == r
                        &&& (solution.routes@[r].customers@.len() == 0
                            ==> self.route_sectors@[r].polar_min == 0
                                && self.route_sectors@[r].polar_max == 0)
                        &&& (solution.routes@[r].customers@.len() > 0 ==> exists|lo: int, hi: int|
                            route_angle_span(problem, solution.routes@[r].customers@, lo, hi)
                                && #[trigger] sector_of_span(self.route_sectors@[r], lo, hi))
                    },
                self.granularity == old(self).granularity,
                self.customer_neighbors == old(self).customer_neighbors,
                self.route_timestamps == old(self).route_timestamps,
                self.move_timestamps == old(self).move_timestamps,
                self.move_count == old(self).move_count,
                depot_x == problem.nodes@[problem.depot_index as int].x,
                depot_y == problem.nodes@[problem.depot_index as int].y,
                -1_000_000_000 <= depot_x <= 1_000_000_000,
                -1_000_000_000 <= depot_y <= 1_000_000_000,
            decreases nroutes - r_idx,
        {
            let ghost sec_pre = self.route_sectors@;
            let n = solution.routes[r_idx].customers.len();
            if n == 0 {
                self.route_sectors.push(RouteInfo { route_index: r_idx, polar_min: 0, polar_max: 0 });
                proof {
                    assert(self.route_sectors@[r_idx as int].route_index == r_idx);
                    assert(self.route_sectors@[r_idx as int].polar_min == 0);
                    assert(self.route_sectors@[r_idx as int].polar_max == 0);
                }
            } else {
                let mut min_angle: u64 = 8 * ANGLE_SCALE;
                let mut max_angle: u64 = 0;
                let mut k: usize = 0;
                while k < n
                    invariant
                        problem.wf(),
                        solution.wf(problem),
                        (r_idx as int) < solution.routes@.len(),
                        n == solution.routes@[r_idx as int].customers@.len(),
                        k <= n,
                        min_angle <= 8 * ANGLE_SCALE,
                        max_angle <= 4 * ANGLE_SCALE,
                        k == 0 ==> min_angle == 8 * ANGLE_SCALE && max_angle == 0,
                        depot_x == problem.nodes@[problem.depot_index as int].x,
                        depot_y == problem.nodes@[problem.depot_index as int].y,
                        -1_000_000_000 <= depot_x <= 1_000_000_000,
                        -1_000_000_000 <= depot_y <= 1_000_000_000,
                        k > 0 ==> (exists|q: int|
                            0 <= q < k && #[trigger] node_angle(
                                problem,
                                solution.routes@[r_idx as int].customers@[q] as int,
                            ) == min_angle as int),
                        k > 0 ==> (exists|q: int|
                            0 <= q < k && #[trigger] node_angle(
                                problem,
                                solution.routes@[r_idx as int].customers@[q] as int,
                            ) == max_angle as int),
                        forall|q: int|
                            0 <= q < k ==> min_angle as int <= #[trigger] node_angle(
                                problem,
                                solution.routes@[r_idx as int].customers@[q] as int,
                            ) <= max_angle as int,
                    decreases n - k,
                {
                    let c = solution.routes[r_idx].customers[k];
                    proof {
                        assert(solution.routes@[r_idx as int].wf(problem));
                        assert(cust_ok(problem, solution.routes@[r_idx as int].customers@[k as int]));
                        assert(problem.nodes@[c as int].bounded());
                    }
                    let node_x = problem.nodes[c].x;
                    let node_y = problem.nodes[c].y;
                    let angle = polar_angle_units(node_x - depot_x, node_y - depot_y);
                    proof {
                        assert(angle as int == node_angle(
                            problem,
                            solution.routes@[r_idx as int].customers@[k as int] as int,
                        ));
                    }
                    if angle < min_angle {
                        min_angle = angle;
                    }
                    if angle > max_angle {
                        max_angle = angle;
                    }
                    proof {
                        let s = solution.routes@[r_idx as int].customers@;
                        if min_angle == angle {
                            assert(node_angle(problem, s[k as int] as int) == min_angle as int);
                        } else {
                            let q0 = choose|q: int|
                                0 <= q < k && #[trigger] node_angle(problem, s[q] as int)
                                    == min_angle as int;
                            assert(node_angle(problem, s[q0] as int) == min_angle as int);
                        }
                        if max_angle == angle {
                            assert(node_angle(problem, s[k as int] as int) == max_angle as int);
                        } else {
                            let q1 = choose|q: int|
                                0 <= q < k && #[trigger] node_angle(problem, s[q] as int)
                                    == max_angle as int;
                            assert(node_angle(problem, s[q1] as int) == max_angle as int);
                        }
                    }
                    k += 1;
                }
                if min_angle > max_angle {
                    min_angle = max_angle;
                }
                let ghost lo = min_angle as int;
                let ghost hi = max_angle as int;
                proof {
                    assert(route_angle_span(
                        problem,
                        solution.routes@[r_idx as int].customers@,
                        lo,
                        hi,
                    ));
                }
                // A span beyond a half turn means the sector wraps the
                // zero direction: swap the ends and unroll the larger.
                if max_angle - min_angle > 2 * ANGLE_SCALE {
                    let t = min_angle;
                    min_angle = max_angle;
                    max_angle = t + 4 * ANGLE_SCALE;
                }
                self.route_sectors.push(
                    RouteInfo { route_index: r_idx, polar_min: min_angle, polar_max: max_angle },
                );
                proof {
                    assert(self.route_sectors@[r_idx as int].route_index == r_idx);
                    assert(sector_of_span(self.route_sectors@[r_idx as int], lo, hi));
                    assert(exists|lo2: int, hi2: int|
                        route_angle_span(
                            problem,
                            solution.routes@[r_idx as int].customers@,
                            lo2,
                            hi2,
                        ) && #[trigger] sector_of_span(self.route_sectors@[r_idx as int], lo2, hi2));
                }
            }
            proof {
                assert forall|r: int| 0 <= r < r_idx implies {
                    &&& (#[trigger] self.route_sectors@[r]).route_index == r
                    &&& (solution.routes@[r].customers@.len() == 0
                        ==> self.route_sectors@[r].polar_min == 0 && self.route_sectors@[r].polar_max
                            == 0)
                    &&& (solution.routes@[r].customers@.len() > 0 ==> exists|lo: int, hi: int|
                        route_angle_span(problem, solution.routes@[r].customers@, lo, hi)
                            && #[trigger] sector_of_span(self.route_sectors@[r], lo, hi))
                } by {
                    assert(self.route_sectors@[r] == sec_pre[r]);
                    if solution.routes@[r].customers@.len() > 0 {
                        let (lo0, hi0) = choose|lo0: int, hi0: int|
                            route_angle_span(problem, solution.routes@[r].customers@, lo0, hi0)
                                && #[trigger] sector_of_span(sec_pre[r], lo0, hi0);
                        assert(sector_of_span(self.route_sectors@[r], lo0, hi0));
                    }
                }
                assert forall|r: int|
                    #![trigger self.route_sectors@[r]]
                    0 <= r < r_idx + 1 implies {
                    &&& self.route_sectors@[r].route_index == r
                    &&& (solution.routes@[r].customers@.len() == 0
                        ==> self.route_sectors@[r].polar_min == 0 && self.route_sectors@[r].polar_max
                            == 0)
                    &&& (solution.routes@[r].customers@.len() > 0 ==> exists|lo: int, hi: int|
                        route_angle_span(problem, solution.routes@[r].customers@, lo, hi)
                            && #[trigger] sector_of_span(self.route_sectors@[r], lo, hi))
                } by {
                    if r < r_idx {
                        assert(self.route_sectors@[r].route_index == r);
                    } else {
                        assert(self.route_sectors@[r].route_index == r);
                    }
                }
            }
            r_idx += 1;
        }
    }

    /// Whether two polar sectors overlap; degenerate (empty) sectors never
    /// overlap anything.
    pub fn sectors_intersect(&self, s1: &RouteInfo, s2: &RouteInfo) -> (r: bool)
        ensures
            r == sectors_overlap(*s1, *s2),
    {
        if s1.polar_min == s1.polar_max || s2.polar_min == s2.polar_max {
            return false;
        }
        !(s1.polar_max < s2.polar_min || s2.polar_max < s1.polar_min)
    }

    /// The three cheapest insertion positions (or fewer on a short route)
    /// for a customer, with the round-trip distance each would give.
    pub fn find_top_insertion_positions(&self, customer: usize, route: &Route, problem: &Problem) -> (r: Vec<
        (usize, u64),
    >)
        requires
            problem.wf(),
            route.wf(problem),
            route.caches_current(problem),
            cust_ok(problem, customer),
            route.customers@.len() < crate::MAX_NODES,
        ensures
            forall|q: int| 0 <= q < r@.len() ==> (#[trigger] r@[q]).0 <= route.customers@.len(),
            r@.len() >= 1,
    {
        let n = route.customers.len();
        let mut positions: Vec<(usize, u64)> = Vec::new();
        let mut i: usize = 0;
        while i <= n
            invariant
                problem.wf(),
                route.wf(problem),
                route.caches_current(problem),
                cust_ok(problem, customer),
                n == route.customers@.len(),
                n < crate::MAX_NODES,
                i <= n + 1,
                positions@.len() == i,
                forall|q: int| 0 <= q < positions@.len() ==> (#[trigger] positions@[q]).0 <= n,
            decreases n + 1 - i,
        {
            let cost = calculate_insertion_cost(route, customer, i, problem);
            positions.push((i, cost));
            i += 1;
        }
        // Insertion sort ascending by cost.
        let len = positions.len();
        let mut a: usize = 1;
        while a < len
            invariant
                len == positions@.len(),
                forall|q: int| 0 <= q < positions@.len() ==> (#[trigger] positions@[q]).0 <= n,
            decreases len - a,
        {
            let mut b: usize = a;
            while b > 0 && positions[b - 1].1 > positions[b].1
                invariant
                    b <= a < len,
                    len == positions@.len(),
                    forall|q: int| 0 <= q < positions@.len() ==> (#[trigger] positions@[q]).0 <= n,
                decreases b,
            {
                let x = positions[b - 1];
                let y = positions[b];
                *vstd::std_specs::vec::vec_index_mut(&mut positions, b - 1) = y;
                *vstd::std_specs::vec::vec_index_mut(&mut positions, b) = x;
                b -= 1;
            }
            a += 1;
        }
        let count = if 3 < positions.len() {
            3
        } else {
            positions.len()
        };
        positions.truncate(count);
        proof {
            assert(forall|q: int| 0 <= q < positions@.len() ==> (#[trigger] positions@[q]).0 <= n);
        }
        positions
    }

    /// Try every SWAP* move across sector-overlapping route pairs and
    /// apply the first improving one; report whether one was applied.  The
    /// customers keep exactly their multiset.
    pub fn swap_star_neighborhood(
        &mut self,
        solution: &mut Solution,
        problem: &Problem,
        capacity_penalty: u64,
    ) -> (improved: bool)
        requires
            problem.wf(),
            old(solution).wf(problem),
            old(solution).evaluated(problem, capacity_penalty),
            concat_routes(old(solution).routes@).no_duplicates(),
            old(self).neighbors_ready(problem),
            old(self).n_tracked_routes() == old(solution).routes@.len(),
        ensures
            final(self).neighbors_ready(problem),
            final(self).granularity == old(self).granularity,
            final(self).n_tracked_routes() == final(solution).routes@.len(),
            final(solution).routes@.len() == old(solution).routes@.len(),
            final(solution).giant_tour == old(solution).giant_tour,
            final(solution).wf(problem),
            final(solution).evaluated(problem, capacity_penalty),
            concat_routes(final(solution).routes@).to_multiset() == concat_routes(
                old(solution).routes@,
            ).to_multiset(),
            concat_routes(final(solution).routes@).no_duplicates(),
            improved ==> final(solution).cost < old(solution).cost,
            !improved ==> *final(solution) == *old(solution),
            !improved ==> swap_star_no_gain(
                old(self),
                final(self),
                old(solution),
                problem,
                capacity_penalty,
            ),
    {
        proof {
            crate::solution::lemma_concat_nodup(old(solution).routes@);
        }
        self.calculate_route_sectors(solution, problem);
        let ghost sectors0 = self.route_sectors@;
        let nroutes = solution.routes.len();
        let mut r1_idx: usize = 0;
        while r1_idx < nroutes
            invariant
                problem.wf(),
                *solution == *old(solution),
                solution.wf(problem),
                solution.evaluated(problem, capacity_penalty),
                self.neighbors_ready(problem),
                self.granularity == old(self).granularity,
                self.route_timestamps == old(self).route_timestamps,
                self.customer_neighbors == old(self).customer_neighbors,
                self.n_tracked_routes() == solution.routes@.len(),
                self.route_sectors@ == sectors0,
                sectors0.len() == nroutes,
                nroutes == solution.routes@.len(),
                concat_routes(solution.routes@).no_duplicates(),
                r1_idx <= nroutes,
                memo_inv_swap_star(old(self), self, solution, problem, capacity_penalty),
                forall|ra: int, rb: int|
                    #![trigger solution.routes@[ra], solution.routes@[rb]]
                    0 <= ra < r1_idx && 0 <= rb < nroutes && rb != ra
                        && solution.routes@[ra].customers@.len() > 0
                        && solution.routes@[rb].customers@.len() > 0 && sectors_overlap(
                        sectors0[ra],
                        sectors0[rb],
                    ) ==> swap_star_pair_done(old(self), solution, problem, capacity_penalty, ra, rb),
            decreases nroutes - r1_idx,
        {
            let n1 = solution.routes[r1_idx].customers.len();
            if n1 > 0 {
                let r1_info = self.route_sectors[r1_idx];
                let mut r2_idx: usize = 0;
                while r2_idx < nroutes
                    invariant
                        problem.wf(),
                        *solution == *old(solution),
                        solution.wf(problem),
                        solution.evaluated(problem, capacity_penalty),
                        self.neighbors_ready(problem),
                        self.granularity == old(self).granularity,
                        self.route_timestamps == old(self).route_timestamps,
                        self.customer_neighbors == old(self).customer_neighbors,
                        self.n_tracked_routes() == solution.routes@.len(),
                        self.route_sectors@ == sectors0,
                        sectors0.len() == nroutes,
                        nroutes == solution.routes@.len(),
                        concat_routes(solution.routes@).no_duplicates(),
                        (r1_idx as int) < nroutes,
                        n1 == solution.routes@[r1_idx as int].customers@.len(),
                        n1 > 0,
                        r1_info == sectors0[r1_idx as int],
                        r2_idx <= nroutes,
                        memo_inv_swap_star(old(self), self, solution, problem, capacity_penalty),
                        forall|rb: int|
                            #![trigger solution.routes@[rb]]
                            0 <= rb < r2_idx && rb != r1_idx
                                && solution.routes@[rb].customers@.len() > 0 && sectors_overlap(
                                sectors0[r1_idx as int],
                                sectors0[rb],
                            ) ==> swap_star_pair_done(
                                old(self),
                                solution,
                                problem,
                                capacity_penalty,
                                r1_idx as int,
                                rb,
                            ),
                    decreases nroutes - r2_idx,
                {
                    let n2 = solution.routes[r2_idx].customers.len();
                    if r2_idx != r1_idx && n2 > 0 {
                        let r2_info = self.route_sectors[r2_idx];
                        if self.sectors_intersect(&r1_info, &r2_info) {
                            let mut pos1: usize = 0;
                            while pos1 < n1
                                invariant
                                    problem.wf(),
                                    *solution == *old(solution),
                                    solution.wf(problem),
                                    solution.evaluated(problem, capacity_penalty),
                                    self.neighbors_ready(problem),
                                    self.granularity == old(self).granularity,
                                    self.route_timestamps == old(self).route_timestamps,
                                    self.customer_neighbors == old(self).customer_neighbors,
                                    self.n_tracked_routes() == solution.routes@.len(),
                                    self.route_sectors@ == sectors0,
                                    sectors0.len() == nroutes,
                                    nroutes == solution.routes@.len(),
                                    concat_routes(solution.routes@).no_duplicates(),
                                    (r1_idx as int) < nroutes,
                                    (r2_idx as int) < nroutes,
                                    r1_idx != r2_idx,
                                    n1 == solution.routes@[r1_idx as int].customers@.len(),
                                    n2 == solution.routes@[r2_idx as int].customers@.len(),
                                    n2 > 0,
                                    pos1 <= n1,
                                    memo_inv_swap_star(old(self), self, solution, problem, capacity_penalty),
                                    forall|q: int|
                                        #![trigger solution.routes@[r1_idx as int].customers@[q]]
                                        0 <= q < pos1 ==> swap_star_done(
                                            old(self),
                                            solution,
                                            problem,
                                            capacity_penalty,
                                            r1_idx as int,
                                            r2_idx as int,
                                            q,
                                        ),
                                decreases n1 - pos1,
                            {
                                let customer1 = solution.routes[r1_idx].customers[pos1];
                                proof {
                                    assert(solution.routes@[r1_idx as int].wf(problem));
                                    assert(cust_ok(
                                        problem,
                                        solution.routes@[r1_idx as int].customers@[pos1 as int],
                                    ));
                                    lemma_two_routes_bound(solution.routes@, r1_idx as int, r2_idx as int);
                                }
                                let ghost pre_self = *self;
                                let tested = self.is_move_valid(customer1, 4, r2_idx);
                                proof {
                                    if !tested {
                                        assert(move_blocked(
                                            &pre_self,
                                            customer1 as int,
                                            4,
                                            r2_idx as int,
                                        ));
                                        assert(swap_star_done(
                                            old(self),
                                            solution,
                                            problem,
                                            capacity_penalty,
                                            r1_idx as int,
                                            r2_idx as int,
                                            pos1 as int,
                                        ));
                                    } else {
                                        // The fresh stamp only blocks this
                                        // anchor/target pair, not yet measured.
                                        crate::solution::lemma_concat_nodup(solution.routes@);
                                        assert forall|ra: int, pa: int, rb: int|
                                            #![trigger move_blocked(self, solution.routes@[ra].customers@[pa] as int, 4, rb)]
                                            0 <= ra < solution.routes@.len() && 0 <= pa
                                                < solution.routes@[ra].customers@.len() && 0 <= rb
                                                < solution.routes@.len() && rb != ra && move_blocked(
                                                self,
                                                solution.routes@[ra].customers@[pa] as int,
                                                4,
                                                rb,
                                            ) && !(solution.routes@[ra].customers@[pa] as int
                                                == customer1 as int && rb == r2_idx as int)
                                                implies swap_star_done(
                                            old(self),
                                            solution,
                                            problem,
                                            capacity_penalty,
                                            ra,
                                            rb,
                                            pa,
                                        ) by {
                                            let cv = solution.routes@[ra].customers@[pa];
                                            if !move_blocked(&pre_self, cv as int, 4, rb) {
                                                assert(cust_ok(problem, cv)) by {
                                                    assert(solution.routes@[ra].wf(problem));
                                                }
                                                super::lemma_move_key_injective(
                                                    cv as int,
                                                    4,
                                                    rb,
                                                    customer1 as int,
                                                    4,
                                                    r2_idx as int,
                                                );
                                            }
                                        }
                                        assert(memo_inv_swap_star_except(
                                            old(self),
                                            self,
                                            solution,
                                            problem,
                                            capacity_penalty,
                                            customer1 as int,
                                            r2_idx as int,
                                        ));
                                    }
                                }
                                if tested {
                                    let top_r2 = self.find_top_insertion_positions(
                                        customer1,
                                        &solution.routes[r2_idx],
                                        problem,
                                    );
                                    let mut pos2: usize = 0;
                                    while pos2 < n2
                                        invariant
                                            problem.wf(),
                                            *solution == *old(solution),
                                            solution.wf(problem),
                                            solution.evaluated(problem, capacity_penalty),
                                            self.neighbors_ready(problem),
                                            self.granularity == old(self).granularity,
                                            self.route_timestamps == old(self).route_timestamps,
                                            self.customer_neighbors == old(self).customer_neighbors,
                                            self.n_tracked_routes() == solution.routes@.len(),
                                            self.route_sectors@ == sectors0,
                                            sectors0.len() == nroutes,
                                            nroutes == solution.routes@.len(),
                                            concat_routes(solution.routes@).no_duplicates(),
                                            (r1_idx as int) < nroutes,
                                            (r2_idx as int) < nroutes,
                                            r1_idx != r2_idx,
                                            n1 == solution.routes@[r1_idx as int].customers@.len(),
                                            n2 == solution.routes@[r2_idx as int].customers@.len(),
                                            n2 > 0,
                                            (pos1 as int) < n1,
                                            customer1 == solution.routes@[r1_idx as int].customers@[pos1 as int],
                                            forall|q: int|
                                                0 <= q < top_r2@.len()
                                                    ==> (#[trigger] top_r2@[q]).0 <= n2,
                                            top_r2@.len() >= 1,
                                            pos2 <= n2,
                                            memo_inv_swap_star_except(
                                                old(self),
                                                self,
                                                solution,
                                                problem,
                                                capacity_penalty,
                                                customer1 as int,
                                                r2_idx as int,
                                            ),
                                            pos2 >= 1 ==> swap_star_settled(
                                                solution,
                                                problem,
                                                capacity_penalty,
                                                r1_idx as int,
                                                r2_idx as int,
                                                pos1 as int,
                                            ),
                                        decreases n2 - pos2,
                                    {
                                        let customer2 = solution.routes[r2_idx].customers[pos2];
                                        proof {
                                            assert(solution.routes@[r2_idx as int].wf(problem));
                                            assert(cust_ok(
                                                problem,
                                                solution.routes@[r2_idx as int].customers@[pos2 as int],
                                            ));
                                            lemma_two_routes_bound(
                                                solution.routes@,
                                                r1_idx as int,
                                                r2_idx as int,
                                            );
                                        }
                                        let top_r1 = self.find_top_insertion_positions(
                                            customer2,
                                            &solution.routes[r1_idx],
                                            problem,
                                        );
                                        let (delta, best_pos1, best_pos2) = Self::evaluate_swap_star(
                                            solution,
                                            problem,
                                            r1_idx,
                                            r2_idx,
                                            pos1,
                                            pos2,
                                            &top_r1,
                                            &top_r2,
                                            capacity_penalty,
                                        );
                                        proof {
                                            if delta >= 0 {
                                                assert(swap_star_delta(
                                                    solution,
                                                    problem,
                                                    r1_idx as int,
                                                    r2_idx as int,
                                                    pos1 as int,
                                                    pos2 as int,
                                                    best_pos1 as int,
                                                    best_pos2 as int,
                                                    capacity_penalty,
                                                ) >= 0);
                                                assert(swap_star_settled(
                                                    solution,
                                                    problem,
                                                    capacity_penalty,
                                                    r1_idx as int,
                                                    r2_idx as int,
                                                    pos1 as int,
                                                ));
                                            }
                                        }
                                        if delta < 0 {
                                            let ghost routes0 = solution.routes@;
                                            let ghost cost0 = solution.cost;
                                            Self::apply_swap_star(
                                                solution,
                                                problem,
                                                r1_idx,
                                                r2_idx,
                                                pos1,
                                                pos2,
                                                best_pos1,
                                                best_pos2,
                                            );
                                            self.update_route_timestamp(r1_idx);
                                            self.update_route_timestamp(r2_idx);
                                            let ghost mid = solution.routes@;
                                            solution.evaluate(problem, capacity_penalty);
                                            proof {
                                                lemma_routes_same_customers(
                                                    problem,
                                                    solution.routes@,
                                                    mid,
                                                );
                                                let s1 = routes0[r1_idx as int].customers@;
                                                let s2 = routes0[r2_idx as int].customers@;
                                                let a1: int = if best_pos1 > pos1 {
                                                    best_pos1 - 1
                                                } else {
                                                    best_pos1 as int
                                                };
                                                let a2: int = if best_pos2 > pos2 {
                                                    best_pos2 - 1
                                                } else {
                                                    best_pos2 as int
                                                };
                                                lemma_swap_star_cost_drop(
                                                    problem,
                                                    routes0,
                                                    mid,
                                                    r1_idx as int,
                                                    r2_idx as int,
                                                    pos1 as int,
                                                    pos2 as int,
                                                    a1,
                                                    a2,
                                                );
                                                let cap = problem.vehicle_capacity as int;
                                                let se0 = sol_excess(problem, routes0);
                                                let e1 = excess_of(load_of(problem, s1), cap);
                                                let e2 = excess_of(load_of(problem, s2), cap);
                                                let e1p = excess_of(
                                                    load_of(problem, s1) - problem.demand(
                                                        s1[pos1 as int] as int,
                                                    ) + problem.demand(s2[pos2 as int] as int),
                                                    cap,
                                                );
                                                let e2p = excess_of(
                                                    load_of(problem, s2) - problem.demand(
                                                        s2[pos2 as int] as int,
                                                    ) + problem.demand(s1[pos1 as int] as int),
                                                    cap,
                                                );
                                                let pen = capacity_penalty as int;
                                                assert(pen * (se0 + e1p - e1 + e2p - e2) == pen * se0
                                                    + pen * e1p - pen * e1 + pen * e2p - pen * e2)
                                                    by (nonlinear_arith);
                                                assert(solution.cost as int == cost0 + delta);
                                                assert(solution.cost < cost0);
                                                broadcast use vstd::seq_lib::group_to_multiset_ensures;

                                                concat_routes(
                                                    routes0,
                                                ).lemma_multiset_has_no_duplicates();
                                                concat_routes(
                                                    solution.routes@,
                                                ).lemma_multiset_has_no_duplicates_conv();
                                            }
                                            return true;
                                        }
                                        pos2 += 1;
                                    }
                                    proof {
                                        // The measured pair is now settled, so
                                        // the exception closes and the memo
                                        // invariant holds again.
                                        crate::solution::lemma_concat_nodup(solution.routes@);
                                        assert forall|ra: int, pa: int, rb: int|
                                            #![trigger move_blocked(self, solution.routes@[ra].customers@[pa] as int, 4, rb)]
                                            0 <= ra < solution.routes@.len() && 0 <= pa
                                                < solution.routes@[ra].customers@.len() && 0 <= rb
                                                < solution.routes@.len() && rb != ra && move_blocked(
                                                self,
                                                solution.routes@[ra].customers@[pa] as int,
                                                4,
                                                rb,
                                            ) implies swap_star_done(
                                            old(self),
                                            solution,
                                            problem,
                                            capacity_penalty,
                                            ra,
                                            rb,
                                            pa,
                                        ) by {
                                            let cv = solution.routes@[ra].customers@[pa];
                                            if cv as int == customer1 as int && rb == r2_idx as int {
                                                assert(ra == r1_idx && pa == pos1) by {
                                                    if ra != r1_idx {
                                                        assert(solution.routes@[ra].customers@.contains(
                                                            cv,
                                                        ));
                                                        assert(solution.routes@[r1_idx as int].customers@.contains(
                                                            customer1,
                                                        ));
                                                    } else {
                                                        assert(solution.routes@[r1_idx as int].customers@.no_duplicates());
                                                    }
                                                }
                                                assert(swap_star_settled(
                                                    solution,
                                                    problem,
                                                    capacity_penalty,
                                                    r1_idx as int,
                                                    r2_idx as int,
                                                    pos1 as int,
                                                ));
                                            }
                                        }
                                        assert(memo_inv_swap_star(
                                            old(self),
                                            self,
                                            solution,
                                            problem,
                                            capacity_penalty,
                                        ));
                                        assert(swap_star_done(
                                            old(self),
                                            solution,
                                            problem,
                                            capacity_penalty,
                                            r1_idx as int,
                                            r2_idx as int,
                                            pos1 as int,
                                        ));
                                    }
                                }
                                pos1 += 1;
                            }
                            proof {
                                assert(swap_star_pair_done(
                                    old(self),
                                    solution,
                                    problem,
                                    capacity_penalty,
                                    r1_idx as int,
                                    r2_idx as int,
                                ));
                            }
                        }
                    }
                    r2_idx += 1;
                }
            }
            r1_idx += 1;
        }
        proof {
            assert(swap_star_no_gain(old(self), self, solution, problem, capacity_penalty));
            assert(*solution == *old(solution));
        }
        false
    }

    /// The exact penalised-cost change of the best SWAP* combination among
    /// the candidate insertion positions, with the two chosen positions.
    fn evaluate_swap_star(
        solution: &Solution,
        problem: &Problem,
        r1_idx: usize,
        r2_idx: usize,
        pos1: usize,
        pos2: usize,
        top_positions_in_r1: &Vec<(usize, u64)>,
        top_positions_in_r2: &Vec<(usize, u64)>,
        capacity_penalty: u64,
    ) -> (r: (i128, usize, usize))
        requires
            problem.wf(),
            solution.wf(problem),
            solution.routes_fresh(problem),
            (r1_idx as int) < solution.routes@.len(),
            (r2_idx as int) < solution.routes@.len(),
            r1_idx != r2_idx,
            (pos1 as int) < solution.routes@[r1_idx as int].customers@.len(),
            (pos2 as int) < solution.routes@[r2_idx as int].customers@.len(),
            forall|q: int|
                0 <= q < top_positions_in_r1@.len()
                    ==> (#[trigger] top_positions_in_r1@[q]).0
                        <= solution.routes@[r1_idx as int].customers@.len(),
            forall|q: int|
                0 <= q < top_positions_in_r2@.len()
                    ==> (#[trigger] top_positions_in_r2@[q]).0
                        <= solution.routes@[r2_idx as int].customers@.len(),
        ensures
            r.1 <= solution.routes@[r1_idx as int].customers@.len(),
            r.2 <= solution.routes@[r2_idx as int].customers@.len(),
            r.0 == swap_star_delta(
                solution,
                problem,
                r1_idx as int,
                r2_idx as int,
                pos1 as int,
                pos2 as int,
                r.1 as int,
                r.2 as int,
                capacity_penalty,
            ),
    {
        let r1 = &solution.routes[r1_idx];
        let r2 = &solution.routes[r2_idx];
        let n1 = r1.customers.len();
        let n2 = r2.customers.len();
        let customer1 = r1.customers[pos1];
        let customer2 = r2.customers[pos2];
        proof {
            assert(solution.routes@[r1_idx as int].wf(problem));
            assert(solution.routes@[r2_idx as int].wf(problem));
            assert(cust_ok(problem, solution.routes@[r1_idx as int].customers@[pos1 as int]));
            assert(cust_ok(problem, solution.routes@[r2_idx as int].customers@[pos2 as int]));
            let s1 = solution.routes@[r1_idx as int].customers@;
            let s2 = solution.routes@[r2_idx as int].customers@;
            lemma_load_of_bound(problem, s1);
            lemma_load_of_bound(problem, s2);
            crate::solution::lemma_load_of_remove(problem, s1, pos1 as int);
            crate::solution::lemma_load_of_remove(problem, s2, pos2 as int);
            assert(valid_customers(problem, s1.remove(pos1 as int))) by {
                assert(forall|q: int|
                    0 <= q < s1.remove(pos1 as int).len()
                        ==> s1.remove(pos1 as int)[q] == (if q < pos1 {
                            #[trigger] s1[q]
                        } else {
                            s1[q + 1]
                        }));
            }
            assert(valid_customers(problem, s2.remove(pos2 as int))) by {
                assert(forall|q: int|
                    0 <= q < s2.remove(pos2 as int).len()
                        ==> s2.remove(pos2 as int)[q] == (if q < pos2 {
                            #[trigger] s2[q]
                        } else {
                            s2[q + 1]
                        }));
            }
            lemma_load_of_bound(problem, s1.remove(pos1 as int));
            lemma_load_of_bound(problem, s2.remove(pos2 as int));
            lemma_route_dist_bound(problem, s1);
            lemma_route_dist_bound(problem, s2);
        }
        let demand1 = problem.nodes[customer1].demand;
        let demand2 = problem.nodes[customer2].demand;
        let r1_new_load = r1.load - demand1 + demand2;
        let r2_new_load = r2.load - demand2 + demand1;
        let r1_pen = penalty_delta(capacity_penalty, r1.load, r1_new_load, problem.vehicle_capacity);
        let r2_pen = penalty_delta(capacity_penalty, r2.load, r2_new_load, problem.vehicle_capacity);

        // Candidate insertion positions in r2 for customer1: the cheapest
        // ones, plus customer2's own slot.
        let mut check_r2: Vec<usize> = Vec::new();
        let mut q: usize = 0;
        let mut has_original2: bool = false;
        while q < top_positions_in_r2.len()
            invariant
                q <= top_positions_in_r2@.len(),
                n2 == solution.routes@[r2_idx as int].customers@.len(),
                forall|k: int|
                    0 <= k < top_positions_in_r2@.len() ==> (#[trigger] top_positions_in_r2@[k]).0 <= n2,
                forall|k: int| 0 <= k < check_r2@.len() ==> #[trigger] check_r2@[k] <= n2,
                has_original2 ==> check_r2@.len() >= 1,
                (pos2 as int) < n2,
            decreases top_positions_in_r2@.len() - q,
        {
            let p = top_positions_in_r2[q].0;
            check_r2.push(p);
            if p == pos2 {
                has_original2 = true;
            }
            q += 1;
        }
        if !has_original2 {
            check_r2.push(pos2);
        }
        let mut check_r1: Vec<usize> = Vec::new();
        let mut q1: usize = 0;
        let mut has_original1: bool = false;
        while q1 < top_positions_in_r1.len()
            invariant
                q1 <= top_positions_in_r1@.len(),
                n1 == solution.routes@[r1_idx as int].customers@.len(),
                forall|k: int|
                    0 <= k < top_positions_in_r1@.len() ==> (#[trigger] top_positions_in_r1@[k]).0 <= n1,
                forall|k: int| 0 <= k < check_r1@.len() ==> #[trigger] check_r1@[k] <= n1,
                has_original1 ==> check_r1@.len() >= 1,
                (pos1 as int) < n1,
            decreases top_positions_in_r1@.len() - q1,
        {
            let p = top_positions_in_r1[q1].0;
            check_r1.push(p);
            if p == pos1 {
                has_original1 = true;
            }
            q1 += 1;
        }
        if !has_original1 {
            check_r1.push(pos1);
        }

        let mut best_delta: i128 = 0;
        let mut best_pos1: usize = pos1;
        let mut best_pos2: usize = pos2;
        let mut started: bool = false;
        proof {
            assert(check_r2@.len() >= 1 && check_r1@.len() >= 1);
        }
        let mut a: usize = 0;
        while a < check_r2.len()
            invariant
                problem.wf(),
                solution.wf(problem),
                solution.routes_fresh(problem),
                (r1_idx as int) < solution.routes@.len(),
                (r2_idx as int) < solution.routes@.len(),
                r1_idx != r2_idx,
                n1 == solution.routes@[r1_idx as int].customers@.len(),
                n2 == solution.routes@[r2_idx as int].customers@.len(),
                (pos1 as int) < n1,
                (pos2 as int) < n2,
                customer1 == solution.routes@[r1_idx as int].customers@[pos1 as int],
                customer2 == solution.routes@[r2_idx as int].customers@[pos2 as int],
                cust_ok(problem, customer1),
                cust_ok(problem, customer2),
                forall|k: int| 0 <= k < check_r2@.len() ==> #[trigger] check_r2@[k] <= n2,
                forall|k: int| 0 <= k < check_r1@.len() ==> #[trigger] check_r1@[k] <= n1,
                a <= check_r2@.len(),
                check_r1@.len() >= 1,
                a >= 1 ==> started,
                best_pos1 <= n1,
                best_pos2 <= n2,
                started ==> best_delta as int == swap_star_delta(
                    solution,
                    problem,
                    r1_idx as int,
                    r2_idx as int,
                    pos1 as int,
                    pos2 as int,
                    best_pos1 as int,
                    best_pos2 as int,
                    capacity_penalty,
                ),
                r1_pen as int == capacity_penalty * excess_of(
                    load_of(problem, solution.routes@[r1_idx as int].customers@) - problem.demand(
                        customer1 as int,
                    ) + problem.demand(customer2 as int),
                    problem.vehicle_capacity as int,
                ) - capacity_penalty * excess_of(
                    load_of(problem, solution.routes@[r1_idx as int].customers@),
                    problem.vehicle_capacity as int,
                ),
                r2_pen as int == capacity_penalty * excess_of(
                    load_of(problem, solution.routes@[r2_idx as int].customers@) - problem.demand(
                        customer2 as int,
                    ) + problem.demand(customer1 as int),
                    problem.vehicle_capacity as int,
                ) - capacity_penalty * excess_of(
                    load_of(problem, solution.routes@[r2_idx as int].customers@),
                    problem.vehicle_capacity as int,
                ),
                -4_000_000_000_000_000_000_000_000_000_000_000 <= r1_pen
                    <= 4_000_000_000_000_000_000_000_000_000_000_000,
                -4_000_000_000_000_000_000_000_000_000_000_000 <= r2_pen
                    <= 4_000_000_000_000_000_000_000_000_000_000_000,
            decreases check_r2@.len() - a,
        {
            let insert_pos2 = check_r2[a];
            let mut b: usize = 0;
            while b < check_r1.len()
                invariant
                    problem.wf(),
                    solution.wf(problem),
                    solution.routes_fresh(problem),
                    (r1_idx as int) < solution.routes@.len(),
                    (r2_idx as int) < solution.routes@.len(),
                    r1_idx != r2_idx,
                    n1 == solution.routes@[r1_idx as int].customers@.len(),
                    n2 == solution.routes@[r2_idx as int].customers@.len(),
                    (pos1 as int) < n1,
                    (pos2 as int) < n2,
                    customer1 == solution.routes@[r1_idx as int].customers@[pos1 as int],
                    customer2 == solution.routes@[r2_idx as int].customers@[pos2 as int],
                    cust_ok(problem, customer1),
                    cust_ok(problem, customer2),
                    forall|k: int| 0 <= k < check_r1@.len() ==> #[trigger] check_r1@[k] <= n1,
                    insert_pos2 <= n2,
                    b <= check_r1@.len(),
                    a >= 1 || b >= 1 ==> started,
                    best_pos1 <= n1,
                    best_pos2 <= n2,
                    started ==> best_delta as int == swap_star_delta(
                        solution,
                        problem,
                        r1_idx as int,
                        r2_idx as int,
                        pos1 as int,
                        pos2 as int,
                        best_pos1 as int,
                        best_pos2 as int,
                        capacity_penalty,
                    ),
                    r1_pen as int == capacity_penalty * excess_of(
                        load_of(problem, solution.routes@[r1_idx as int].customers@) - problem.demand(
                            customer1 as int,
                        ) + problem.demand(customer2 as int),
                        problem.vehicle_capacity as int,
                    ) - capacity_penalty * excess_of(
                        load_of(problem, solution.routes@[r1_idx as int].customers@),
                        problem.vehicle_capacity as int,
                    ),
                    r2_pen as int == capacity_penalty * excess_of(
                        load_of(problem, solution.routes@[r2_idx as int].customers@) - problem.demand(
                            customer2 as int,
                        ) + problem.demand(customer1 as int),
                        problem.vehicle_capacity as int,
                    ) - capacity_penalty * excess_of(
                        load_of(problem, solution.routes@[r2_idx as int].customers@),
                        problem.vehicle_capacity as int,
                    ),
                    -4_000_000_000_000_000_000_000_000_000_000_000 <= r1_pen
                        <= 4_000_000_000_000_000_000_000_000_000_000_000,
                    -4_000_000_000_000_000_000_000_000_000_000_000 <= r2_pen
                        <= 4_000_000_000_000_000_000_000_000_000_000_000,
                decreases check_r1@.len() - b,
            {
                let insert_pos1 = check_r1[b];
                let r1_insert_pos = if insert_pos1 > pos1 {
                    insert_pos1 - 1
                } else {
                    insert_pos1
                };
                let r2_insert_pos = if insert_pos2 > pos2 {
                    insert_pos2 - 1
                } else {
                    insert_pos2
                };
                proof {
                    assert(solution.routes@[r1_idx as int].wf(problem));
                    assert(solution.routes@[r2_idx as int].wf(problem));
                }
                let r1_temp = create_temp_route(
                    &solution.routes[r1_idx],
                    pos1,
                    customer2,
                    r1_insert_pos,
                    problem,
                );
                let r2_temp = create_temp_route(
                    &solution.routes[r2_idx],
                    pos2,
                    customer1,
                    r2_insert_pos,
                    problem,
                );
                proof {
                    lemma_route_dist_bound(problem, r1_temp.customers@);
                    lemma_route_dist_bound(problem, r2_temp.customers@);
                    let s1 = solution.routes@[r1_idx as int].customers@;
                    let s2 = solution.routes@[r2_idx as int].customers@;
                    lemma_route_dist_bound(problem, s1);
                    lemma_route_dist_bound(problem, s2);
                }
                let r1_delta = (r1_temp.distance as i128) - (solution.routes[r1_idx].distance as i128);
                let r2_delta = (r2_temp.distance as i128) - (solution.routes[r2_idx].distance as i128);
                let total = (PENALTY_UNIT as i128) * (r1_delta + r2_delta) + r1_pen + r2_pen;
                proof {
                    assert(total as int == swap_star_delta(
                        solution,
                        problem,
                        r1_idx as int,
                        r2_idx as int,
                        pos1 as int,
                        pos2 as int,
                        insert_pos1 as int,
                        insert_pos2 as int,
                        capacity_penalty,
                    ));
                }
                if !started || total < best_delta {
                    best_delta = total;
                    best_pos1 = insert_pos1;
                    best_pos2 = insert_pos2;
                    started = true;
                }
                b += 1;
            }
            a += 1;
        }
        (best_delta, best_pos1, best_pos2)
    }

    /// Remove the two customers and re-insert each in the other route at
    /// its chosen position, marking both routes modified.
    fn apply_swap_star(
        solution: &mut Solution,
        problem: &Problem,
        r1_idx: usize,
        r2_idx: usize,
        pos1: usize,
        pos2: usize,
        insert_pos1: usize,
        insert_pos2: usize,
    )
        requires
            problem.wf(),
            old(solution).wf(problem),
            old(solution).caches_ok(problem),
            (r1_idx as int) < old(solution).routes@.len(),
            (r2_idx as int) < old(solution).routes@.len(),
            r1_idx != r2_idx,
            (pos1 as int) < old(solution).routes@[r1_idx as int].customers@.len(),
            (pos2 as int) < old(solution).routes@[r2_idx as int].customers@.len(),
            insert_pos1 <= old(solution).routes@[r1_idx as int].customers@.len(),
            insert_pos2 <= old(solution).routes@[r2_idx as int].customers@.len(),
        ensures
            final(solution).wf(problem),
            final(solution).caches_ok(problem),
            final(solution).routes@.len() == old(solution).routes@.len(),
            final(solution).giant_tour == old(solution).giant_tour,
            forall|k: int|
                0 <= k < old(solution).routes@.len() && k != r1_idx && k != r2_idx
                    ==> #[trigger] final(solution).routes@[k] == old(solution).routes@[k],
            final(solution).routes@[r1_idx as int].customers@ == old(solution).routes@[r1_idx as int].customers@.remove(
                pos1 as int,
            ).insert(
                if insert_pos1 > pos1 {
                    insert_pos1 - 1
                } else {
                    insert_pos1 as int
                },
                old(solution).routes@[r2_idx as int].customers@[pos2 as int],
            ),
            final(solution).routes@[r2_idx as int].customers@ == old(solution).routes@[r2_idx as int].customers@.remove(
                pos2 as int,
            ).insert(
                if insert_pos2 > pos2 {
                    insert_pos2 - 1
                } else {
                    insert_pos2 as int
                },
                old(solution).routes@[r1_idx as int].customers@[pos1 as int],
            ),
            concat_routes(final(solution).routes@).to_multiset() == concat_routes(
                old(solution).routes@,
            ).to_multiset(),
    {
        broadcast use vstd::seq_lib::group_to_multiset_ensures;
        broadcast use vstd::seq_lib::to_multiset_insert;
        broadcast use vstd::multiset::group_multiset_axioms;

        let ghost routes0 = solution.routes@;
        let adjusted_pos1 = if insert_pos1 > pos1 {
            insert_pos1 - 1
        } else {
            insert_pos1
        };
        let adjusted_pos2 = if insert_pos2 > pos2 {
            insert_pos2 - 1
        } else {
            insert_pos2
        };
        let r1 = vstd::std_specs::vec::vec_index_mut(&mut solution.routes, r1_idx);
        let customer1 = r1.customers.remove(pos1);
        r1.modified = true;
        let r2 = vstd::std_specs::vec::vec_index_mut(&mut solution.routes, r2_idx);
        let customer2 = r2.customers.remove(pos2);
        r2.customers.insert(adjusted_pos2, customer1);
        r2.modified = true;
        let r1b = vstd::std_specs::vec::vec_index_mut(&mut solution.routes, r1_idx);
        r1b.customers.insert(adjusted_pos1, customer2);
        proof {
            let routes2 = solution.routes@;
            let s1 = routes0[r1_idx as int].customers@;
            let s2 = routes0[r2_idx as int].customers@;
            let t1 = s1.remove(pos1 as int);
            let t2 = s2.remove(pos2 as int);
            let m1 = routes2[r1_idx as int].customers@;
            let m2 = routes2[r2_idx as int].customers@;
            assert(m1 == t1.insert(adjusted_pos1 as int, customer2));
            assert(m2 == t2.insert(adjusted_pos2 as int, customer1));
            assert(s1.contains(customer1) && s2.contains(customer2));
            assert(s1.to_multiset().count(customer1) > 0);
            assert(s2.to_multiset().count(customer2) > 0);
            assert(t1.to_multiset() == s1.to_multiset().remove(customer1));
            assert(t2.to_multiset() == s2.to_multiset().remove(customer2));
            assert(m1.to_multiset() == t1.to_multiset().insert(customer2));
            assert(m2.to_multiset() == t2.to_multiset().insert(customer1));
            assert(m1.to_multiset().add(m2.to_multiset()) =~= s1.to_multiset().add(s2.to_multiset()));
            lemma_two_route_exchange(routes0, r1_idx as int, r2_idx as int, routes2);
            assert(routes0[r1_idx as int].wf(problem));
            assert(routes0[r2_idx as int].wf(problem));
            assert(valid_customers(problem, t1)) by {
                assert(forall|q: int|
                    0 <= q < t1.len()
                        ==> t1[q] == (if q < pos1 {
                            #[trigger] s1[q]
                        } else {
                            s1[q + 1]
                        }));
            }
            assert(valid_customers(problem, t2)) by {
                assert(forall|q: int|
                    0 <= q < t2.len()
                        ==> t2[q] == (if q < pos2 {
                            #[trigger] s2[q]
                        } else {
                            s2[q + 1]
                        }));
            }
            assert(cust_ok(problem, s1[pos1 as int]) && cust_ok(problem, s2[pos2 as int]));
            assert(valid_customers(problem, m1)) by {
                assert(forall|q: int| 0 <= q < adjusted_pos1 ==> m1[q] == #[trigger] t1[q]);
                assert(forall|q: int| adjusted_pos1 < q < m1.len() ==> #[trigger] m1[q] == t1[q - 1]);
                assert(m1[adjusted_pos1 as int] == customer2);
            }
            assert(valid_customers(problem, m2)) by {
                assert(forall|q: int| 0 <= q < adjusted_pos2 ==> m2[q] == #[trigger] t2[q]);
                assert(forall|q: int| adjusted_pos2 < q < m2.len() ==> #[trigger] m2[q] == t2[q - 1]);
                assert(m2[adjusted_pos2 as int] == customer1);
            }
            assert(solution.wf(problem));
        }
    }
}

/// The exact penalised-cost change of a SWAP* combination: each customer
/// leaves its slot and lands at its insertion position in the other
/// route, positions shifted past the removal.
pub open spec fn swap_star_delta(
    solution: &Solution,
    problem: &Problem,
    r1_idx: int,
    r2_idx: int,
    pos1: int,
    pos2: int,
    insert_pos1: int,
    insert_pos2: int,
    capacity_penalty: u64,
) -> int {
    let s1 = solution.routes@[r1_idx].customers@;
    let s2 = solution.routes@[r2_idx].customers@;
    let c1 = s1[pos1];
    let c2 = s2[pos2];
    let a1 = if insert_pos1 > pos1 {
        insert_pos1 - 1
    } else {
        insert_pos1
    };
    let a2 = if insert_pos2 > pos2 {
        insert_pos2 - 1
    } else {
        insert_pos2
    };
    let t1 = s1.remove(pos1).insert(a1, c2);
    let t2 = s2.remove(pos2).insert(a2, c1);
    let cap = problem.vehicle_capacity as int;
    PENALTY_UNIT * (route_dist(problem, t1) - route_dist(problem, s1) + route_dist(problem, t2)
        - route_dist(problem, s2)) + capacity_penalty * excess_of(
        load_of(problem, s1) - problem.demand(c1 as int) + problem.demand(c2 as int),
        cap,
    ) - capacity_penalty * excess_of(load_of(problem, s1), cap) + capacity_penalty * excess_of(
        load_of(problem, s2) - problem.demand(c2 as int) + problem.demand(c1 as int),
        cap,
    ) - capacity_penalty * excess_of(load_of(problem, s2), cap)
}

/// A SWAP* move changes the solution's distance and excess sums by
/// exactly the two routes' own changes.
proof fn lemma_swap_star_cost_drop(
    p: &Problem,
    routes0: Seq<Route>,
    mid: Seq<Route>,
    r1_idx: int,
    r2_idx: int,
    pos1: int,
    pos2: int,
    a1: int,
    a2: int,
)
    requires
        routes0.len() == mid.len(),
        0 <= r1_idx < routes0.len(),
        0 <= r2_idx < routes0.len(),
        r1_idx != r2_idx,
        0 <= pos1 < routes0[r1_idx].customers@.len(),
        0 <= pos2 < routes0[r2_idx].customers@.len(),
        0 <= a1 <= routes0[r1_idx].customers@.len() - 1,
        0 <= a2 <= routes0[r2_idx].customers@.len() - 1,
        forall|k: int|
            0 <= k < routes0.len() && k != r1_idx && k != r2_idx ==> #[trigger] mid[k] == routes0[k],
        mid[r1_idx].customers@ == routes0[r1_idx].customers@.remove(pos1).insert(
            a1,
            routes0[r2_idx].customers@[pos2],
        ),
        mid[r2_idx].customers@ == routes0[r2_idx].customers@.remove(pos2).insert(
            a2,
            routes0[r1_idx].customers@[pos1],
        ),
    ensures
        sol_dist(p, mid) == sol_dist(p, routes0) + route_dist(p, mid[r1_idx].customers@) - route_dist(
            p,
            routes0[r1_idx].customers@,
        ) + route_dist(p, mid[r2_idx].customers@) - route_dist(p, routes0[r2_idx].customers@),
        sol_excess(p, mid) == sol_excess(p, routes0) + excess_of(
            load_of(p, routes0[r1_idx].customers@) - p.demand(routes0[r1_idx].customers@[pos1] as int)
                + p.demand(routes0[r2_idx].customers@[pos2] as int),
            p.vehicle_capacity as int,
        ) - excess_of(load_of(p, routes0[r1_idx].customers@), p.vehicle_capacity as int) + excess_of(
            load_of(p, routes0[r2_idx].customers@) - p.demand(routes0[r2_idx].customers@[pos2] as int)
                + p.demand(routes0[r1_idx].customers@[pos1] as int),
            p.vehicle_capacity as int,
        ) - excess_of(load_of(p, routes0[r2_idx].customers@), p.vehicle_capacity as int),
{
    let step1 = routes0.update(r1_idx, mid[r1_idx]);
    assert(mid =~= step1.update(r2_idx, mid[r2_idx]));
    lemma_sol_sums_update(p, routes0, r1_idx, mid[r1_idx]);
    lemma_sol_sums_update(p, step1, r2_idx, mid[r2_idx]);
    assert(step1[r2_idx] == routes0[r2_idx]);
    lemma_load_of_remove(p, routes0[r1_idx].customers@, pos1);
    lemma_load_of_insert(
        p,
        routes0[r1_idx].customers@.remove(pos1),
        a1,
        routes0[r2_idx].customers@[pos2],
    );
    lemma_load_of_remove(p, routes0[r2_idx].customers@, pos2);
    lemma_load_of_insert(
        p,
        routes0[r2_idx].customers@.remove(pos2),
        a2,
        routes0[r1_idx].customers@[pos1],
    );
}

/// Two distinct routes of a well-formed solution leave each other room:
/// each is strictly shorter than the node limit while the other is
/// non-empty.
proof fn lemma_two_routes_bound(routes: Seq<Route>, i: int, j: int)
    requires
        0 <= i < routes.len(),
        0 <= j < routes.len(),
        i != j,
        concat_routes(routes).len() <= crate::MAX_NODES,
        routes[i].customers@.len() > 0,
        routes[j].customers@.len() > 0,
    ensures
        routes[i].customers@.len() < crate::MAX_NODES,
        routes[j].customers@.len() < crate::MAX_NODES,
{
    crate::solution::lemma_two_routes_len_le_concat(routes, i, j);
}

} // verus!
