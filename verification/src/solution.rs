//! Routes and solutions, with their exact cost model.

use vstd::prelude::*;
use vstd::multiset::Multiset;
use crate::problem::Problem;
use crate::{DEMAND_LIMIT, MAX_DIST, MAX_NODES, PENALTY_UNIT};

verus! {

/// A customer index that may appear on a route: a node of the instance
/// other than the depot.
pub open spec fn cust_ok(p: &Problem, c: usize) -> bool {
    &&& (c as int) < p.n()
    &&& c != p.depot_index
}

/// Every entry of the sequence is a customer of the instance.
pub open spec fn valid_customers(p: &Problem, s: Seq<usize>) -> bool {
    forall|i: int| 0 <= i < s.len() ==> cust_ok(p, #[trigger] s[i])
}

/// Sum of the demands of a customer sequence.
pub open spec fn load_of(p: &Problem, s: Seq<usize>) -> int
    decreases s.len(),
{
    if s.len() == 0 {
        0
    } else {
        load_of(p, s.drop_last()) + p.demand(s.last() as int)
    }
}

/// Sum of the edges inside a customer sequence (no depot legs).
pub open spec fn path_dist(p: &Problem, s: Seq<usize>) -> int
    decreases s.len(),
{
    if s.len() <= 1 {
        0
    } else {
        path_dist(p, s.drop_last()) + p.dist(s[s.len() - 2] as int, s.last() as int)
    }
}

/// Length of the round trip depot -> s[0] -> ... -> s[last] -> depot;
/// zero for an empty sequence.
pub open spec fn route_dist(p: &Problem, s: Seq<usize>) -> int {
    if s.len() == 0 {
        0
    } else {
        p.dist(p.depot_index as int, s[0] as int) + path_dist(p, s) + p.dist(
            s.last() as int,
            p.depot_index as int,
        )
    }
}

/// Load beyond the vehicle capacity, zero when within it.
pub open spec fn excess_of(load: int, cap: int) -> int {
    if load > cap {
        load - cap
    } else {
        0
    }
}

/// Demands are non-negative and bounded, so loads are too.
pub proof fn lemma_load_of_bound(p: &Problem, s: Seq<usize>)
    requires
        p.wf(),
        valid_customers(p, s),
    ensures
        0 <= load_of(p, s) <= s.len() * DEMAND_LIMIT,
    decreases s.len(),
{
    if s.len() > 0 {
        assert(valid_customers(p, s.drop_last())) by {
            assert(forall|i: int| 0 <= i < s.len() - 1 ==> s.drop_last()[i] == #[trigger] s[i]);
        }
        lemma_load_of_bound(p, s.drop_last());
        assert(cust_ok(p, s[s.len() - 1]));
        assert(0 <= p.demand(s.last() as int) <= DEMAND_LIMIT);
        assert((s.len() - 1) * DEMAND_LIMIT + DEMAND_LIMIT == s.len() * DEMAND_LIMIT) by (nonlinear_arith);
    }
}

/// Every edge is bounded, so paths and round trips are too.
pub proof fn lemma_path_dist_bound(p: &Problem, s: Seq<usize>)
    requires
        p.wf(),
        valid_customers(p, s),
    ensures
        s.len() == 0 ==> path_dist(p, s) == 0,
        s.len() > 0 ==> 0 <= path_dist(p, s) <= (s.len() - 1) * MAX_DIST,
    decreases s.len(),
{
    if s.len() > 1 {
        assert(valid_customers(p, s.drop_last())) by {
            assert(forall|i: int| 0 <= i < s.len() - 1 ==> s.drop_last()[i] == #[trigger] s[i]);
        }
        lemma_path_dist_bound(p, s.drop_last());
        assert(cust_ok(p, s[s.len() - 2]) && cust_ok(p, s[s.len() - 1]));
        assert(0 <= p.dist(s[s.len() - 2] as int, s.last() as int) <= MAX_DIST);
        assert((s.len() - 2) * MAX_DIST + MAX_DIST == (s.len() - 1) * MAX_DIST) by (nonlinear_arith);
    }
}

/// A route's round trip is bounded by one edge per customer plus the
/// return leg.
pub proof fn lemma_route_dist_bound(p: &Problem, s: Seq<usize>)
    requires
        p.wf(),
        valid_customers(p, s),
    ensures
        0 <= route_dist(p, s) <= (s.len() + 1) * MAX_DIST,
    decreases s.len(),
{
    if s.len() > 0 {
        lemma_path_dist_bound(p, s);
        assert(cust_ok(p, s[0]) && cust_ok(p, s[s.len() - 1]));
        assert((s.len() - 1) * MAX_DIST + MAX_DIST + MAX_DIST == (s.len() + 1) * MAX_DIST) by (nonlinear_arith);
    }
}

/// Removing one customer splits its demand out of the load.
pub proof fn lemma_load_of_remove(p: &Problem, s: Seq<usize>, i: int)
    requires
        0 <= i < s.len(),
    ensures
        load_of(p, s) == load_of(p, s.remove(i)) + p.demand(s[i] as int),
    decreases s.len(),
{
    if i == s.len() - 1 {
        assert(s.remove(i) =~= s.drop_last());
    } else {
        assert(s.remove(i).drop_last() =~= s.drop_last().remove(i));
        assert(s.remove(i).last() == s.last());
        lemma_load_of_remove(p, s.drop_last(), i);
    }
}

/// The load of a sequence depends only on its multiset of customers.
pub proof fn lemma_load_of_multiset(p: &Problem, s1: Seq<usize>, s2: Seq<usize>)
    requires
        s1.to_multiset() == s2.to_multiset(),
    ensures
        load_of(p, s1) == load_of(p, s2),
    decreases s1.len(),
{
    broadcast use vstd::seq_lib::group_to_multiset_ensures;

    if s1.len() == 0 {
        assert(s2.to_multiset().len() == 0);
        assert(s2.len() == 0);
    } else {
        let x = s1.last();
        assert(s1.to_multiset().count(x) > 0) by {
            assert(s1.contains(x));
        }
        assert(s2.to_multiset().count(x) > 0);
        assert(s2.contains(x));
        let i = choose|i: int| 0 <= i < s2.len() && s2[i] == x;
        lemma_load_of_remove(p, s2, i);
        lemma_load_of_remove(p, s1, s1.len() - 1);
        assert(s1.remove(s1.len() - 1) =~= s1.drop_last());
        assert(s1.drop_last().to_multiset() =~= s2.remove(i).to_multiset()) by {
            assert(s1.to_multiset().remove(x) =~= s2.to_multiset().remove(x));
            assert(s1.remove(s1.len() - 1).to_multiset() =~= s1.to_multiset().remove(x));
            assert(s2.remove(i).to_multiset() =~= s2.to_multiset().remove(x));
        }
        lemma_load_of_multiset(p, s1.drop_last(), s2.remove(i));
    }
}

/// Replacing one customer trades its demand for the replacement's.
pub proof fn lemma_load_of_update(p: &Problem, s: Seq<usize>, i: int, c: usize)
    requires
        0 <= i < s.len(),
    ensures
        load_of(p, s.update(i, c)) == load_of(p, s) - p.demand(s[i] as int) + p.demand(c as int),
{
    lemma_load_of_remove(p, s, i);
    let u = s.update(i, c);
    lemma_load_of_remove(p, u, i);
    assert(u.remove(i) =~= s.remove(i));
}

/// Inserting one customer adds exactly its demand.
pub proof fn lemma_load_of_insert(p: &Problem, s: Seq<usize>, i: int, c: usize)
    requires
        0 <= i <= s.len(),
    ensures
        load_of(p, s.insert(i, c)) == load_of(p, s) + p.demand(c as int),
{
    let u = s.insert(i, c);
    lemma_load_of_remove(p, u, i);
    assert(u.remove(i) =~= s);
}

/// Loads add up over concatenation.
pub proof fn lemma_load_of_append(p: &Problem, s1: Seq<usize>, s2: Seq<usize>)
    ensures
        load_of(p, s1 + s2) == load_of(p, s1) + load_of(p, s2),
    decreases s2.len(),
{
    if s2.len() == 0 {
        assert(s1 + s2 =~= s1);
    } else {
        assert((s1 + s2).drop_last() =~= s1 + s2.drop_last());
        assert((s1 + s2).last() == s2.last());
        lemma_load_of_append(p, s1, s2.drop_last());
    }
}

/// A vehicle route: its customer sequence and cached load and distance.
/// The caches are only meaningful while `modified` is false.
#[derive(Debug)]
pub struct Route {
    pub customers: Vec<usize>,
    pub load: u64,
    pub distance: u64,
    pub modified: bool,
}

impl Clone for Route {
    /// A copy with the same customers and caches.
    fn clone(&self) -> (r: Self)
        ensures
            r.customers@ == self.customers@,
            r.load == self.load,
            r.distance == self.distance,
            r.modified == self.modified,
    {
        let mut customers: Vec<usize> = Vec::new();
        let mut i: usize = 0;
        while i < self.customers.len()
            invariant
                i <= self.customers@.len(),
                customers@ =~= self.customers@.take(i as int),
            decreases self.customers@.len() - i,
        {
            customers.push(self.customers[i]);
            i += 1;
        }
        proof {
            assert(customers@ =~= self.customers@);
        }
        Route { customers, load: self.load, distance: self.distance, modified: self.modified }
    }
}

impl Route {
    /// The route's customers all belong to the instance and the route is
    /// short enough for the proved arithmetic bounds.
    pub open spec fn wf(&self, p: &Problem) -> bool {
        &&& valid_customers(p, self.customers@)
        &&& self.customers@.len() <= MAX_NODES
    }

    /// While `modified` is false the caches agree with the customers.
    pub open spec fn caches_ok(&self, p: &Problem) -> bool {
        !self.modified ==> {
            &&& self.load as int == load_of(p, self.customers@)
            &&& self.distance as int == route_dist(p, self.customers@)
        }
    }

    /// Both caches are current.
    pub open spec fn caches_current(&self, p: &Problem) -> bool {
        &&& !self.modified
        &&& self.load as int == load_of(p, self.customers@)
        &&& self.distance as int == route_dist(p, self.customers@)
    }

    /// A new, empty route.
    pub fn new() -> (r: Route)
        ensures
            r.customers@ =~= Seq::<usize>::empty(),
            r.load == 0,
            r.distance == 0,
            r.modified,
    {
        Route { customers: Vec::new(), load: 0, distance: 0, modified: true }
    }

    /// A route serving one customer, with its caches given by the caller.
    pub fn with_customer(customer: usize, load: u64, distance_from_depot: u64) -> (r: Route)
        requires
            distance_from_depot <= MAX_DIST,
        ensures
            r.customers@ =~= seq![customer],
            r.load == load,
            r.distance == 2 * distance_from_depot,
            r.modified,
    {
        let mut route = Route::new();
        route.customers.push(customer);
        route.load = load;
        route.distance = distance_from_depot * 2;
        route.modified = true;
        route
    }

    /// Recompute the cached round-trip distance; a no-op while the cache
    /// is already current.
    pub fn calculate_distance(&mut self, problem: &Problem)
        requires
            problem.wf(),
            old(self).wf(problem),
            old(self).caches_ok(problem),
        ensures
            final(self).customers == old(self).customers,
            final(self).load == old(self).load,
            !final(self).modified,
            final(self).distance as int == route_dist(problem, old(self).customers@),
    {
        if !self.modified {
            return ;
        }
        let depot_index = problem.depot_index;
        if self.customers.len() == 0 {
            self.distance = 0;
            self.modified = false;
            return ;
        }
        let n = self.customers.len();
        let mut total_distance: u64 = problem.get_distance(depot_index, self.customers[0]);
        let mut i: usize = 0;
        proof {
            assert(self.customers@.take(1) =~= seq![self.customers@[0]]);
            assert(path_dist(problem, self.customers@.take(1)) == 0);
        }
        while i < n - 1
            invariant
                problem.wf(),
                self.wf(problem),
                1 <= n == self.customers@.len(),
                i < n,
                total_distance as int == problem.dist(problem.depot_index as int, self.customers@[0] as int)
                    + path_dist(problem, self.customers@.take(i + 1)),
                total_distance <= (i + 2) * MAX_DIST,
            decreases n - 1 - i,
        {
            let d = problem.get_distance(self.customers[i], self.customers[i + 1]);
            proof {
                let s = self.customers@;
                assert(s.take(i + 2).drop_last() =~= s.take(i + 1));
                assert(s.take(i + 2).last() == s[i + 1]);
                assert(s.take(i + 2)[i as int] == s[i as int]);
                assert(path_dist(problem, s.take(i + 2)) == path_dist(problem, s.take(i + 1)) + problem.dist(
                    s[i as int] as int,
                    s[i + 1] as int,
                ));
                assert((i + 2) * MAX_DIST + MAX_DIST == (i + 3) * MAX_DIST) by (nonlinear_arith);
                assert((i + 3) * MAX_DIST <= (MAX_NODES + 2) * MAX_DIST) by (nonlinear_arith)
                    requires i + 3 <= MAX_NODES + 2;
            }
            total_distance = total_distance + d;
            i += 1;
        }
        let d_back = problem.get_distance(self.customers[n - 1], depot_index);
        proof {
            assert(self.customers@.take(n as int) =~= self.customers@);
            assert((n + 1) * MAX_DIST < 0xffff_ffff_ffff_ffff) by (nonlinear_arith)
                requires 1 <= n <= MAX_NODES;
        }
        self.distance = total_distance + d_back;
        self.modified = false;
    }

    /// Recompute the cached load; a no-op while the cache is current.
    pub fn calculate_load(&mut self, problem: &Problem)
        requires
            problem.wf(),
            old(self).wf(problem),
            old(self).caches_ok(problem),
        ensures
            final(self).customers == old(self).customers,
            final(self).distance == old(self).distance,
            final(self).modified == old(self).modified,
            final(self).load as int == load_of(problem, old(self).customers@),
    {
        if !self.modified {
            return ;
        }
        let mut total_load: u64 = 0;
        let mut i: usize = 0;
        while i < self.customers.len()
            invariant
                problem.wf(),
                self.wf(problem),
                i <= self.customers@.len(),
                total_load as int == load_of(problem, self.customers@.take(i as int)),
                total_load <= i * DEMAND_LIMIT,
            decreases self.customers@.len() - i,
        {
            let c = self.customers[i];
            proof {
                let s = self.customers@;
                assert(cust_ok(problem, s[i as int]));
                assert(s.take(i + 1).drop_last() =~= s.take(i as int));
                assert(s.take(i + 1).last() == s[i as int]);
                assert(i * DEMAND_LIMIT + DEMAND_LIMIT == (i + 1) * DEMAND_LIMIT) by (nonlinear_arith);
                assert((i + 1) * DEMAND_LIMIT <= MAX_NODES * DEMAND_LIMIT) by (nonlinear_arith)
                    requires i + 1 <= MAX_NODES;
            }
            total_load = total_load + problem.nodes[c].demand;
            i += 1;
        }
        proof {
            assert(self.customers@.take(self.customers@.len() as int) =~= self.customers@);
        }
        self.load = total_load;
    }

    /// Whether the route serves no customer.
    pub fn is_empty(&self) -> (r: bool)
        ensures
            r == (self.customers@.len() == 0),
    {
        self.customers.len() == 0
    }

    /// Whether the cached load exceeds the given capacity.
    pub fn exceeds_capacity(&self, capacity: u64) -> (r: bool)
        ensures
            r == (self.load > capacity),
    {
        self.load > capacity
    }

    /// Cached load beyond the capacity, zero when within it.
    pub fn get_excess_load(&self, capacity: u64) -> (r: u64)
        ensures
            r as int == excess_of(self.load as int, capacity as int),
    {
        if self.load > capacity {
            self.load - capacity
        } else {
            0
        }
    }
}

/// All route customer sequences, concatenated in route order.
pub open spec fn concat_routes(routes: Seq<Route>) -> Seq<usize>
    decreases routes.len(),
{
    if routes.len() == 0 {
        Seq::empty()
    } else {
        concat_routes(routes.drop_last()) + routes.last().customers@
    }
}

/// Sum of the round-trip distances of a route sequence.
pub open spec fn sol_dist(p: &Problem, routes: Seq<Route>) -> int
    decreases routes.len(),
{
    if routes.len() == 0 {
        0
    } else {
        sol_dist(p, routes.drop_last()) + route_dist(p, routes.last().customers@)
    }
}

/// Sum of the per-route capacity excesses of a route sequence.
pub open spec fn sol_excess(p: &Problem, routes: Seq<Route>) -> int
    decreases routes.len(),
{
    if routes.len() == 0 {
        0
    } else {
        sol_excess(p, routes.drop_last()) + excess_of(
            load_of(p, routes.last().customers@),
            p.vehicle_capacity as int,
        )
    }
}

/// Every customer of the instance fits in one vehicle on its own.
pub open spec fn all_demands_fit(p: &Problem) -> bool {
    forall|c: int|
        0 <= c < p.n() && c != p.depot_index ==> #[trigger] p.demand(c) <= p.vehicle_capacity as int
}

/// When every demand fits on its own, routes that are each within
/// capacity or singletons carry no excess at all.
pub proof fn lemma_fit_excess_zero(p: &Problem, routes: Seq<Route>)
    requires
        all_demands_fit(p),
        forall|q: int| 0 <= q < routes.len() ==> (#[trigger] routes[q]).wf(p),
        forall|q: int|
            0 <= q < routes.len() ==> (load_of(p, (#[trigger] routes[q]).customers@)
                <= p.vehicle_capacity || routes[q].customers@.len() == 1),
    ensures
        sol_excess(p, routes) == 0,
    decreases routes.len(),
{
    if routes.len() > 0 {
        lemma_fit_excess_zero(p, routes.drop_last());
        let s = routes.last().customers@;
        if s.len() == 1 {
            assert(cust_ok(p, s[0]));
            assert(load_of(p, s) == load_of(p, s.drop_last()) + p.demand(s.last() as int));
            assert(s.drop_last().len() == 0);
            assert(load_of(p, s) == p.demand(s[0] as int));
        }
        assert(excess_of(load_of(p, s), p.vehicle_capacity as int) == 0);
    }
}

/// Sum of the route loads of a route sequence.
pub open spec fn sol_load(p: &Problem, routes: Seq<Route>) -> int
    decreases routes.len(),
{
    if routes.len() == 0 {
        0
    } else {
        sol_load(p, routes.drop_last()) + load_of(p, routes.last().customers@)
    }
}

/// The penalised cost: distance in thousandths plus penalty per unit of
/// excess load.
pub open spec fn cost_of(dist: int, excess: int, penalty: u64) -> int {
    PENALTY_UNIT * dist + penalty * excess
}

/// A complete solution: routes, cached aggregates, and the giant-tour view.
#[derive(Debug)]
pub struct Solution {
    pub routes: Vec<Route>,
    pub cost: u128,
    pub distance: u64,
    pub excess_capacity: u64,
    pub is_feasible: bool,
    pub giant_tour: Vec<usize>,
}

impl Clone for Solution {
    /// A copy with the same routes, aggregates and giant tour.
    fn clone(&self) -> (r: Self)
        ensures
            r.routes@.len() == self.routes@.len(),
            forall|i: int|
                0 <= i < self.routes@.len() ==> {
                    &&& (#[trigger] r.routes@[i]).customers@ == self.routes@[i].customers@
                    &&& r.routes@[i].load == self.routes@[i].load
                    &&& r.routes@[i].distance == self.routes@[i].distance
                    &&& r.routes@[i].modified == self.routes@[i].modified
                },
            r.cost == self.cost,
            r.distance == self.distance,
            r.excess_capacity == self.excess_capacity,
            r.is_feasible == self.is_feasible,
            r.giant_tour@ == self.giant_tour@,
    {
        let mut routes: Vec<Route> = Vec::new();
        let mut i: usize = 0;
        while i < self.routes.len()
            invariant
                i <= self.routes@.len(),
                routes@.len() == i,
                forall|k: int|
                    0 <= k < i ==> {
                        &&& (#[trigger] routes@[k]).customers@ == self.routes@[k].customers@
                        &&& routes@[k].load == self.routes@[k].load
                        &&& routes@[k].distance == self.routes@[k].distance
                        &&& routes@[k].modified == self.routes@[k].modified
                    },
            decreases self.routes@.len() - i,
        {
            routes.push(self.routes[i].clone());
            i += 1;
        }
        let mut giant_tour: Vec<usize> = Vec::new();
        let mut j: usize = 0;
        while j < self.giant_tour.len()
            invariant
                j <= self.giant_tour@.len(),
                giant_tour@ =~= self.giant_tour@.take(j as int),
            decreases self.giant_tour@.len() - j,
        {
            giant_tour.push(self.giant_tour[j]);
            j += 1;
        }
        proof {
            assert(giant_tour@ =~= self.giant_tour@);
        }
        Solution {
            routes,
            cost: self.cost,
            distance: self.distance,
            excess_capacity: self.excess_capacity,
            is_feasible: self.is_feasible,
            giant_tour,
        }
    }
}

impl Solution {
    /// Every route is well formed, and the solution as a whole is small
    /// enough for the proved arithmetic bounds.
    pub open spec fn wf(&self, p: &Problem) -> bool {
        &&& (forall|i: int| 0 <= i < self.routes@.len() ==> (#[trigger] self.routes@[i]).wf(p))
        &&& concat_routes(self.routes@).len() <= MAX_NODES
        &&& self.routes@.len() <= MAX_NODES
    }

    /// Every route's caches agree with its customers when unmodified.
    pub open spec fn caches_ok(&self, p: &Problem) -> bool {
        forall|i: int| 0 <= i < self.routes@.len() ==> (#[trigger] self.routes@[i]).caches_ok(p)
    }

    /// Every route's caches are current.
    pub open spec fn routes_fresh(&self, p: &Problem) -> bool {
        forall|i: int| 0 <= i < self.routes@.len() ==> (#[trigger] self.routes@[i]).caches_current(p)
    }

    /// The state `evaluate` establishes: every cache current, and the
    /// aggregates exactly the sums they cache, with
    /// `cost = distance + penalty * excess` on the thousandth scale.
    pub open spec fn evaluated(&self, p: &Problem, penalty: u64) -> bool {
        &&& (forall|i: int| 0 <= i < self.routes@.len() ==> (#[trigger] self.routes@[i]).caches_current(p))
        &&& self.distance as int == sol_dist(p, self.routes@)
        &&& self.excess_capacity as int == sol_excess(p, self.routes@)
        &&& self.is_feasible == (self.excess_capacity == 0)
        &&& self.cost as int == cost_of(self.distance as int, self.excess_capacity as int, penalty)
    }

    /// A new, empty solution.
    pub fn new() -> (r: Solution)
        ensures
            r.routes@ =~= Seq::<Route>::empty(),
            r.cost == 0,
            r.distance == 0,
            r.excess_capacity == 0,
            r.is_feasible,
            r.giant_tour@ =~= Seq::<usize>::empty(),
    {
        Solution {
            routes: Vec::new(),
            cost: 0,
            distance: 0,
            excess_capacity: 0,
            is_feasible: true,
            giant_tour: Vec::new(),
        }
    }

    /// A solution holding only a giant tour; routes come later from Split.
    pub fn from_giant_tour(giant_tour: Vec<usize>, _problem: &Problem) -> (r: Solution)
        ensures
            r.routes@ =~= Seq::<Route>::empty(),
            r.giant_tour == giant_tour,
            r.cost == 0,
            r.distance == 0,
            r.excess_capacity == 0,
            r.is_feasible,
    {
        let mut solution = Solution::new();
        solution.giant_tour = giant_tour;
        solution
    }

    /// Refresh every route cache and the solution aggregates under the
    /// given capacity penalty.
    pub fn evaluate(&mut self, problem: &Problem, capacity_penalty: u64)
        requires
            problem.wf(),
            old(self).wf(problem),
            old(self).caches_ok(problem),
        ensures
            final(self).routes@.len() == old(self).routes@.len(),
            forall|i: int|
                0 <= i < old(self).routes@.len()
                    ==> (#[trigger] final(self).routes@[i]).customers == old(self).routes@[i].customers,
            final(self).giant_tour == old(self).giant_tour,
            final(self).wf(problem),
            final(self).evaluated(problem, capacity_penalty),
    {
        let ghost old_routes = self.routes@;
        let mut total_distance: u64 = 0;
        let mut total_excess: u64 = 0;
        let n = self.routes.len();
        let mut i: usize = 0;
        while i < n
            invariant
                problem.wf(),
                n == self.routes@.len(),
                i <= n,
                self.wf(problem),
                self.caches_ok(problem),
                self.giant_tour == old(self).giant_tour,
                self.routes@.len() == old_routes.len(),
                forall|k: int|
                    0 <= k < old_routes.len()
                        ==> (#[trigger] self.routes@[k]).customers == old_routes[k].customers,
                forall|k: int| 0 <= k < i ==> (#[trigger] self.routes@[k]).caches_current(problem),
                forall|k: int| i <= k < n ==> #[trigger] self.routes@[k] == old_routes[k],
                total_distance as int == sol_dist(problem, self.routes@.take(i as int)),
                total_excess as int == sol_excess(problem, self.routes@.take(i as int)),
                total_distance as int <= (concat_routes(self.routes@.take(i as int)).len() + i) * MAX_DIST,
                total_excess as int <= concat_routes(self.routes@.take(i as int)).len() * DEMAND_LIMIT,
            decreases n - i,
        {
            let ghost pre = self.routes@;
            let route = &mut self.routes[i];
            proof {
                assert(pre[i as int].wf(problem));
                assert(pre[i as int].caches_ok(problem));
            }
            route.calculate_load(problem);
            route.calculate_distance(problem);
            let rd = route.distance;
            let rl = route.load;
            let re = if rl > problem.vehicle_capacity {
                rl - problem.vehicle_capacity
            } else {
                0u64
            };
            proof {
                let cur = self.routes@;
                let s = cur[i as int].customers@;
                assert(forall|k: int| 0 <= k < cur.len() ==> (#[trigger] cur[k]).customers == pre[k].customers);
                lemma_routes_same_customers(problem, cur, pre);
                assert(self.wf(problem)) by {
                    assert(forall|k: int| 0 <= k < cur.len() ==> (#[trigger] cur[k]).wf(problem)) by {
                        assert(forall|k: int| 0 <= k < cur.len() ==> (#[trigger] pre[k]).wf(problem));
                    }
                }
                assert(cur[i as int].caches_current(problem));
                lemma_route_dist_bound(problem, s);
                lemma_load_of_bound(problem, s);
                assert(cur.take(i + 1).drop_last() =~= cur.take(i as int));
                assert(pre.take(i as int) =~= cur.take(i as int)) by {
                    assert(forall|k: int| 0 <= k < i ==> pre.take(i as int)[k] == #[trigger] cur.take(i as int)[k]);
                }
                assert(cur.take(i + 1).last() == cur[i as int]);
                assert(sol_dist(problem, cur.take(i + 1)) == sol_dist(problem, cur.take(i as int))
                    + route_dist(problem, s));
                assert(sol_excess(problem, cur.take(i + 1)) == sol_excess(problem, cur.take(i as int))
                    + excess_of(load_of(problem, s), problem.vehicle_capacity as int));
                lemma_concat_take_succ(cur, i as int);
                lemma_concat_len_monotone(cur, i + 1);
                assert(concat_routes(cur.take(i + 1)).len() == concat_routes(cur.take(i as int)).len() + s.len());
                assert((concat_routes(cur.take(i as int)).len() + i) * MAX_DIST + (s.len() + 1) * MAX_DIST
                    == (concat_routes(cur.take(i + 1)).len() + i + 1) * MAX_DIST) by (nonlinear_arith)
                    requires concat_routes(cur.take(i + 1)).len() == concat_routes(cur.take(i as int)).len() + s.len();
                assert((concat_routes(cur.take(i + 1)).len() + i + 1) * MAX_DIST
                    <= (MAX_NODES + MAX_NODES) * MAX_DIST) by (nonlinear_arith)
                    requires concat_routes(cur.take(i + 1)).len() + i + 1 <= MAX_NODES + MAX_NODES;
                assert(concat_routes(cur.take(i as int)).len() * DEMAND_LIMIT + s.len() * DEMAND_LIMIT
                    == concat_routes(cur.take(i + 1)).len() * DEMAND_LIMIT) by (nonlinear_arith)
                    requires concat_routes(cur.take(i + 1)).len() == concat_routes(cur.take(i as int)).len() + s.len();
                assert(concat_routes(cur.take(i + 1)).len() * DEMAND_LIMIT <= MAX_NODES * DEMAND_LIMIT) by (nonlinear_arith)
                    requires concat_routes(cur.take(i + 1)).len() <= MAX_NODES;
            }
            total_distance = total_distance + rd;
            total_excess = total_excess + re;
            i += 1;
        }
        proof {
            assert(self.routes@.take(n as int) =~= self.routes@);
            assert((concat_routes(self.routes@).len() + n) * MAX_DIST <= 400_000_000_000_000_000) by (nonlinear_arith)
                requires concat_routes(self.routes@).len() + n <= MAX_NODES + MAX_NODES;
            assert(concat_routes(self.routes@).len() * DEMAND_LIMIT <= 70_000_000_000_000) by (nonlinear_arith)
                requires concat_routes(self.routes@).len() <= MAX_NODES;
            assert(PENALTY_UNIT * (total_distance as int) + capacity_penalty * (total_excess as int)
                < 0x1_0000_0000_0000_0000_0000_0000_0000_0000int) by (nonlinear_arith)
                requires
                    0 <= total_distance <= 400_000_000_000_000_000,
                    0 <= total_excess <= 70_000_000_000_000,
                    0 <= capacity_penalty < 0x1_0000_0000_0000_0000,
            ;
            assert((PENALTY_UNIT as u128) * (total_distance as u128) == PENALTY_UNIT * total_distance)
                by (nonlinear_arith);
            assert((capacity_penalty as u128) * (total_excess as u128) == capacity_penalty * total_excess)
                by (nonlinear_arith);
        }
        self.distance = total_distance;
        self.excess_capacity = total_excess;
        self.is_feasible = total_excess == 0;
        self.cost = (PENALTY_UNIT as u128) * (total_distance as u128) + (capacity_penalty as u128) * (total_excess
            as u128);
    }

    /// Rebuild the giant tour as the concatenation of the routes.
    pub fn update_giant_tour(&mut self)
        ensures
            final(self).routes == old(self).routes,
            final(self).cost == old(self).cost,
            final(self).distance == old(self).distance,
            final(self).excess_capacity == old(self).excess_capacity,
            final(self).is_feasible == old(self).is_feasible,
            final(self).giant_tour@ == concat_routes(old(self).routes@),
    {
        self.giant_tour.clear();
        let n = self.routes.len();
        let mut i: usize = 0;
        while i < n
            invariant
                n == self.routes@.len(),
                i <= n,
                self.routes == old(self).routes,
                self.cost == old(self).cost,
                self.distance == old(self).distance,
                self.excess_capacity == old(self).excess_capacity,
                self.is_feasible == old(self).is_feasible,
                self.giant_tour@ =~= concat_routes(self.routes@.take(i as int)),
            decreases n - i,
        {
            let m = self.routes[i].customers.len();
            let mut j: usize = 0;
            while j < m
                invariant
                    n == self.routes@.len(),
                    i < n,
                    m == self.routes@[i as int].customers@.len(),
                    j <= m,
                    self.routes == old(self).routes,
                    self.cost == old(self).cost,
                    self.distance == old(self).distance,
                    self.excess_capacity == old(self).excess_capacity,
                    self.is_feasible == old(self).is_feasible,
                    self.giant_tour@ =~= concat_routes(self.routes@.take(i as int))
                        + self.routes@[i as int].customers@.take(j as int),
                decreases m - j,
            {
                let c = self.routes[i].customers[j];
                self.giant_tour.push(c);
                proof {
                    let s = self.routes@[i as int].customers@;
                    assert(s.take(j + 1) =~= s.take(j as int).push(s[j as int]));
                    assert(concat_routes(self.routes@.take(i as int)) + s.take(j + 1)
                        =~= (concat_routes(self.routes@.take(i as int)) + s.take(j as int)).push(s[j as int]));
                }
                j += 1;
            }
            proof {
                let cur = self.routes@;
                assert(cur.take(i + 1).drop_last() =~= cur.take(i as int));
                assert(cur.take(i + 1).last() == cur[i as int]);
                let s = cur[i as int].customers@;
                assert(s.take(m as int) =~= s);
                assert(concat_routes(cur.take(i + 1)) == concat_routes(cur.take(i as int)) + s);
            }
            i += 1;
        }
        proof {
            assert(self.routes@.take(n as int) =~= self.routes@);
        }
    }

    /// The plain distance when the solution is feasible; nothing otherwise.
    pub fn get_feasible_cost(&self) -> (r: Option<u64>)
        ensures
            self.is_feasible ==> r == Some(self.distance),
            !self.is_feasible ==> r == None::<u64>,
    {
        if self.is_feasible {
            Some(self.distance)
        } else {
            None
        }
    }

    /// Number of routes.
    pub fn get_route_count(&self) -> (r: usize)
        ensures
            r == self.routes@.len(),
    {
        self.routes.len()
    }
}

/// The concatenation and the distance, excess and load sums read only the
/// customer sequences, so two route sequences whose customers agree
/// position by position share them all.
pub proof fn lemma_routes_same_customers(p: &Problem, r1: Seq<Route>, r2: Seq<Route>)
    requires
        r1.len() == r2.len(),
        forall|k: int| 0 <= k < r1.len() ==> (#[trigger] r1[k]).customers == r2[k].customers,
    ensures
        concat_routes(r1) == concat_routes(r2),
        sol_dist(p, r1) == sol_dist(p, r2),
        sol_excess(p, r1) == sol_excess(p, r2),
        sol_load(p, r1) == sol_load(p, r2),
    decreases r1.len(),
{
    if r1.len() > 0 {
        assert(forall|k: int|
            0 <= k < r1.len() - 1 ==> (#[trigger] r1.drop_last()[k]).customers == r2.drop_last()[k].customers);
        lemma_routes_same_customers(p, r1.drop_last(), r2.drop_last());
        assert(r1.last().customers == r2.last().customers);
        assert(concat_routes(r1) =~= concat_routes(r2));
    }
}

/// Concatenation grows route by route.
pub proof fn lemma_concat_take_succ(routes: Seq<Route>, i: int)
    requires
        0 <= i < routes.len(),
    ensures
        concat_routes(routes.take(i + 1)) == concat_routes(routes.take(i)) + routes[i].customers@,
{
    assert(routes.take(i + 1).drop_last() =~= routes.take(i));
    assert(routes.take(i + 1).last() == routes[i]);
}

/// A prefix of the routes contributes a prefix of the customers.
pub proof fn lemma_concat_len_monotone(routes: Seq<Route>, i: int)
    requires
        0 <= i <= routes.len(),
    ensures
        concat_routes(routes.take(i)).len() <= concat_routes(routes).len(),
    decreases routes.len() - i,
{
    if i == routes.len() {
        assert(routes.take(i) =~= routes);
    } else {
        lemma_concat_take_succ(routes, i);
        lemma_concat_len_monotone(routes, i + 1);
    }
}

/// The sum of the route loads is the load of the concatenated customers.
pub proof fn lemma_sol_load_is_concat_load(p: &Problem, routes: Seq<Route>)
    ensures
        sol_load(p, routes) == load_of(p, concat_routes(routes)),
    decreases routes.len(),
{
    if routes.len() > 0 {
        lemma_sol_load_is_concat_load(p, routes.drop_last());
        lemma_load_of_append(p, concat_routes(routes.drop_last()), routes.last().customers@);
    }
}

/// Demand conservation: two ways of arranging the same multiset of
/// customers into routes carry the same total load.
pub proof fn lemma_demand_conservation(p: &Problem, routes1: Seq<Route>, routes2: Seq<Route>)
    requires
        concat_routes(routes1).to_multiset() == concat_routes(routes2).to_multiset(),
    ensures
        sol_load(p, routes1) == sol_load(p, routes2),
{
    lemma_sol_load_is_concat_load(p, routes1);
    lemma_sol_load_is_concat_load(p, routes2);
    lemma_load_of_multiset(p, concat_routes(routes1), concat_routes(routes2));
}

/// The multiset of customers over a route sequence, route by route.
pub open spec fn sum_ms(routes: Seq<Route>) -> Multiset<usize>
    decreases routes.len(),
{
    if routes.len() == 0 {
        Multiset::empty()
    } else {
        sum_ms(routes.drop_last()).add(routes.last().customers@.to_multiset())
    }
}

/// The concatenation carries exactly the routes' customer multisets.
pub proof fn lemma_concat_ms(routes: Seq<Route>)
    ensures
        concat_routes(routes).to_multiset() == sum_ms(routes),
    decreases routes.len(),
{
    broadcast use vstd::multiset::group_multiset_axioms;
    broadcast use vstd::seq_lib::group_to_multiset_ensures;

    if routes.len() == 0 {
        assert(concat_routes(routes).to_multiset() =~= Multiset::<usize>::empty()) by {
            assert(concat_routes(routes).to_multiset().len() == 0);
            assert forall|x: usize| concat_routes(routes).to_multiset().count(x) == 0 by {
                assert(concat_routes(routes).to_multiset().count(x)
                    <= concat_routes(routes).to_multiset().len());
            }
        }
    }
    if routes.len() > 0 {
        lemma_concat_ms(routes.drop_last());
        vstd::seq_lib::lemma_multiset_commutative(concat_routes(routes.drop_last()), routes.last().customers@);
        assert(concat_routes(routes) == concat_routes(routes.drop_last()) + routes.last().customers@);
        assert((concat_routes(routes.drop_last()) + routes.last().customers@).to_multiset()
            == concat_routes(routes.drop_last()).to_multiset().add(routes.last().customers@.to_multiset()));
        assert(sum_ms(routes) == sum_ms(routes.drop_last()).add(routes.last().customers@.to_multiset()));
    }
}

/// Replacing one route trades its customer multiset for the new one.
pub proof fn lemma_sum_ms_update(routes: Seq<Route>, i: int, r: Route)
    requires
        0 <= i < routes.len(),
    ensures
        sum_ms(routes.update(i, r)).add(routes[i].customers@.to_multiset()) == sum_ms(routes).add(
            r.customers@.to_multiset(),
        ),
    decreases routes.len(),
{
    broadcast use vstd::multiset::group_multiset_axioms;

    let upd = routes.update(i, r);
    let rm = r.customers@.to_multiset();
    let om = routes[i].customers@.to_multiset();
    if i == routes.len() - 1 {
        assert(upd.drop_last() =~= routes.drop_last());
        assert(upd.last() == r);
        assert(routes[i] == routes.last());
        let d = sum_ms(routes.drop_last());
        assert(sum_ms(upd) == d.add(rm));
        assert(sum_ms(routes) == d.add(om));
        assert(sum_ms(upd).add(om) =~= sum_ms(routes).add(rm)) by {
            assert forall|x: usize| d.add(rm).add(om).count(x) == d.add(om).add(rm).count(x) by {
                assert(d.add(rm).count(x) == d.count(x) + rm.count(x));
                assert(d.add(rm).add(om).count(x) == d.add(rm).count(x) + om.count(x));
                assert(d.add(om).count(x) == d.count(x) + om.count(x));
                assert(d.add(om).add(rm).count(x) == d.add(om).count(x) + rm.count(x));
            }
        }
    } else {
        assert(upd.drop_last() =~= routes.drop_last().update(i, r));
        assert(upd.last() == routes.last());
        lemma_sum_ms_update(routes.drop_last(), i, r);
        assert(routes.drop_last()[i] == routes[i]);
        let du = sum_ms(routes.drop_last().update(i, r));
        let d = sum_ms(routes.drop_last());
        let lm = routes.last().customers@.to_multiset();
        assert(sum_ms(upd) == du.add(lm));
        assert(sum_ms(routes) == d.add(lm));
        assert(du.add(om) == d.add(rm));
        assert(sum_ms(upd).add(om) =~= sum_ms(routes).add(rm)) by {
            assert forall|x: usize| du.add(lm).add(om).count(x) == d.add(lm).add(rm).count(x) by {
                assert(du.add(lm).count(x) == du.count(x) + lm.count(x));
                assert(du.add(lm).add(om).count(x) == du.add(lm).count(x) + om.count(x));
                assert(d.add(lm).count(x) == d.count(x) + lm.count(x));
                assert(d.add(lm).add(rm).count(x) == d.add(lm).count(x) + rm.count(x));
                assert(du.add(om).count(x) == du.count(x) + om.count(x));
                assert(d.add(rm).count(x) == d.count(x) + rm.count(x));
            }
        }
    }
}

/// Exchanging customers between two routes keeps the concatenation's
/// customer multiset, and so the total customer count.
pub proof fn lemma_two_route_exchange(routes: Seq<Route>, i: int, j: int, new: Seq<Route>)
    requires
        new.len() == routes.len(),
        0 <= i < routes.len(),
        0 <= j < routes.len(),
        i != j,
        forall|k: int| 0 <= k < routes.len() && k != i && k != j ==> #[trigger] new[k] == routes[k],
        new[i].customers@.to_multiset().add(new[j].customers@.to_multiset()) == routes[i].customers@.to_multiset().add(
            routes[j].customers@.to_multiset(),
        ),
    ensures
        concat_routes(new).to_multiset() == concat_routes(routes).to_multiset(),
        concat_routes(new).len() == concat_routes(routes).len(),
{
    broadcast use vstd::multiset::group_multiset_axioms;
    broadcast use vstd::seq_lib::group_to_multiset_ensures;

    let mid = routes.update(i, new[i]);
    lemma_sum_ms_update(routes, i, new[i]);
    assert(mid[j] == routes[j]);
    lemma_sum_ms_update(mid, j, new[j]);
    assert(new =~= mid.update(j, new[j]));
    lemma_concat_ms(routes);
    lemma_concat_ms(new);
    assert forall|x: usize| sum_ms(new).count(x) == sum_ms(routes).count(x) by {
        let mj = mid[j].customers@.to_multiset();
        let nj = new[j].customers@.to_multiset();
        let ni = new[i].customers@.to_multiset();
        let oi = routes[i].customers@.to_multiset();
        let oj = routes[j].customers@.to_multiset();
        assert(sum_ms(new).add(mj).count(x) == sum_ms(new).count(x) + mj.count(x));
        assert(sum_ms(mid).add(nj).count(x) == sum_ms(mid).count(x) + nj.count(x));
        assert(sum_ms(new).add(mj).count(x) == sum_ms(mid).add(nj).count(x));
        assert(sum_ms(mid).add(oi).count(x) == sum_ms(mid).count(x) + oi.count(x));
        assert(sum_ms(routes).add(ni).count(x) == sum_ms(routes).count(x) + ni.count(x));
        assert(sum_ms(mid).add(oi).count(x) == sum_ms(routes).add(ni).count(x));
        assert(ni.add(nj).count(x) == ni.count(x) + nj.count(x));
        assert(oi.add(oj).count(x) == oi.count(x) + oj.count(x));
        assert(ni.add(nj).count(x) == oi.add(oj).count(x));
        assert(mj.count(x) == oj.count(x));
    }
    assert(sum_ms(new) =~= sum_ms(routes));
    broadcast use vstd::seq_lib::group_to_multiset_ensures;

    assert(concat_routes(new).to_multiset().len() == concat_routes(new).len());
    assert(concat_routes(routes).to_multiset().len() == concat_routes(routes).len());
}

/// Rearranging one route's own customers keeps the concatenation's
/// customer multiset, and so the total customer count.
pub proof fn lemma_one_route_exchange(routes: Seq<Route>, i: int, new: Seq<Route>)
    requires
        new.len() == routes.len(),
        0 <= i < routes.len(),
        forall|k: int| 0 <= k < routes.len() && k != i ==> #[trigger] new[k] == routes[k],
        new[i].customers@.to_multiset() == routes[i].customers@.to_multiset(),
    ensures
        concat_routes(new).to_multiset() == concat_routes(routes).to_multiset(),
        concat_routes(new).len() == concat_routes(routes).len(),
{
    broadcast use vstd::multiset::group_multiset_axioms;
    broadcast use vstd::seq_lib::group_to_multiset_ensures;

    lemma_sum_ms_update(routes, i, new[i]);
    assert(new =~= routes.update(i, new[i]));
    lemma_concat_ms(routes);
    lemma_concat_ms(new);
    assert forall|x: usize| sum_ms(new).count(x) == sum_ms(routes).count(x) by {
        let oi = routes[i].customers@.to_multiset();
        let ni = new[i].customers@.to_multiset();
        assert(sum_ms(new).add(oi).count(x) == sum_ms(new).count(x) + oi.count(x));
        assert(sum_ms(routes).add(ni).count(x) == sum_ms(routes).count(x) + ni.count(x));
        assert(sum_ms(new).add(oi).count(x) == sum_ms(routes).add(ni).count(x));
        assert(ni.count(x) == oi.count(x));
    }
    assert(sum_ms(new) =~= sum_ms(routes));
    assert(concat_routes(new).to_multiset().len() == concat_routes(new).len());
    assert(concat_routes(routes).to_multiset().len() == concat_routes(routes).len());
}

/// Replacing one route shifts the distance and excess sums by exactly
/// that route's own change.
pub proof fn lemma_sol_sums_update(p: &Problem, routes: Seq<Route>, i: int, r: Route)
    requires
        0 <= i < routes.len(),
    ensures
        sol_dist(p, routes.update(i, r)) == sol_dist(p, routes) - route_dist(p, routes[i].customers@)
            + route_dist(p, r.customers@),
        sol_excess(p, routes.update(i, r)) == sol_excess(p, routes) - excess_of(
            load_of(p, routes[i].customers@),
            p.vehicle_capacity as int,
        ) + excess_of(load_of(p, r.customers@), p.vehicle_capacity as int),
    decreases routes.len(),
{
    let upd = routes.update(i, r);
    if i == routes.len() - 1 {
        assert(upd.drop_last() =~= routes.drop_last());
        assert(upd.last() == r);
        assert(routes[i] == routes.last());
    } else {
        assert(upd.drop_last() =~= routes.drop_last().update(i, r));
        assert(upd.last() == routes.last());
        lemma_sol_sums_update(p, routes.drop_last(), i, r);
    }
}

/// A duplicate-free rearrangement stays duplicate-free.
pub proof fn lemma_nodup_from_ms(a: Seq<usize>, b: Seq<usize>)
    requires
        a.to_multiset() == b.to_multiset(),
        b.no_duplicates(),
    ensures
        a.no_duplicates(),
{
    b.lemma_multiset_has_no_duplicates();
    a.lemma_multiset_has_no_duplicates_conv();
}

/// A route's customers all appear in the concatenation.
pub proof fn lemma_route_in_concat(routes: Seq<Route>, r: int, c: usize)
    requires
        0 <= r < routes.len(),
        routes[r].customers@.contains(c),
    ensures
        concat_routes(routes).contains(c),
    decreases routes.len(),
{
    if r == routes.len() - 1 {
        let w = choose|w: int| 0 <= w < routes[r].customers@.len() && routes[r].customers@[w] == c;
        assert(concat_routes(routes)[concat_routes(routes.drop_last()).len() + w] == c);
    } else {
        lemma_route_in_concat(routes.drop_last(), r, c);
        assert(routes.drop_last()[r] == routes[r]);
        let w = choose|w: int|
            0 <= w < concat_routes(routes.drop_last()).len() && concat_routes(routes.drop_last())[w] == c;
        assert(concat_routes(routes)[w] == c);
    }
}

/// A duplicate-free concatenation means duplicate-free routes that share
/// no customer.
pub proof fn lemma_concat_nodup(routes: Seq<Route>)
    requires
        concat_routes(routes).no_duplicates(),
    ensures
        forall|r: int| 0 <= r < routes.len() ==> (#[trigger] routes[r]).customers@.no_duplicates(),
        forall|r1: int, r2: int, c: usize|
            #![trigger routes[r1].customers@.contains(c), routes[r2].customers@.contains(c)]
            0 <= r1 < routes.len() && 0 <= r2 < routes.len() && r1 != r2
                && routes[r1].customers@.contains(c) ==> !routes[r2].customers@.contains(c),
    decreases routes.len(),
{
    if routes.len() > 0 {
        let front = concat_routes(routes.drop_last());
        let last = routes.last().customers@;
        assert(concat_routes(routes) == front + last);
        assert forall|a: int, b: int|
            0 <= a < front.len() && 0 <= b < front.len() && a != b implies front[a] != front[b] by {
            assert((front + last)[a] == front[a]);
            assert((front + last)[b] == front[b]);
        }
        assert(front.no_duplicates());
        assert forall|a: int, b: int|
            0 <= a < last.len() && 0 <= b < last.len() && a != b implies last[a] != last[b] by {
            assert((front + last)[front.len() + a] == last[a]);
            assert((front + last)[front.len() + b] == last[b]);
        }
        assert(last.no_duplicates());
        lemma_concat_nodup(routes.drop_last());
        assert(forall|r: int| 0 <= r < routes.len() - 1 ==> routes.drop_last()[r] == #[trigger] routes[r]);
        assert forall|c: usize| front.contains(c) implies !last.contains(c) by {
            if last.contains(c) {
                let w1 = choose|w1: int| 0 <= w1 < front.len() && front[w1] == c;
                let w2 = choose|w2: int| 0 <= w2 < last.len() && last[w2] == c;
                assert((front + last)[w1] == c && (front + last)[front.len() + w2] == c);
            }
        }
        assert forall|r1: int, r2: int, c: usize|
            #![trigger routes[r1].customers@.contains(c), routes[r2].customers@.contains(c)]
            0 <= r1 < routes.len() && 0 <= r2 < routes.len() && r1 != r2
                && routes[r1].customers@.contains(c) implies !routes[r2].customers@.contains(c) by {
            if routes[r2].customers@.contains(c) {
                if r1 == routes.len() - 1 {
                    lemma_route_in_concat(routes.drop_last(), r2, c);
                } else if r2 == routes.len() - 1 {
                    lemma_route_in_concat(routes.drop_last(), r1, c);
                }
            }
        }
    }
}

/// Each route is at most as long as the concatenation of all of them.
pub proof fn lemma_route_len_le_concat(routes: Seq<Route>, i: int)
    requires
        0 <= i < routes.len(),
    ensures
        routes[i].customers@.len() <= concat_routes(routes).len(),
    decreases routes.len(),
{
    if i == routes.len() - 1 {
    } else {
        lemma_route_len_le_concat(routes.drop_last(), i);
        assert(routes.drop_last()[i] == routes[i]);
    }
}

/// Two distinct routes together are at most as long as the concatenation.
pub proof fn lemma_two_routes_len_le_concat(routes: Seq<Route>, i: int, j: int)
    requires
        0 <= i < routes.len(),
        0 <= j < routes.len(),
        i != j,
    ensures
        routes[i].customers@.len() + routes[j].customers@.len() <= concat_routes(routes).len(),
    decreases routes.len(),
{
    if i == routes.len() - 1 {
        lemma_route_len_le_concat(routes.drop_last(), j);
        assert(routes.drop_last()[j] == routes[j]);
    } else if j == routes.len() - 1 {
        lemma_route_len_le_concat(routes.drop_last(), i);
        assert(routes.drop_last()[i] == routes[i]);
    } else {
        lemma_two_routes_len_le_concat(routes.drop_last(), i, j);
        assert(routes.drop_last()[i] == routes[i]);
        assert(routes.drop_last()[j] == routes[j]);
    }
}

/// Round trip: rebuilding the giant tour from routes and splitting it
/// again can only produce routes over the same customer multiset, because
/// both sides equal the giant tour's multiset.
pub proof fn lemma_round_trip_preserves_customers(
    p: &Problem,
    routes_before: Seq<Route>,
    tour: Seq<usize>,
    routes_after: Seq<Route>,
)
    requires
        tour == concat_routes(routes_before),
        concat_routes(routes_after) == tour,
    ensures
        concat_routes(routes_after).to_multiset() == concat_routes(routes_before).to_multiset(),
        sol_load(p, routes_after) == sol_load(p, routes_before),
{
    lemma_demand_conservation(p, routes_before, routes_after);
}

} // verus!
