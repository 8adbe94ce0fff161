//! Shared pieces of the local search: route-edge accounting lemmas, the
//! exact insertion and removal deltas, neighbour lists, and polar sectors.

use vstd::prelude::*;
use crate::problem::Problem;
use crate::solution::{
    cust_ok, load_of, path_dist, route_dist, valid_customers, Route, Solution,
};
use crate::{MAX_DIST, MAX_NODES};

verus! {

/// A route's polar sector for SWAP* pruning: the angular span of its
/// customers around the depot, in monotone integer angle units.
#[derive(Clone, Copy, Debug)]
pub struct RouteInfo {
    pub route_index: usize,
    pub polar_min: u64,
    pub polar_max: u64,
}

/// The route's customer sequence with the depot made explicit at both ends.
pub open spec fn aug(p: &Problem, s: Seq<usize>) -> Seq<usize> {
    seq![p.depot_index] + s + seq![p.depot_index]
}

/// Node indices (customers or the depot) that the distance matrix covers.
pub open spec fn valid_nodes(p: &Problem, s: Seq<usize>) -> bool {
    forall|i: int| 0 <= i < s.len() ==> (#[trigger] s[i] as int) < p.n()
}

/// Splitting a path at a joint adds exactly the joining edge.
pub proof fn lemma_path_dist_append(p: &Problem, s1: Seq<usize>, s2: Seq<usize>)
    requires
        s1.len() >= 1,
        s2.len() >= 1,
    ensures
        path_dist(p, s1 + s2) == path_dist(p, s1) + p.dist(s1.last() as int, s2[0] as int) + path_dist(p, s2),
    decreases s2.len(),
{
    if s2.len() == 1 {
        assert((s1 + s2).drop_last() =~= s1);
        assert((s1 + s2).last() == s2[0]);
        assert((s1 + s2)[s1.len() + s2.len() - 2] == s1.last());
    } else {
        assert((s1 + s2).drop_last() =~= s1 + s2.drop_last());
        lemma_path_dist_append(p, s1, s2.drop_last());
        assert((s1 + s2).last() == s2.last());
        assert((s1 + s2)[s1.len() + s2.len() - 2] == s2[s2.len() - 2]);
        assert(s2.drop_last().last() == s2[s2.len() - 2]);
        assert(s2.drop_last()[0] == s2[0]);
    }
}

/// A round trip is the path along the depot-augmented sequence.
pub proof fn lemma_route_dist_is_aug_path(p: &Problem, s: Seq<usize>)
    requires
        p.wf(),
    ensures
        route_dist(p, s) == path_dist(p, aug(p, s)),
{
    if s.len() == 0 {
        let t = seq![p.depot_index, p.depot_index];
        assert(aug(p, s) =~= t);
        assert(t.drop_last() =~= seq![p.depot_index]);
        assert(path_dist(p, t.drop_last()) == 0);
        assert(t[t.len() - 2] == p.depot_index && t.last() == p.depot_index);
        assert(path_dist(p, t) == p.dist(p.depot_index as int, p.depot_index as int));
        p.lemma_dist_symmetric(p.depot_index as int, p.depot_index as int);
    } else {
        let front = seq![p.depot_index] + s;
        assert(aug(p, s) =~= front + seq![p.depot_index]);
        lemma_path_dist_append(p, front, seq![p.depot_index]);
        lemma_path_dist_append(p, seq![p.depot_index], s);
        assert(front =~= seq![p.depot_index] + s);
        assert(front.last() == s.last());
        assert(path_dist(p, seq![p.depot_index]) == 0);
        assert((seq![p.depot_index])[0] == p.depot_index);
    }
}

/// Walking a path backwards costs the same, the matrix being symmetric.
pub proof fn lemma_path_dist_reverse(p: &Problem, s: Seq<usize>)
    requires
        p.wf(),
        valid_nodes(p, s),
    ensures
        path_dist(p, s.reverse()) == path_dist(p, s),
    decreases s.len(),
{
    if s.len() <= 1 {
        assert(s.reverse() =~= s);
    } else {
        let t = s.drop_last();
        assert(valid_nodes(p, t)) by {
            assert(forall|q: int| 0 <= q < t.len() ==> t[q] == #[trigger] s[q]);
        }
        lemma_path_dist_reverse(p, t);
        assert(s.reverse() =~= seq![s.last()] + t.reverse());
        lemma_path_dist_append(p, seq![s.last()], t.reverse());
        assert(t.reverse()[0] == t.last());
        assert(t.last() == s[s.len() - 2]);
        p.lemma_dist_symmetric(s.last() as int, s[s.len() - 2] as int);
        assert(path_dist(p, seq![s.last()]) == 0);
        assert((seq![s.last()]).last() == s.last());
    }
}

/// The depot-augmented sequence around a position `pos` of `s`:
/// the part before, the customer there, and the part after.
pub proof fn lemma_remove_delta(p: &Problem, s: Seq<usize>, pos: int)
    requires
        p.wf(),
        valid_nodes(p, s),
        0 <= pos < s.len(),
        s.len() >= 2,
    ensures
        route_dist(p, s.remove(pos)) == route_dist(p, s) + p.dist(
            prev_node(p, s, pos),
            next_node(p, s, pos),
        ) - p.dist(prev_node(p, s, pos), s[pos] as int) - p.dist(s[pos] as int, next_node(p, s, pos)),
{
    let a = seq![p.depot_index] + s.subrange(0, pos);
    let b = s.subrange(pos + 1, s.len() as int) + seq![p.depot_index];
    assert(aug(p, s) =~= a + seq![s[pos]] + b);
    assert(aug(p, s.remove(pos)) =~= a + b);
    lemma_route_dist_is_aug_path(p, s);
    lemma_route_dist_is_aug_path(p, s.remove(pos));
    assert(a.len() >= 1 && b.len() >= 1);
    lemma_path_dist_append(p, a + seq![s[pos]], b);
    lemma_path_dist_append(p, a, seq![s[pos]]);
    assert(a + seq![s[pos]] + b =~= (a + seq![s[pos]]) + b);
    assert((a + seq![s[pos]]).last() == s[pos]);
    lemma_path_dist_append(p, a, b);
    assert(path_dist(p, seq![s[pos]]) == 0);
    assert(a.last() as int == prev_node(p, s, pos));
    assert(b[0] as int == next_node(p, s, pos));
}

/// The node before position `pos`: its left neighbour, or the depot.
pub open spec fn prev_node(p: &Problem, s: Seq<usize>, pos: int) -> int {
    if pos > 0 {
        s[pos - 1] as int
    } else {
        p.depot_index as int
    }
}

/// The node after position `pos`: its right neighbour, or the depot.
pub open spec fn next_node(p: &Problem, s: Seq<usize>, pos: int) -> int {
    if pos < s.len() - 1 {
        s[pos + 1] as int
    } else {
        p.depot_index as int
    }
}

/// Inserting a customer at `pos` replaces the edge it lands on by its two
/// new edges.
pub proof fn lemma_insert_delta(p: &Problem, s: Seq<usize>, c: usize, pos: int)
    requires
        p.wf(),
        valid_nodes(p, s),
        (c as int) < p.n(),
        0 <= pos <= s.len(),
        s.len() >= 1,
    ensures
        route_dist(p, s.insert(pos, c)) == route_dist(p, s) - p.dist(
            prev_node(p, s.insert(pos, c), pos),
            ins_next(p, s, pos),
        ) + p.dist(prev_node(p, s.insert(pos, c), pos), c as int) + p.dist(c as int, ins_next(p, s, pos)),
{
    let t = s.insert(pos, c);
    assert(valid_nodes(p, t)) by {
        assert(forall|q: int| 0 <= q < pos ==> t[q] == #[trigger] s[q]);
        assert(forall|q: int| pos < q < t.len() ==> #[trigger] t[q] == s[q - 1]);
        assert(t[pos] == c);
    }
    assert(t.remove(pos) =~= s);
    lemma_remove_delta(p, t, pos);
    assert(t[pos] == c);
    assert(next_node(p, t, pos) == ins_next(p, s, pos));
}

/// The node an insertion at `pos` lands in front of: `s[pos]`, or the
/// depot at the end.
pub open spec fn ins_next(p: &Problem, s: Seq<usize>, pos: int) -> int {
    if pos < s.len() {
        s[pos] as int
    } else {
        p.depot_index as int
    }
}

/// The neighbour list of `customer`: the `granularity` nearest other
/// customers, ordered by distance from it.
pub fn get_neighbors(customer: usize, problem: &Problem, granularity: usize) -> (r: Vec<usize>)
    requires
        problem.wf(),
        cust_ok(problem, customer),
    ensures
        valid_customers(problem, r@),
        forall|q: int| 0 <= q < r@.len() ==> #[trigger] r@[q] != customer,
        r@.no_duplicates(),
        r@.len() == if granularity <= problem.n() - 2 {
            granularity as int
        } else {
            problem.n() - 2
        },
        forall|q1: int, q2: int|
            0 <= q1 <= q2 < r@.len()
                ==> problem.dist(customer as int, #[trigger] r@[q1] as int) <= problem.dist(
                customer as int,
                #[trigger] r@[q2] as int,
            ),
        forall|c2: usize, q: int|
            #![trigger r@[q], problem.dist(customer as int, c2 as int)]
            cust_ok(problem, c2) && c2 != customer && !r@.contains(c2) && 0 <= q < r@.len()
                ==> problem.dist(customer as int, r@[q] as int) <= problem.dist(
                customer as int,
                c2 as int,
            ),
{
    broadcast use vstd::seq_lib::group_to_multiset_ensures;

    let n = problem.nodes.len();
    let mut arr: Vec<usize> = Vec::new();
    let mut c: usize = 0;
    while c < n
        invariant
            c <= n,
            n == problem.n(),
            (problem.depot_index as int) < problem.n(),
            (customer as int) < problem.n(),
            customer != problem.depot_index,
            valid_customers(problem, arr@),
            arr@.no_duplicates(),
            forall|q: int| 0 <= q < arr@.len() ==> #[trigger] arr@[q] < c && arr@[q] != customer,
            forall|d: usize| d < c && cust_ok(problem, d) && d != customer ==> arr@.contains(d),
            arr@.len() == count_below(c as int, problem.depot_index as int, customer as int),
        decreases n - c,
    {
        if c != problem.depot_index && c != customer {
            let ghost pre = arr@;
            arr.push(c);
            proof {
                assert(forall|q: int| 0 <= q < pre.len() ==> #[trigger] pre[q] != c);
                assert(arr@.drop_last() =~= pre);
                assert(arr@.last() == c);
                assert(arr@.contains(c));
                assert(forall|d: usize| pre.contains(d) ==> arr@.contains(d)) by {
                    assert(forall|q: int| 0 <= q < pre.len() ==> arr@[q] == #[trigger] pre[q]);
                }
            }
        }
        c += 1;
    }
    let ghost candidates = arr@;
    proof {
        assert(candidates.len() == problem.n() - 2);
    }
    // Insertion sort by distance from `customer`.
    let len = arr.len();
    let mut i: usize = 1;
    while i < len
        invariant
            1 <= i <= len || len == 0,
            len == arr@.len(),
            problem.wf(),
            (customer as int) < problem.n(),
            valid_customers(problem, arr@),
            arr@.to_multiset() == candidates.to_multiset(),
            forall|a: int, b: int|
                0 <= a < b < i ==> problem.dist(customer as int, #[trigger] arr@[a] as int) <= problem.dist(
                    customer as int,
                    #[trigger] arr@[b] as int,
                ),
        decreases len - i,
    {
        let mut j: usize = i;
        while j > 0 && problem.get_distance(customer, arr[j - 1]) > problem.get_distance(customer, arr[j])
            invariant
                j <= i < len,
                len == arr@.len(),
                problem.wf(),
                (customer as int) < problem.n(),
                valid_customers(problem, arr@),
                arr@.to_multiset() == candidates.to_multiset(),
                forall|a: int, b: int|
                    0 <= a < b <= i && b != j ==> problem.dist(customer as int, #[trigger] arr@[a] as int)
                        <= problem.dist(customer as int, #[trigger] arr@[b] as int),
            decreases j,
        {
            let x = arr[j - 1];
            let y = arr[j];
            let ghost s = arr@;
            *vstd::std_specs::vec::vec_index_mut(&mut arr, j - 1) = y;
            *vstd::std_specs::vec::vec_index_mut(&mut arr, j) = x;
            proof {
                broadcast use vstd::seq_lib::to_multiset_update;

                let s1 = s.update(j - 1, y);
                s.to_multiset_ensures();
                assert(s.contains(x) && s.contains(y));
                assert(s.to_multiset().count(x) > 0 && s.to_multiset().count(y) > 0);
                assert(s1[j as int] == y);
                assert(arr@ == s1.update(j as int, x));
                assert(arr@.to_multiset() =~= s.to_multiset());
                assert(valid_customers(problem, arr@)) by {
                    assert(forall|q: int|
                        0 <= q < arr@.len() && q != j - 1 && q != j ==> arr@[q] == #[trigger] s[q]);
                }
            }
            j -= 1;
        }
        i += 1;
    }
    proof {
        if len > 0 {
            assert(forall|a: int, b: int|
                0 <= a < b < len ==> problem.dist(customer as int, #[trigger] arr@[a] as int) <= problem.dist(
                    customer as int,
                    #[trigger] arr@[b] as int,
                ));
        }
        candidates.to_multiset_ensures();
        arr@.to_multiset_ensures();
        candidates.lemma_multiset_has_no_duplicates();
        arr@.lemma_multiset_has_no_duplicates_conv();
        assert(forall|q: int| 0 <= q < arr@.len() ==> candidates.contains(#[trigger] arr@[q])) by {
            assert(forall|q: int|
                0 <= q < arr@.len() ==> arr@.to_multiset().count(#[trigger] arr@[q]) > 0);
        }
        assert forall|d: usize| candidates.contains(d) implies arr@.contains(d) by {
            assert(candidates.to_multiset().count(d) > 0);
            assert(arr@.to_multiset().count(d) > 0);
        }
    }
    let ghost sorted_full = arr@;
    let count = if granularity < len {
        granularity
    } else {
        len
    };
    arr.truncate(count);
    proof {
        assert(arr@ == sorted_full.subrange(0, count as int));
        assert(forall|q: int| 0 <= q < count ==> arr@[q] == #[trigger] sorted_full[q]);
        assert(arr@.no_duplicates()) by {
            assert(forall|a: int, b: int|
                0 <= a < b < count ==> sorted_full[a] != sorted_full[b]);
        }
        assert forall|c2: usize, q: int|
            #![trigger arr@[q], problem.dist(customer as int, c2 as int)]
            cust_ok(problem, c2) && c2 != customer && !arr@.contains(c2) && 0 <= q < arr@.len() implies
            problem.dist(customer as int, arr@[q] as int) <= problem.dist(customer as int, c2 as int) by {
            assert(candidates.contains(c2));
            assert(sorted_full.contains(c2));
            let q2 = choose|q2: int| 0 <= q2 < sorted_full.len() && sorted_full[q2] == c2;
            if q2 < count {
                assert(arr@[q2] == c2);
                assert(arr@.contains(c2));
            }
            assert(q2 >= count);
            assert(problem.dist(customer as int, sorted_full[q] as int) <= problem.dist(
                customer as int,
                sorted_full[q2] as int,
            ));
        }
    }
    arr
}

/// How many indices below `c` are neither the depot nor the customer.
pub open spec fn count_below(c: int, depot: int, customer: int) -> int {
    c - (if depot < c {
        1int
    } else {
        0int
    }) - (if customer < c {
        1int
    } else {
        0int
    })
}

/// The summed demand of the route's customers from position `from` on.
pub fn tail_load(route: &Route, from: usize, problem: &Problem) -> (r: u64)
    requires
        problem.wf(),
        route.wf(problem),
        from <= route.customers@.len(),
    ensures
        r as int == load_of(problem, route.customers@.skip(from as int)),
        r <= 100_000_000_000_000,
{
    let n = route.customers.len();
    let mut total: u64 = 0;
    let mut k: usize = from;
    while k < n
        invariant
            problem.wf(),
            route.wf(problem),
            from <= k <= n,
            n == route.customers@.len(),
            total as int == load_of(problem, route.customers@.subrange(from as int, k as int)),
            total as int <= (k - from) * crate::DEMAND_LIMIT,
        decreases n - k,
    {
        let c = route.customers[k];
        proof {
            let s = route.customers@;
            assert(cust_ok(problem, s[k as int]));
            assert(s.subrange(from as int, k + 1).drop_last() =~= s.subrange(from as int, k as int));
            assert(s.subrange(from as int, k + 1).last() == s[k as int]);
            assert((k - from) * crate::DEMAND_LIMIT + crate::DEMAND_LIMIT == (k + 1 - from) * crate::DEMAND_LIMIT)
                by (nonlinear_arith);
            assert((k + 1 - from) * crate::DEMAND_LIMIT <= crate::MAX_NODES * crate::DEMAND_LIMIT)
                by (nonlinear_arith)
                requires k + 1 - from <= crate::MAX_NODES;
        }
        total = total + problem.nodes[c].demand;
        k += 1;
    }
    proof {
        assert(route.customers@.subrange(from as int, n as int) =~= route.customers@.skip(from as int));
        assert((n - from) * crate::DEMAND_LIMIT <= 100_000_000_000_000) by (nonlinear_arith)
            requires n - from <= crate::MAX_NODES;
    }
    total
}

/// An owned copy of an index list.
pub fn clone_indices(v: &Vec<usize>) -> (r: Vec<usize>)
    ensures
        r@ == v@,
{
    let mut r: Vec<usize> = Vec::new();
    let mut i: usize = 0;
    while i < v.len()
        invariant
            i <= v@.len(),
            r@ =~= v@.take(i as int),
        decreases v@.len() - i,
    {
        r.push(v[i]);
        i += 1;
    }
    proof {
        assert(r@ =~= v@);
    }
    r
}

/// Whether a route serves a given customer.
pub fn route_contains(route: &Route, customer: usize) -> (r: bool)
    ensures
        r == route.customers@.contains(customer),
{
    let n = route.customers.len();
    let mut i: usize = 0;
    while i < n
        invariant
            i <= n,
            n == route.customers@.len(),
            forall|q: int| 0 <= q < i ==> #[trigger] route.customers@[q] != customer,
        decreases n - i,
    {
        if route.customers[i] == customer {
            proof {
                assert(route.customers@[i as int] == customer);
            }
            return true;
        }
        i += 1;
    }
    proof {
        assert(!route.customers@.contains(customer));
    }
    false
}

/// The first position of a customer on a route, if it is served there.
pub fn position_of(route: &Route, customer: usize) -> (r: Option<usize>)
    ensures
        match r {
            Some(i) => (i as int) < route.customers@.len() && route.customers@[i as int] == customer,
            None => !route.customers@.contains(customer),
        },
{
    let n = route.customers.len();
    let mut i: usize = 0;
    while i < n
        invariant
            i <= n,
            n == route.customers@.len(),
            forall|q: int| 0 <= q < i ==> #[trigger] route.customers@[q] != customer,
        decreases n - i,
    {
        if route.customers[i] == customer {
            return Some(i);
        }
        i += 1;
    }
    proof {
        assert(!route.customers@.contains(customer));
    }
    None
}

/// Find the first route serving a customer, if any.
pub fn find_route_for_customer(solution: &Solution, customer: usize) -> (r: Option<usize>)
    ensures
        match r {
            Some(idx) => (idx as int) < solution.routes@.len()
                && solution.routes@[idx as int].customers@.contains(customer) && forall|q: int|
                0 <= q < idx ==> !(#[trigger] solution.routes@[q]).customers@.contains(customer),
            None => forall|q: int|
                0 <= q < solution.routes@.len()
                    ==> !(#[trigger] solution.routes@[q]).customers@.contains(customer),
        },
{
    let n = solution.routes.len();
    let mut idx: usize = 0;
    while idx < n
        invariant
            idx <= n,
            n == solution.routes@.len(),
            forall|q: int|
                0 <= q < idx ==> !(#[trigger] solution.routes@[q]).customers@.contains(customer),
        decreases n - idx,
    {
        if route_contains(&solution.routes[idx], customer) {
            return Some(idx);
        }
        idx += 1;
    }
    None
}

/// The round-trip distance the route would have with `customer` inserted
/// at `pos` (the whole new distance, not a delta).
pub fn calculate_insertion_cost(route: &Route, customer: usize, pos: usize, problem: &Problem) -> (r: u64)
    requires
        problem.wf(),
        route.wf(problem),
        route.caches_current(problem),
        cust_ok(problem, customer),
        pos <= route.customers@.len(),
        route.customers@.len() < MAX_NODES,
    ensures
        r as int == route_dist(problem, route.customers@.insert(pos as int, customer)),
{
    let customers = &route.customers;
    let n = customers.len();
    if n == 0 {
        let d = problem.get_distance(problem.depot_index, customer);
        proof {
            let t = route.customers@.insert(0, customer);
            assert(t =~= seq![customer]);
            problem.lemma_dist_symmetric(problem.depot_index as int, customer as int);
            assert(route_dist(problem, t) == problem.dist(problem.depot_index as int, customer as int)
                + problem.dist(customer as int, problem.depot_index as int));
        }
        return d * 2;
    }
    let prev_idx = if pos > 0 {
        customers[pos - 1]
    } else {
        problem.depot_index
    };
    let next_idx = if pos < n {
        customers[pos]
    } else {
        problem.depot_index
    };
    let old_edge = problem.get_distance(prev_idx, next_idx);
    let new_a = problem.get_distance(prev_idx, customer);
    let new_b = problem.get_distance(customer, next_idx);
    proof {
        let s = route.customers@;
        lemma_insert_delta(problem, s, customer, pos as int);
        assert(prev_node(problem, s.insert(pos as int, customer), pos as int) == prev_idx as int);
        assert(ins_next(problem, s, pos as int) == next_idx as int);
        crate::solution::lemma_route_dist_bound(problem, s.insert(pos as int, customer));
        assert((s.len() + 2) * MAX_DIST < 0xffff_ffff_ffff_ffff) by (nonlinear_arith)
            requires s.len() + 2 <= MAX_NODES + 1;
        crate::solution::lemma_route_dist_bound(problem, s);
    }
    route.distance + new_a + new_b - old_edge
}

/// The change in round-trip distance from removing the customer at `pos`
/// (negative when the route gets shorter).
pub fn calculate_removal_cost(route: &Route, pos: usize, problem: &Problem) -> (r: i128)
    requires
        problem.wf(),
        route.wf(problem),
        route.caches_current(problem),
        pos < route.customers@.len(),
    ensures
        r as int == route_dist(problem, route.customers@.remove(pos as int)) - route_dist(
            problem,
            route.customers@,
        ),
{
    let customers = &route.customers;
    let n = customers.len();
    if n <= 1 {
        proof {
            assert(route.customers@.remove(0) =~= Seq::<usize>::empty());
        }
        return -(route.distance as i128);
    }
    let prev_idx = if pos > 0 {
        customers[pos - 1]
    } else {
        problem.depot_index
    };
    let curr_idx = customers[pos];
    let next_idx = if pos < n - 1 {
        customers[pos + 1]
    } else {
        problem.depot_index
    };
    let old_edges = problem.get_distance(prev_idx, curr_idx) + problem.get_distance(curr_idx, next_idx);
    let new_edge = problem.get_distance(prev_idx, next_idx);
    proof {
        let s = route.customers@;
        lemma_remove_delta(problem, s, pos as int);
        assert(prev_node(problem, s, pos as int) == prev_idx as int);
        assert(next_node(problem, s, pos as int) == next_idx as int);
    }
    (new_edge as i128) - (old_edges as i128)
}

/// The route that results from removing the customer at `remove_pos` and
/// inserting `insert_customer` at `insert_pos`.  Its caches are computed
/// here, so the evaluation that follows can read an exact trial distance
/// instead of a stale cache.
pub fn create_temp_route(
    route: &Route,
    remove_pos: usize,
    insert_customer: usize,
    insert_pos: usize,
    problem: &Problem,
) -> (r: Route)
    requires
        problem.wf(),
        route.wf(problem),
        cust_ok(problem, insert_customer),
        remove_pos < route.customers@.len(),
        insert_pos < route.customers@.len(),
        route.customers@.len() <= MAX_NODES,
    ensures
        r.customers@ == route.customers@.remove(remove_pos as int).insert(insert_pos as int, insert_customer),
        r.caches_current(problem),
        r.wf(problem),
{
    let mut temp = Route::new();
    let n = route.customers.len();
    let mut i: usize = 0;
    while i < n
        invariant
            i <= n,
            n == route.customers@.len(),
            remove_pos < n,
            temp.modified,
            temp.customers@ =~= if i <= remove_pos {
                route.customers@.take(i as int)
            } else {
                route.customers@.take(i as int).remove(remove_pos as int)
            },
        decreases n - i,
    {
        if i != remove_pos {
            temp.customers.push(route.customers[i]);
        }
        proof {
            let s = route.customers@;
            if i < remove_pos {
                assert(s.take(i + 1) =~= s.take(i as int).push(s[i as int]));
            } else if i == remove_pos {
                assert(s.take(i + 1).remove(remove_pos as int) =~= s.take(i as int));
            } else {
                assert(s.take(i + 1).remove(remove_pos as int)
                    =~= s.take(i as int).remove(remove_pos as int).push(s[i as int]));
            }
        }
        i += 1;
    }
    proof {
        assert(route.customers@.take(n as int) =~= route.customers@);
    }
    temp.customers.insert(insert_pos, insert_customer);
    proof {
        let t = temp.customers@;
        assert(valid_customers(problem, t)) by {
            let base = route.customers@.remove(remove_pos as int);
            assert(forall|q: int| 0 <= q < base.len() ==> route.customers@.contains(#[trigger] base[q])) by {
                assert(forall|q: int|
                    0 <= q < base.len()
                        ==> base[q] == (if q < remove_pos {
                            #[trigger] route.customers@[q]
                        } else {
                            route.customers@[q + 1]
                        }));
            }
            assert(forall|q: int| 0 <= q < t.len() ==> base.contains(#[trigger] t[q]) || t[q] == insert_customer)
                by {
                assert(forall|q: int|
                    0 <= q < t.len()
                        ==> t[q] == (if q < insert_pos {
                            #[trigger] base[q]
                        } else if q == insert_pos {
                            insert_customer
                        } else {
                            base[q - 1]
                        }));
            }
        }
    }
    temp.calculate_load(problem);
    temp.calculate_distance(problem);
    temp
}

} // verus!
