//! Randomness: one trusted draw, and verified shuffling built on it.

use vstd::prelude::*;
use crate::problem::Problem;
use crate::solution::{cust_ok, valid_customers};

verus! {

/// Relies on rand's `Rng::gen_range` over `0..n` on the thread-local
/// generator: it panics on an empty range and otherwise returns an element
/// of the range.  Nothing more is assumed of the draw; every caller must
/// be correct for each possible value.
#[verifier::external_body]
pub(crate) fn rand_below(n: usize) -> (r: usize)
    requires
        n > 0,
    ensures
        r < n,
{
    rand::Rng::gen_range(&mut rand::thread_rng(), 0..n)
}

/// Fisher-Yates shuffle: afterwards the vector holds the same values, in
/// an order chosen by the generator.
pub fn shuffle(v: &mut Vec<usize>)
    ensures
        final(v)@.len() == old(v)@.len(),
        final(v)@.to_multiset() == old(v)@.to_multiset(),
{
    broadcast use vstd::seq_lib::group_to_multiset_ensures;

    let n = v.len();
    let mut i: usize = n;
    while i > 1
        invariant
            i <= n,
            n == v@.len(),
            v@.to_multiset() == old(v)@.to_multiset(),
        decreases i,
    {
        let j = rand_below(i);
        let a = v[i - 1];
        let b = v[j];
        let ghost s = v@;
        *vstd::std_specs::vec::vec_index_mut(v, i - 1) = b;
        *vstd::std_specs::vec::vec_index_mut(v, j) = a;
        proof {
            broadcast use vstd::seq_lib::to_multiset_update;

            let s1 = s.update(i - 1, b);
            assert(s.contains(a) && s.contains(b));
            assert(s1.to_multiset() == s.to_multiset().insert(b).remove(a));
            assert(s1[j as int] == b);
            assert(v@ == s1.update(j as int, a));
            assert(v@.to_multiset() == s1.to_multiset().insert(a).remove(b));
            s.to_multiset_ensures();
            assert(s.to_multiset().count(a) > 0);
            assert(s.to_multiset().count(b) > 0);
            assert(v@.to_multiset() =~= s.to_multiset());
        }
        i -= 1;
    }
}

/// A fresh giant tour: the instance's customers, each exactly once, in a
/// random order.
pub fn random_giant_tour(problem: &Problem) -> (tour: Vec<usize>)
    requires
        problem.wf(),
    ensures
        tour@.len() == problem.n() - 1,
        valid_customers(problem, tour@),
        tour@.no_duplicates(),
        forall|c: usize| cust_ok(problem, c) ==> tour@.contains(c),
{
    broadcast use vstd::seq_lib::group_to_multiset_ensures;

    let n = problem.nodes.len();
    let mut base: Vec<usize> = Vec::new();
    let mut c: usize = 0;
    while c < n
        invariant
            c <= n,
            n == problem.n(),
            (problem.depot_index as int) < problem.n(),
            valid_customers(problem, base@),
            base@.no_duplicates(),
            forall|q: int| 0 <= q < base@.len() ==> #[trigger] base@[q] < c,
            forall|d: usize| d < c && cust_ok(problem, d) ==> base@.contains(d),
            base@.len() == if c <= problem.depot_index {
                c as int
            } else {
                c - 1
            },
        decreases n - c,
    {
        if c != problem.depot_index {
            let ghost pre = base@;
            base.push(c);
            proof {
                assert(forall|q: int| 0 <= q < pre.len() ==> #[trigger] pre[q] != c);
                assert(base@.drop_last() =~= pre);
                assert(base@.last() == c);
                assert(base@.contains(c));
                assert(forall|d: usize|
                    d < c && cust_ok(problem, d) ==> #[trigger] base@.contains(d)) by {
                    assert(forall|d: usize| pre.contains(d) ==> base@.contains(d)) by {
                        assert(forall|q: int| 0 <= q < pre.len() ==> base@[q] == #[trigger] pre[q]);
                    }
                }
            }
        }
        c += 1;
    }
    let ghost before = base@;
    shuffle(&mut base);
    proof {
        before.to_multiset_ensures();
        base@.to_multiset_ensures();
        assert forall|q: int| 0 <= q < base@.len() implies before.contains(#[trigger] base@[q]) by {
            assert(base@.contains(base@[q]));
            assert(base@.to_multiset().count(base@[q]) > 0);
            assert(before.to_multiset().count(base@[q]) > 0);
        }
        assert(valid_customers(problem, base@));
        before.lemma_multiset_has_no_duplicates();
        base@.lemma_multiset_has_no_duplicates_conv();
        assert forall|c2: usize| cust_ok(problem, c2) implies base@.contains(c2) by {
            assert(before.contains(c2));
            assert(before.to_multiset().count(c2) > 0);
            assert(base@.to_multiset().count(c2) > 0);
        }
    }
    base
}

} // verus!
