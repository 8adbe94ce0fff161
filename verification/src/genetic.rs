//! Genetic operators: ordered crossover on giant tours, and swap mutation.

use vstd::prelude::*;
use crate::individual::Individual;
use crate::rng::rand_below;
use crate::solution::Solution;
use crate::MAX_NODES;

verus! {

/// The elements of `s`, in order, that the segment does not hold.
pub open spec fn keep_not_in(s: Seq<usize>, seg: Seq<usize>) -> Seq<usize>
    decreases s.len(),
{
    if s.len() == 0 {
        Seq::empty()
    } else {
        let r = keep_not_in(s.drop_last(), seg);
        if seg.contains(s.last()) {
            r
        } else {
            r.push(s.last())
        }
    }
}

/// Filtering a duplicate-free sequence by a duplicate-free sub-multiset
/// splits its multiset exactly.
proof fn lemma_keep_count(s: Seq<usize>, seg: Seq<usize>, v: usize)
    ensures
        keep_not_in(s, seg).to_multiset().count(v) == if seg.contains(v) {
            0int
        } else {
            s.to_multiset().count(v) as int
        },
    decreases s.len(),
{
    broadcast use vstd::seq_lib::group_to_multiset_ensures;

    if s.len() == 0 {
        assert(s.to_multiset().count(v) <= s.to_multiset().len());
        assert(keep_not_in(s, seg).to_multiset().count(v) <= keep_not_in(s, seg).to_multiset().len());
    } else {
        lemma_keep_count(s.drop_last(), seg, v);
        assert(s =~= s.drop_last().push(s.last()));
        assert(s.to_multiset() == s.drop_last().push(s.last()).to_multiset());
        assert(s.drop_last().push(s.last()).to_multiset() =~= s.drop_last().to_multiset().insert(s.last()));
        if !seg.contains(s.last()) {
            assert(keep_not_in(s, seg) == keep_not_in(s.drop_last(), seg).push(s.last()));
            assert(keep_not_in(s, seg).to_multiset() =~= keep_not_in(s.drop_last(), seg).to_multiset().insert(
                s.last(),
            ));
        }
    }
}

/// The ordered-crossover shape: the child carries the first parent's
/// segment `[s, e]` in place, and the remaining positions, walked
/// circularly from just past the segment, hold the other customers in the
/// second parent's circular order starting there.
pub open spec fn ox_shape(child: Seq<usize>, p1: Seq<usize>, p2: Seq<usize>, s: int, e: int) -> bool {
    let n = p1.len() as int;
    let seg = p1.subrange(s, e + 1);
    let r0 = if e + 1 >= n {
        0int
    } else {
        e + 1
    };
    let rem = keep_not_in(p2.subrange(r0, n) + p2.subrange(0, r0), seg);
    let head_len = n - 1 - e;
    &&& child.len() == n
    &&& rem.len() == n - (e + 1 - s)
    &&& child == rem.subrange(head_len, rem.len() as int) + seg + rem.subrange(0, head_len)
}

/// The genetic operators.
pub struct Genetic;

impl Genetic {
    /// Ordered crossover: copy a random segment of the first parent's
    /// giant tour in place, then fill the remaining positions with the
    /// other customers in the second parent's circular order.  The
    /// offspring is a permutation of the first parent's customers.
    pub fn crossover(&self, parent1: &Individual, parent2: &Individual) -> (r: Solution)
        requires
            parent1.solution.giant_tour@.no_duplicates(),
            parent2.solution.giant_tour@.to_multiset() == parent1.solution.giant_tour@.to_multiset(),
            parent1.solution.giant_tour@.len() <= MAX_NODES,
            forall|q: int|
                0 <= q < parent1.solution.giant_tour@.len()
                    ==> (#[trigger] parent1.solution.giant_tour@[q] as int) < MAX_NODES,
        ensures
            r.giant_tour@.to_multiset() == parent1.solution.giant_tour@.to_multiset(),
            r.giant_tour@.no_duplicates(),
            r.giant_tour@.len() == parent1.solution.giant_tour@.len(),
            parent1.solution.giant_tour@.len() > 0 ==> exists|s: int, e: int|
                0 <= s <= e < parent1.solution.giant_tour@.len() && ox_shape(
                    r.giant_tour@,
                    parent1.solution.giant_tour@,
                    parent2.solution.giant_tour@,
                    s,
                    e,
                ),
            r.routes@.len() == 0,
    {
        broadcast use vstd::seq_lib::group_to_multiset_ensures;

        let p1_tour = &parent1.solution.giant_tour;
        let p2_tour = &parent2.solution.giant_tour;
        let n = p1_tour.len();
        proof {
            assert(p2_tour@.to_multiset().len() == p1_tour@.to_multiset().len());
            assert(p2_tour@.len() == p1_tour@.len());
        }
        if n == 0 {
            let r = Solution::new();
            proof {
                assert(r.giant_tour@.to_multiset() =~= p1_tour@.to_multiset()) by {
                    assert(p1_tour@.to_multiset().len() == 0);
                    assert(r.giant_tour@.to_multiset().len() == 0);
                    assert(forall|v: usize| #[trigger] p1_tour@.to_multiset().count(v)
                        <= p1_tour@.to_multiset().len());
                    assert(forall|v: usize| #[trigger] r.giant_tour@.to_multiset().count(v)
                        <= r.giant_tour@.to_multiset().len());
                }
            }
            return r;
        }

        let cut1 = rand_below(n);
        let cut2 = rand_below(n);
        let (start, end) = if cut1 <= cut2 {
            (cut1, cut2)
        } else {
            (cut2, cut1)
        };
        let ghost seg = p1_tour@.subrange(start as int, end + 1);

        // Mark the segment's customers.
        let mut used: Vec<bool> = vec![false; MAX_NODES];
        let mut k: usize = start;
        while k <= end
            invariant
                start <= k <= end + 1,
                end < n == p1_tour@.len(),
                seg == p1_tour@.subrange(start as int, end + 1),
                forall|q: int|
                    0 <= q < p1_tour@.len() ==> (#[trigger] p1_tour@[q] as int) < MAX_NODES,
                used@.len() == MAX_NODES,
                forall|v: usize|
                    (v as int) < MAX_NODES
                        ==> #[trigger] used@[v as int] == p1_tour@.subrange(start as int, k as int).contains(v),
            decreases end + 1 - k,
        {
            let c = p1_tour[k];
            let ghost pre = used@;
            *vstd::std_specs::vec::vec_index_mut(&mut used, c) = true;
            proof {
                let before = p1_tour@.subrange(start as int, k as int);
                let after = p1_tour@.subrange(start as int, k + 1);
                assert(after.drop_last() =~= before);
                assert(after.last() == p1_tour@[k as int]);
                assert forall|v: usize| (v as int) < MAX_NODES implies used@[v as int] == after.contains(v) by {
                    if v == c {
                        assert(after[k - start] == v);
                        assert(after.contains(v));
                    } else {
                        assert(used@[v as int] == pre[v as int]);
                        assert(after.contains(v) == before.contains(v)) by {
                            if after.contains(v) {
                                let w = choose|w: int| 0 <= w < after.len() && after[w] == v;
                                assert(before[w] == v);
                            }
                            if before.contains(v) {
                                let w = choose|w: int| 0 <= w < before.len() && before[w] == v;
                                assert(after[w] == v);
                            }
                        }
                    }
                }
            }
            k += 1;
        }
        proof {
            assert(p1_tour@.subrange(start as int, (end + 1) as int) == seg);
        }

        // Walk the second parent circularly from just past the segment and
        // collect the customers outside it, in that order.
        proof {
            p2_tour@.to_multiset_ensures();
            p1_tour@.to_multiset_ensures();
            assert forall|q: int| 0 <= q < p2_tour@.len() implies (p2_tour@[q] as int) < MAX_NODES by {
                assert(p2_tour@.contains(p2_tour@[q]));
                assert(p2_tour@.to_multiset().count(p2_tour@[q]) > 0);
                assert(p1_tour@.to_multiset().count(p2_tour@[q]) > 0);
                assert(p1_tour@.contains(p2_tour@[q]));
            }
        }
        let r0 = if end + 1 >= n {
            0
        } else {
            end + 1
        };
        let ghost rot = p2_tour@.subrange(r0 as int, n as int) + p2_tour@.subrange(0, r0 as int);
        let mut rem: Vec<usize> = Vec::new();
        let mut t: usize = 0;
        while t < n
            invariant
                t <= n,
                n == p2_tour@.len(),
                n == p1_tour@.len(),
                n <= MAX_NODES,
                r0 < n,
                rot == p2_tour@.subrange(r0 as int, n as int) + p2_tour@.subrange(0, r0 as int),
                seg == p1_tour@.subrange(start as int, end + 1),
                start <= end < n,
                used@.len() == MAX_NODES,
                forall|v: usize| (v as int) < MAX_NODES ==> #[trigger] used@[v as int] == seg.contains(v),
                forall|q: int| 0 <= q < p2_tour@.len() ==> (#[trigger] p2_tour@[q] as int) < MAX_NODES,
                rem@ == keep_not_in(rot.take(t as int), seg),
            decreases n - t,
        {
            let idx = if r0 + t >= n {
                r0 + t - n
            } else {
                r0 + t
            };
            let c = p2_tour[idx];
            proof {
                assert(rot[t as int] == p2_tour@[idx as int]) by {
                    if r0 + t < n {
                        assert(rot[t as int] == p2_tour@.subrange(r0 as int, n as int)[t as int]);
                    } else {
                        assert(rot[t as int] == p2_tour@.subrange(0, r0 as int)[r0 + t - n]);
                    }
                }
                assert(rot.take(t + 1).drop_last() =~= rot.take(t as int));
                assert(rot.take(t + 1).last() == rot[t as int]);
            }
            if !used[c] {
                rem.push(c);
            }
            t += 1;
        }
        proof {
            assert(rot.take(n as int) =~= rot);
        }

        // Multiset bookkeeping: the rotation holds the second parent's
        // customers, and the segment plus the rest is the first parent's.
        proof {
            vstd::seq_lib::lemma_multiset_commutative(
                p2_tour@.subrange(0, r0 as int),
                p2_tour@.subrange(r0 as int, n as int),
            );
            vstd::seq_lib::lemma_multiset_commutative(
                p2_tour@.subrange(r0 as int, n as int),
                p2_tour@.subrange(0, r0 as int),
            );
            assert(p2_tour@ =~= p2_tour@.subrange(0, r0 as int) + p2_tour@.subrange(r0 as int, n as int));
            assert(rot.to_multiset() =~= p2_tour@.to_multiset()) by {
                broadcast use vstd::multiset::group_multiset_axioms;
            }
            assert forall|v: usize| rem@.to_multiset().add(seg.to_multiset()).count(v)
                == p1_tour@.to_multiset().count(v) by {
                broadcast use vstd::multiset::group_multiset_axioms;

                lemma_keep_count(rot, seg, v);
                p1_tour@.lemma_multiset_has_no_duplicates();
                if seg.contains(v) {
                    // One copy sits in the segment, and the tour has no
                    // duplicates, so the tour holds exactly one.
                    let w = choose|w: int| 0 <= w < seg.len() && seg[w] == v;
                    assert(p1_tour@[start + w] == v);
                    assert(p1_tour@.contains(v));
                    assert(p1_tour@.to_multiset().count(v) == 1);
                    assert(seg.to_multiset().count(v) >= 1) by {
                        assert(seg.contains(v));
                    }
                    assert(seg.to_multiset().count(v) <= 1) by {
                        assert(seg.no_duplicates()) by {
                            assert(forall|x: int, y: int|
                                0 <= x < y < seg.len() ==> seg[x] == p1_tour@[start + x] && seg[y]
                                    == p1_tour@[start + y]);
                        }
                        seg.lemma_multiset_has_no_duplicates();
                    }
                } else {
                    assert(seg.to_multiset().count(v) == 0) by {
                        if seg.to_multiset().count(v) > 0 {
                            assert(seg.contains(v));
                        }
                    }
                    assert(rot.to_multiset().count(v) == p2_tour@.to_multiset().count(v));
                }
            }
            assert(rem@.to_multiset().add(seg.to_multiset()) =~= p1_tour@.to_multiset()) by {
                broadcast use vstd::multiset::group_multiset_axioms;
            }
            assert(rem@.to_multiset().add(seg.to_multiset()).len() == p1_tour@.to_multiset().len()) by {
                broadcast use vstd::multiset::group_multiset_axioms;
            }
            assert(rem@.len() + seg.len() == n) by {
                broadcast use vstd::multiset::group_multiset_axioms;
            }
        }

        // Lay the offspring out: the segment in place, the rest in the
        // collected order, wrapping past the end.
        let head_len = n - 1 - end;
        let mut offspring: Vec<usize> = vec![0usize; n];
        let mut w: usize = 0;
        while w < head_len
            invariant
                w <= head_len,
                head_len == n - 1 - end,
                start <= end < n,
                offspring@.len() == n,
                rem@.len() == n - (end + 1 - start),
                forall|q: int| 0 <= q < w ==> #[trigger] offspring@[end + 1 + q] == rem@[q],
            decreases head_len - w,
        {
            *vstd::std_specs::vec::vec_index_mut(&mut offspring, end + 1 + w) = rem[w];
            w += 1;
        }
        let mut w2: usize = 0;
        while w2 < start
            invariant
                w2 <= start,
                head_len == n - 1 - end,
                start <= end < n,
                offspring@.len() == n,
                rem@.len() == n - (end + 1 - start),
                forall|q: int| 0 <= q < head_len ==> #[trigger] offspring@[end + 1 + q] == rem@[q],
                forall|q: int| 0 <= q < w2 ==> #[trigger] offspring@[q] == rem@[head_len + q],
            decreases start - w2,
        {
            *vstd::std_specs::vec::vec_index_mut(&mut offspring, w2) = rem[head_len + w2];
            w2 += 1;
        }
        let mut w3: usize = start;
        while w3 <= end
            invariant
                start <= w3 <= end + 1,
                end < n,
                offspring@.len() == n,
                n == p1_tour@.len(),
                rem@.len() == n - (end + 1 - start),
                head_len == n - 1 - end,
                forall|q: int| 0 <= q < head_len ==> #[trigger] offspring@[end + 1 + q] == rem@[q],
                forall|q: int| 0 <= q < start ==> #[trigger] offspring@[q] == rem@[head_len + q],
                forall|q: int| start <= q < w3 ==> #[trigger] offspring@[q] == p1_tour@[q],
            decreases end + 1 - w3,
        {
            let c = p1_tour[w3];
            *vstd::std_specs::vec::vec_index_mut(&mut offspring, w3) = c;
            w3 += 1;
        }
        proof {
            let tail = rem@.subrange(0, head_len as int);
            let head = rem@.subrange(head_len as int, rem@.len() as int);
            assert(offspring@ =~= head + seg + tail) by {
                assert(head.len() == start);
                assert(forall|q: int| 0 <= q < start ==> offspring@[q] == #[trigger] head[q]);
                assert(forall|q: int|
                    start <= q <= end ==> #[trigger] offspring@[q] == seg[q - start]);
                assert forall|q: int| end < q < n implies offspring@[q] == tail[q - end - 1] by {
                    assert(offspring@[end + 1 + (q - end - 1)] == rem@[q - end - 1]);
                }
            }
            vstd::seq_lib::lemma_multiset_commutative(head, seg);
            vstd::seq_lib::lemma_multiset_commutative(head + seg, tail);
            vstd::seq_lib::lemma_multiset_commutative(tail, head);
            assert(rem@ =~= tail + head);
            vstd::seq_lib::lemma_multiset_commutative(tail, head);
            assert(offspring@.to_multiset() =~= p1_tour@.to_multiset()) by {
                broadcast use vstd::multiset::group_multiset_axioms;
            }
            p1_tour@.lemma_multiset_has_no_duplicates();
            offspring@.lemma_multiset_has_no_duplicates_conv();
            assert(offspring@ == head + seg + tail);
            assert(head == rem@.subrange(head_len as int, rem@.len() as int));
            assert(tail == rem@.subrange(0, head_len as int));
            assert(ox_shape(offspring@, p1_tour@, p2_tour@, start as int, end as int));
        }
        let mut r = Solution::new();
        r.giant_tour = offspring;
        proof {
            assert(ox_shape(r.giant_tour@, p1_tour@, p2_tour@, start as int, end as int));
        }
        r
    }

    /// Swap mutation: for each position, with probability
    /// `mutation_rate_per_mille / 1000`, exchange it with a random
    /// position.  The tour keeps exactly its multiset of customers.
    pub fn mutate(&self, individual: &mut Individual, mutation_rate_per_mille: u64)
        ensures
            final(individual).solution.giant_tour@.to_multiset() == old(
                individual,
            ).solution.giant_tour@.to_multiset(),
            final(individual).solution.giant_tour@.len() == old(individual).solution.giant_tour@.len(),
            mutation_rate_per_mille == 0 ==> final(individual).solution.giant_tour == old(
                individual,
            ).solution.giant_tour,
            final(individual).solution.routes == old(individual).solution.routes,
            final(individual).solution.cost == old(individual).solution.cost,
            final(individual).solution.distance == old(individual).solution.distance,
            final(individual).solution.excess_capacity == old(individual).solution.excess_capacity,
            final(individual).solution.is_feasible == old(individual).solution.is_feasible,
            final(individual).rank_feasibility == old(individual).rank_feasibility,
            final(individual).rank_diversity == old(individual).rank_diversity,
            final(individual).biased_fitness == old(individual).biased_fitness,
            final(individual).common_pairs == old(individual).common_pairs,
    {
        broadcast use vstd::seq_lib::group_to_multiset_ensures;

        let n = individual.solution.giant_tour.len();
        if n == 0 {
            return ;
        }
        let mut i: usize = 0;
        while i < n
            invariant
                i <= n,
                n == individual.solution.giant_tour@.len(),
                individual.solution.giant_tour@.to_multiset() == old(
                    individual,
                ).solution.giant_tour@.to_multiset(),
                mutation_rate_per_mille == 0 ==> individual.solution.giant_tour == old(
                    individual,
                ).solution.giant_tour,
                individual.solution.routes == old(individual).solution.routes,
                individual.solution.cost == old(individual).solution.cost,
                individual.solution.distance == old(individual).solution.distance,
                individual.solution.excess_capacity == old(individual).solution.excess_capacity,
                individual.solution.is_feasible == old(individual).solution.is_feasible,
                individual.rank_feasibility == old(individual).rank_feasibility,
                individual.rank_diversity == old(individual).rank_diversity,
                individual.biased_fitness == old(individual).biased_fitness,
                individual.common_pairs == old(individual).common_pairs,
            decreases n - i,
        {
            let roll = rand_below(1000);
            if (roll as u64) < mutation_rate_per_mille {
                let j = rand_below(n);
                let a = individual.solution.giant_tour[i];
                let b = individual.solution.giant_tour[j];
                let ghost s = individual.solution.giant_tour@;
                *vstd::std_specs::vec::vec_index_mut(&mut individual.solution.giant_tour, i) = b;
                *vstd::std_specs::vec::vec_index_mut(&mut individual.solution.giant_tour, j) = a;
                proof {
                    broadcast use vstd::seq_lib::to_multiset_update;

                    let s1 = s.update(i as int, b);
                    s.to_multiset_ensures();
                    assert(s.contains(a) && s.contains(b));
                    assert(s.to_multiset().count(a) > 0 && s.to_multiset().count(b) > 0);
                    assert(s1[j as int] == b);
                    assert(individual.solution.giant_tour@ == s1.update(j as int, a));
                    assert(individual.solution.giant_tour@.to_multiset() =~= s.to_multiset());
                }
            }
            i += 1;
        }
    }
}

} // verus!
