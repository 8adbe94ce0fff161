//! Small utilities: duration formatting and excess-load summation.

use vstd::prelude::*;
use crate::problem::Problem;
use crate::solution::{sol_excess, Solution};
use crate::{DEMAND_LIMIT, MAX_NODES};

verus! {

/// The decimal digit character of a value below ten.
pub open spec fn digit_char(d: int) -> char {
    if d == 0 {
        '0'
    } else if d == 1 {
        '1'
    } else if d == 2 {
        '2'
    } else if d == 3 {
        '3'
    } else if d == 4 {
        '4'
    } else if d == 5 {
        '5'
    } else if d == 6 {
        '6'
    } else if d == 7 {
        '7'
    } else if d == 8 {
        '8'
    } else {
        '9'
    }
}

/// The decimal digits of a value, most significant first.
pub open spec fn dec_digits(n: int) -> Seq<char>
    decreases n,
{
    if n < 10 {
        seq![digit_char(n)]
    } else {
        dec_digits(n / 10).push(digit_char(n % 10))
    }
}

/// Append one digit character.
fn append_digit(s: &mut String, d: u64)
    requires
        d < 10,
    ensures
        final(s)@ == old(s)@.push(digit_char(d as int)),
{
    proof {
        reveal_strlit("0");
        reveal_strlit("1");
        reveal_strlit("2");
        reveal_strlit("3");
        reveal_strlit("4");
        reveal_strlit("5");
        reveal_strlit("6");
        reveal_strlit("7");
        reveal_strlit("8");
        reveal_strlit("9");
    }
    if d == 0 {
        s.append("0");
    } else if d == 1 {
        s.append("1");
    } else if d == 2 {
        s.append("2");
    } else if d == 3 {
        s.append("3");
    } else if d == 4 {
        s.append("4");
    } else if d == 5 {
        s.append("5");
    } else if d == 6 {
        s.append("6");
    } else if d == 7 {
        s.append("7");
    } else if d == 8 {
        s.append("8");
    } else {
        s.append("9");
    }
    proof {
        assert(s@ =~= old(s)@.push(digit_char(d as int)));
    }
}

/// Append a value's decimal digits.
fn append_decimal(s: &mut String, n: u64)
    ensures
        final(s)@ == old(s)@ + dec_digits(n as int),
    decreases n,
{
    if n >= 10 {
        append_decimal(s, n / 10);
    }
    append_digit(s, n % 10);
    proof {
        if n < 10 {
            assert(old(s)@ + dec_digits(n as int) =~= old(s)@.push(digit_char(n as int)));
        } else {
            assert(old(s)@ + dec_digits(n as int) =~= (old(s)@ + dec_digits(n as int / 10)).push(
                digit_char(n as int % 10),
            ));
        }
    }
}

/// The rendered duration: hours, then zero-padded minutes and seconds.
pub open spec fn duration_chars(total_seconds: int) -> Seq<char> {
    let hours = total_seconds / 3600;
    let minutes = (total_seconds % 3600) / 60;
    let seconds = total_seconds % 60;
    dec_digits(hours) + seq!['h', ' '] + seq![digit_char(minutes / 10), digit_char(minutes % 10)] + seq![
        'm',
        ' ',
    ] + seq![digit_char(seconds / 10), digit_char(seconds % 10)] + seq!['s']
}

/// Format a duration in seconds as hours, minutes and seconds, the last
/// two zero-padded to two digits.
pub fn format_duration(total_seconds: u64) -> (r: String)
    ensures
        r@ == duration_chars(total_seconds as int),
{
    proof {
        reveal_strlit("h ");
        reveal_strlit("m ");
        reveal_strlit("s");
    }
    let hours = total_seconds / 3600;
    let minutes = (total_seconds % 3600) / 60;
    let seconds = total_seconds % 60;
    let mut s = String::new();
    append_decimal(&mut s, hours);
    s.append("h ");
    append_digit(&mut s, minutes / 10);
    append_digit(&mut s, minutes % 10);
    s.append("m ");
    append_digit(&mut s, seconds / 10);
    append_digit(&mut s, seconds % 10);
    s.append("s");
    proof {
        assert(s@ =~= duration_chars(total_seconds as int));
    }
    s
}

/// Total load beyond the capacity, summed over the solution's routes from
/// their current caches.
pub fn calculate_excess_load(solution: &Solution, problem: &Problem) -> (r: u64)
    requires
        problem.wf(),
        solution.wf(problem),
        solution.routes_fresh(problem),
    ensures
        r as int == sol_excess(problem, solution.routes@),
{
    let n = solution.routes.len();
    let mut total: u64 = 0;
    let mut i: usize = 0;
    while i < n
        invariant
            problem.wf(),
            solution.wf(problem),
            solution.routes_fresh(problem),
            n == solution.routes@.len(),
            i <= n,
            total as int == sol_excess(problem, solution.routes@.take(i as int)),
            total as int <= crate::solution::concat_routes(solution.routes@.take(i as int)).len()
                * DEMAND_LIMIT,
        decreases n - i,
    {
        let route = &solution.routes[i];
        let excess = if route.load > problem.vehicle_capacity {
            route.load - problem.vehicle_capacity
        } else {
            0u64
        };
        proof {
            let cur = solution.routes@;
            let s = cur[i as int].customers@;
            assert(cur[i as int].wf(problem));
            assert(cur[i as int].caches_current(problem));
            crate::solution::lemma_load_of_bound(problem, s);
            assert(cur.take(i + 1).drop_last() =~= cur.take(i as int));
            assert(cur.take(i + 1).last() == cur[i as int]);
            crate::solution::lemma_concat_take_succ(cur, i as int);
            crate::solution::lemma_concat_len_monotone(cur, i + 1);
            assert(crate::solution::concat_routes(cur.take(i as int)).len() * DEMAND_LIMIT + s.len()
                * DEMAND_LIMIT == crate::solution::concat_routes(cur.take(i + 1)).len() * DEMAND_LIMIT)
                by (nonlinear_arith)
                requires crate::solution::concat_routes(cur.take(i + 1)).len()
                    == crate::solution::concat_routes(cur.take(i as int)).len() + s.len();
            assert(crate::solution::concat_routes(cur.take(i + 1)).len() * DEMAND_LIMIT <= MAX_NODES
                * DEMAND_LIMIT) by (nonlinear_arith)
                requires crate::solution::concat_routes(cur.take(i + 1)).len() <= MAX_NODES;
        }
        total = total + excess;
        i += 1;
    }
    proof {
        assert(solution.routes@.take(n as int) =~= solution.routes@);
    }
    total
}

} // verus!
