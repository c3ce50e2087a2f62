//! Products of real numbers.

use vstd::prelude::*;

verus! {

/// `x * y`
#[verifier::opaque]
pub open spec fn times(x: real, y: real) -> real {
    x * y
}

proof fn lemma_distributes(x: real, y: real, z: real)
    by (nonlinear_arith)
    ensures
        (x + y) * z == x * z + y * z,
{
}

proof fn lemma_associates(x: real, y: real, z: real)
    by (nonlinear_arith)
    ensures
        (x * y) * z == x * (y * z),
{
}

proof fn lemma_of_positives(x: real, y: real)
    by (nonlinear_arith)
    requires
        x > 0real,
        y > 0real,
    ensures
        x * y > 0real,
{
}

pub proof fn times_distributes(x: real, y: real, z: real)
    ensures
        times(x + y, z) == times(x, z) + times(y, z),
{
    reveal(times);
    lemma_distributes(x, y, z);
}

pub proof fn times_of_positives(x: real, y: real)
    requires
        x > 0real,
        y > 0real,
    ensures
        times(x, y) > 0real,
{
    reveal(times);
    lemma_of_positives(x, y);
}

pub proof fn times_commutes(x: real, y: real)
    ensures
        times(x, y) == times(y, x),
{
    reveal(times);
}

pub proof fn times_of_one(x: real)
    ensures
        times(x, 1real) == x,
        times(x, 0real) == 0real,
{
    reveal(times);
}

pub proof fn times_associates(x: real, y: real, z: real)
    ensures
        times(times(x, y), z) == times(x, times(y, z)),
{
    reveal(times);
    lemma_associates(x, y, z);
}

pub proof fn times_of_difference(x: real, y: real, z: real)
    ensures
        times(x - y, z) == times(x, z) - times(y, z),
        times(z, x - y) == times(z, x) - times(z, y),
{
    times_distributes(x - y, y, z);
    times_commutes(x - y, z);
    times_commutes(x, z);
    times_commutes(y, z);
}

pub proof fn times_of_negation(x: real, y: real)
    ensures
        times(-x, y) == -times(x, y),
        times(y, -x) == -times(y, x),
{
    times_of_one(y);
    times_commutes(0real, y);
    times_of_difference(0real, x, y);
}

/// Factors of a product of products may trade places.
pub proof fn times_trades(a: real, b: real, c: real, d: real)
    ensures
        times(times(a, b), times(c, d)) == times(times(a, c), times(b, d)),
{
    times_associates(a, b, times(c, d));
    times_associates(b, c, d);
    times_commutes(b, c);
    times_associates(c, b, d);
    times_associates(a, c, times(b, d));
}

pub proof fn times_keeps_order(x: real, y: real, z: real)
    requires
        x <= y,
        z >= 0real,
    ensures
        times(x, z) <= times(y, z),
        x < y && z > 0real ==> times(x, z) < times(y, z),
{
    times_of_difference(y, x, z);
    times_of_one(y - x);
    times_commutes(0real, z);
    times_of_one(z);
    if x < y && z > 0real {
        times_of_positives(y - x, z);
    } else if x == y {
    } else {
        assert(z == 0real);
    }
}

/// A product is zero only where a factor is.
pub proof fn times_is_zero(x: real, y: real)
    requires
        times(x, y) == 0real,
    ensures
        x == 0real || y == 0real,
{
    times_of_negation(x, y);
    times_of_negation(y, x);
    times_of_negation(x, -y);
    times_commutes(x, y);
    if x > 0real && y > 0real {
        times_of_positives(x, y);
    } else if x > 0real && y < 0real {
        times_of_positives(x, -y);
    } else if x < 0real && y > 0real {
        times_of_positives(-x, y);
    } else if x < 0real && y < 0real {
        times_of_positives(-x, -y);
    }
}

/// A factor other than zero may be cancelled.
pub proof fn times_cancels(x: real, y: real, z: real)
    requires
        times(x, z) == times(y, z),
        z != 0real,
    ensures
        x == y,
{
    times_of_difference(x, y, z);
    times_is_zero(x - y, z);
}

/// Where a divisor grows, the quotient shrinks as much.
pub proof fn quotient_shrinks(x: real, y: real, divisor: real, factor: real)
    requires
        times(x, divisor) == times(y, times(divisor, factor)),
        divisor != 0real,
    ensures
        x == times(y, factor),
{
    times_commutes(divisor, factor);
    times_associates(y, factor, divisor);
    times_cancels(x, times(y, factor), divisor);
}

/// A square is never negative.
pub proof fn square_is_not_negative(x: real)
    ensures
        times(x, x) >= 0real,
{
    times_of_negation(x, x);
    times_of_negation(x, -x);
    times_of_one(x);
    if x > 0real {
        times_of_positives(x, x);
    } else if x < 0real {
        times_of_positives(-x, -x);
    }
}

/// Numbers that are not negative and have the same square are the same.
pub proof fn square_root_is_unique(x: real, y: real)
    requires
        x >= 0real,
        y >= 0real,
        times(x, x) == times(y, y),
    ensures
        x == y,
{
    times_commutes(x, y);
    if x < y {
        times_keeps_order(x, y, y);
        times_keeps_order(x, y, x);
    }
    if y < x {
        times_keeps_order(y, x, x);
        times_keeps_order(y, x, y);
    }
}

/// The square of a difference.
pub proof fn square_of_difference(x: real, y: real)
    ensures
        times(x - y, x - y) == times(x, x) - times(x, y) - times(x, y) + times(y, y),
{
    times_of_difference(x, y, x - y);
    times_of_difference(x, y, x);
    times_of_difference(x, y, y);
    times_commutes(x, y);
}

/// A turn keeps lengths.
pub proof fn turn_keeps_length(u: real, v: real, c: real, s: real)
    requires
        times(c, c) + times(s, s) == 1real,
    ensures
        times(times(u, c) - times(v, s), times(u, c) - times(v, s)) + times(
            times(v, c) + times(u, s),
            times(v, c) + times(u, s),
        ) == times(u, u) + times(v, v),
{
    let uc = times(u, c);
    let vs = times(v, s);
    let vc = times(v, c);
    let us = times(u, s);
    square_of_difference(uc, vs);
    square_of_difference(vc, -us);
    times_of_negation(us, vc);
    times_of_negation(us, -us);
    times_of_negation(us, us);
    times_trades(u, c, u, c);
    times_trades(v, s, v, s);
    times_trades(v, c, v, c);
    times_trades(u, s, u, s);
    times_trades(u, c, v, s);
    times_trades(v, c, u, s);
    times_commutes(u, v);
    times_commutes(c, s);
    let uu = times(u, u);
    let vv = times(v, v);
    let cc = times(c, c);
    let ss = times(s, s);
    times_distributes(cc, ss, uu);
    times_distributes(cc, ss, vv);
    times_commutes(uu, cc);
    times_commutes(uu, ss);
    times_commutes(vv, cc);
    times_commutes(vv, ss);
    times_commutes(1real, uu);
    times_commutes(1real, vv);
    times_of_one(uu);
    times_of_one(vv);
}

} // verus!
