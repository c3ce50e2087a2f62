//! Arithmetic without rounding.
//!
//! Some laws of the simulation are laws of the real numbers: that a turn keeps
//! lengths, that an energy goes inversely with a distance. They are stated for an
//! [`Arithmetic`] that computes with real numbers and does not round; of a number
//! format that rounds they hold as far as its rounding lets them.

use vstd::arithmetic::power::{lemma_pow0, lemma_pow_positive, pow};
use vstd::prelude::*;

use crate::numerics::{Arithmetic, Decimal};
use crate::reals::{
    times, times_commutes, times_keeps_order, times_of_negation, times_of_one, times_of_positives,
};

verus! {

/// The absolute value of a real number.
pub open spec fn size(x: real) -> real {
    if x >= 0real {
        x
    } else {
        -x
    }
}

/// Whether a real number is above zero, below it, or neither: 1, -1 or 0.
pub open spec fn direction(x: real) -> int {
    if x > 0real {
        1
    } else if x < 0real {
        -1
    } else {
        0
    }
}

/// The direction and the size of a product.
pub proof fn direction_of_times(x: real, y: real)
    ensures
        x > 0real ==> direction(times(x, y)) == direction(y),
        x < 0real ==> direction(times(x, y)) == -direction(y),
        x == 0real ==> direction(times(x, y)) == 0,
        size(times(x, y)) == times(size(x), size(y)),
{
    times_of_one(x);
    times_of_one(y);
    times_commutes(x, y);
    times_of_negation(x, y);
    times_of_negation(y, x);
    times_of_negation(x, -y);
    if x > 0real && y > 0real {
        times_of_positives(x, y);
    } else if x > 0real && y < 0real {
        times_of_positives(x, -y);
    } else if x < 0real && y > 0real {
        times_of_positives(-x, y);
    } else if x < 0real && y < 0real {
        times_of_positives(-x, -y);
    }
}

impl<S: Copy> Arithmetic<S> {
    /// Each number stands for a real number of its own, `value` says which, and no
    /// step rounds.
    pub open spec fn is_exact(self, value: spec_fn(S) -> real) -> bool {
        &&& forall|x: S, y: S| #[trigger] value(x) == #[trigger] value(y) ==> x == y
        &&& forall|d: Decimal| d.exponent >= 0 ==> value(#[trigger] (self.decimal)(d)) == times(
            (d.mantissa as int) as real,
            pow(10, d.exponent as nat) as real,
        )
        &&& forall|d: Decimal| d.exponent <= 0 ==> times(
            value(#[trigger] (self.decimal)(d)),
            pow(10, (-d.exponent) as nat) as real,
        ) == (d.mantissa as int) as real
        &&& forall|x: S, y: S| value(#[trigger] (self.sum)(x, y)) == value(x) + value(y)
        &&& forall|x: S, y: S| value(#[trigger] (self.difference)(x, y)) == value(x) - value(y)
        &&& forall|x: S, y: S|
            value(#[trigger] (self.product)(x, y)) == times(value(x), value(y))
        &&& forall|x: S, y: S|
            value(y) != 0real ==> times(value(#[trigger] (self.quotient)(x, y)), value(y)) == value(
                x,
            )
        &&& forall|x: S, y: S|
            value(y) > 0real ==> self.is_remainder(
                value,
                x,
                y,
                #[trigger] (self.remainder)(x, y),
            )
        &&& forall|x: S|
            value(#[trigger] (self.power)(x, self.num(2, 0))) == times(value(x), value(x))
        &&& forall|x: S, y: S|
            value(#[trigger] (self.larger)(x, y)) == if value(x) >= value(y) {
                value(x)
            } else {
                value(y)
            }
        &&& forall|x: S| value(#[trigger] (self.negation)(x)) == -value(x)
        &&& forall|x: S| value(#[trigger] (self.magnitude)(x)) == size(value(x))
        &&& forall|x: S| value(x) > 0real ==> value(#[trigger] (self.sign)(x)) == 1real
        &&& forall|x: S| value(x) < 0real ==> value(#[trigger] (self.sign)(x)) == -1real
        &&& forall|x: S|
            value(x) >= 0real ==> value(#[trigger] (self.square_root)(x)) >= 0real && times(
                value((self.square_root)(x)),
                value((self.square_root)(x)),
            ) == value(x)
        &&& forall|x: S|
            times(value(#[trigger] (self.cosine)(x)), value((self.cosine)(x))) + times(
                value((self.sine)(x)),
                value((self.sine)(x)),
            ) == 1real
        &&& forall|x: S|
            0real <= value(x) < 4real ==> (#[trigger] (self.index)(x) as int) as real <= value(x)
                < ((self.index)(x) as int + 1) as real
        &&& forall|x: S, y: S| (#[trigger] (self.exceeds)(x, y)) == (value(x) > value(y))
        &&& forall|x: S, y: S| (#[trigger] (self.same)(x, y)) == (value(x) == value(y))
    }

    /// `r` is what is left of `x`, once a whole number of `y` is taken away.
    pub open spec fn is_remainder(self, value: spec_fn(S) -> real, x: S, y: S, r: S) -> bool {
        &&& 0real <= value(r) < value(y)
        &&& exists|k: int| value(x) == #[trigger] times(k as real, value(y)) + value(r)
    }
}

/// A whole number is what it says.
pub proof fn exact_whole<S: Copy>(m: Arithmetic<S>, value: spec_fn(S) -> real, n: int)
    requires
        m.is_exact(value),
        i128::MIN <= n <= i128::MAX,
    ensures
        value(m.num(n, 0)) == n as real,
{
    let d = Decimal { mantissa: n as i128, exponent: 0 };
    lemma_pow0(10);
    times_of_one(n as real);
    assert(value((m.decimal)(d)) == times((d.mantissa as int) as real, pow(10, 0) as real));
}

/// A positive decimal is positive, and it is below one where its digits all come
/// after the point.
pub proof fn exact_fraction<S: Copy>(
    m: Arithmetic<S>,
    value: spec_fn(S) -> real,
    n: int,
    digits: nat,
)
    requires
        m.is_exact(value),
        0 < n <= i128::MAX,
        digits <= 100,
    ensures
        value(m.num(n, -(digits as int))) > 0real,
        n < pow(10, digits) ==> value(m.num(n, -(digits as int))) < 1real,
{
    let d = Decimal { mantissa: n as i128, exponent: (-(digits as int)) as i32 };
    let v = value((m.decimal)(d));
    lemma_pow_positive(10, digits);
    let shift = pow(10, digits) as real;
    assert(pow(10, (-d.exponent) as nat) == pow(10, digits));
    assert(times(v, shift) == n as real);
    times_commutes(0real, shift);
    times_commutes(1real, shift);
    times_of_one(shift);
    if v <= 0real {
        times_keeps_order(v, 0real, shift);
    }
    if v >= 1real {
        times_keeps_order(1real, v, shift);
    }
}

/// Zero is zero.
pub proof fn exact_zero<S: Copy>(m: Arithmetic<S>, value: spec_fn(S) -> real)
    requires
        m.is_exact(value),
    ensures
        value(m.zero()) == 0real,
{
    exact_whole(m, value, 0);
}

} // verus!
