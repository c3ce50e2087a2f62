//! What arithmetic keeps, though it may round.
//!
//! Each property here is one that floating point in the usual formats has, with its
//! two zeros, its infinities and what it gives where there is no number to give.
//! Arithmetic without rounding has them too.

use vstd::prelude::*;

use crate::exact::{direction_of_times, exact_whole, exact_zero};
use crate::numerics::Arithmetic;
use crate::reals::{
    square_is_not_negative, times_cancels, times_commutes, times_is_zero, times_of_negation,
    times_of_one,
};

verus! {

impl<S: Copy> Arithmetic<S> {
    /// A number is the same as itself. What is given where there is no number to give
    /// need not be.
    pub open spec fn is_number(self, x: S) -> bool {
        (self.same)(x, x)
    }

    /// One is the other turned around, or neither is a number.
    pub open spec fn is_opposite(self, x: S, y: S) -> bool {
        (self.same)(y, (self.negation)(x)) || !self.is_number(x) && !self.is_number(y)
    }

    /// Numbers are in order, sums and magnitudes keep to their side of zero, and what
    /// is not a number is neither above nor below any.
    pub open spec fn is_orderly(self) -> bool {
        &&& forall|x: S| !(#[trigger] (self.exceeds)(x, x))
        &&& forall|x: S, y: S, z: S| #[trigger]
            (self.exceeds)(x, y) && #[trigger] (self.exceeds)(y, z) ==> (self.exceeds)(x, z)
        &&& forall|x: S, y: S, z: S|
            #![trigger (self.exceeds)(x, z), (self.exceeds)(x, y)]
            (self.exceeds)(x, z) && !(self.exceeds)(x, y) && self.is_number(y) ==> (self.exceeds)(
                y,
                z,
            )
        &&& forall|x: S, y: S| #[trigger]
            (self.exceeds)(x, y) ==> self.is_number(x) && self.is_number(y)
        &&& forall|x: S, y: S|
            self.is_number(#[trigger] (self.sum)(x, y)) ==> self.is_number(x) && self.is_number(y)
        &&& forall|x: S, y: S|
            (self.exceeds)(#[trigger] (self.sum)(x, y), self.zero()) ==> (self.exceeds)(
                x,
                self.zero(),
            ) || (self.exceeds)(y, self.zero())
        &&& forall|x: S, y: S|
            (self.exceeds)(self.zero(), #[trigger] (self.sum)(x, y)) ==> (self.exceeds)(
                self.zero(),
                x,
            ) || (self.exceeds)(self.zero(), y)
        &&& forall|x: S| !(self.exceeds)(self.zero(), #[trigger] (self.magnitude)(x))
    }

    /// Arithmetic treats both sides of zero alike: sums and products keep negation,
    /// magnitudes do not see it, and signs turn with it.
    pub open spec fn is_even_about_zero(self) -> bool {
        &&& self.is_opposite(self.zero(), self.zero())
        &&& forall|x: S, x2: S, y: S, y2: S|
            self.is_opposite(x, x2) && self.is_opposite(y, y2) ==> self.is_opposite(
                #[trigger] (self.sum)(x, y),
                #[trigger] (self.sum)(x2, y2),
            )
        &&& forall|x: S, x2: S, y: S|
            self.is_opposite(x, x2) ==> self.is_opposite(
                #[trigger] (self.product)(x, y),
                #[trigger] (self.product)(x2, y),
            )
        &&& forall|x: S, y: S, y2: S|
            self.is_opposite(y, y2) ==> self.is_opposite(
                #[trigger] (self.product)(x, y),
                #[trigger] (self.product)(x, y2),
            )
        &&& forall|x: S, x2: S|
            #![trigger (self.magnitude)(x), (self.magnitude)(x2)]
            self.is_opposite(x, x2) ==> (self.magnitude)(x) == (self.magnitude)(x2)
                || !self.is_number((self.magnitude)(x)) && !self.is_number((self.magnitude)(x2))
        &&& forall|x: S, x2: S|
            #![trigger (self.sign)(x), (self.sign)(x2)]
            self.is_opposite(x, x2) && (self.exceeds)((self.magnitude)(x), self.zero())
                ==> self.is_opposite((self.sign)(x), (self.sign)(x2))
    }

    /// Quotients by this divisor keep negation.
    pub open spec fn divides_evenly(self, divisor: S) -> bool {
        forall|x: S, x2: S|
            self.is_opposite(x, x2) ==> self.is_opposite(
                #[trigger] (self.quotient)(x, divisor),
                #[trigger] (self.quotient)(x2, divisor),
            )
    }

    /// A sign alone changes no magnitude, and zero alone no sum.
    pub open spec fn has_unit_signs(self) -> bool {
        &&& (self.magnitude)(self.zero()) == self.zero()
        &&& (self.sum)(self.zero(), self.zero()) == self.zero()
        &&& forall|x: S|
            (self.exceeds)(x, self.zero()) ==> #[trigger] (self.sum)(self.zero(), x) == x
        &&& forall|x: S|
            (self.exceeds)(x, self.zero()) ==> #[trigger] (self.sum)(x, self.zero()) == x
        &&& forall|x: S, y: S|
            (self.exceeds)((self.magnitude)(x), self.zero()) && (self.exceeds)(y, self.zero())
                ==> (self.magnitude)(#[trigger] (self.product)((self.sign)(x), y)) == y
    }

    /// The magnitude of a product is the product of the magnitudes, and the sign of a
    /// number, turned around, has the magnitude of one.
    pub open spec fn splits_magnitudes(self) -> bool {
        &&& forall|x: S, y: S|
            self.is_number(#[trigger] (self.product)(x, y)) ==> self.is_number(x)
                && self.is_number(y)
        &&& forall|x: S, y: S|
            self.is_number((self.product)(x, y)) ==> (self.magnitude)(
                #[trigger] (self.product)(x, y),
            ) == (self.product)((self.magnitude)(x), (self.magnitude)(y))
        &&& forall|x: S|
            self.is_number(x) && !self.is_zero(x) ==> (self.magnitude)(
                (self.negation)(#[trigger] (self.sign)(x)),
            ) == (self.magnitude)(self.num(1, 0))
    }

    /// The sign of a number other than zero is one or minus one, and signs multiply.
    pub open spec fn multiplies_signs(self) -> bool {
        let one = self.num(1, 0);
        let minus_one = self.num(-1, 0);
        &&& one != minus_one
        &&& self.is_number(one) && self.is_number(minus_one)
        &&& !self.is_zero(one) && (self.sign)(one) == one && (self.negation)(one) == minus_one
        &&& !self.is_zero(minus_one) && (self.sign)(minus_one) == minus_one && (self.negation)(
            minus_one,
        ) == one
        &&& forall|x: S|
            self.is_number(x) && !self.is_zero(x) ==> #[trigger] (self.sign)(x) == one
                || (self.sign)(x) == minus_one
        &&& forall|x: S|
            self.is_number(x) && !self.is_zero(x) ==> (self.exceeds)(
                #[trigger] (self.magnitude)(x),
                self.zero(),
            )
        &&& forall|x: S|
            (self.exceeds)(x, self.zero()) ==> self.is_number(x) && !self.is_zero(x)
                && #[trigger] (self.sign)(x) == one
        &&& forall|x: S, y: S|
            (self.exceeds)(x, self.zero()) || (self.exceeds)(y, self.zero()) ==> (self.exceeds)(
                #[trigger] (self.larger)(x, y),
                self.zero(),
            )
        &&& forall|x: S|
            (self.exceeds)(x, self.zero()) ==> self.is_number(#[trigger] (self.product)(one, x))
                && !self.is_zero((self.product)(one, x))
        &&& forall|x: S|
            (self.exceeds)(x, self.zero()) ==> self.is_number(
                #[trigger] (self.product)(minus_one, x),
            ) && !self.is_zero((self.product)(minus_one, x))
        &&& forall|x: S, y: S|
            self.is_number(#[trigger] (self.product)(x, y)) && self.is_number(x) && self.is_number(
                y,
            ) && !self.is_zero(x) && !self.is_zero(y) ==> (self.sign)((self.product)(x, y)) == (if (
            self.sign)(x) == (self.sign)(y) {
                one
            } else {
                minus_one
            })
    }

    /// Squares, their sums and the roots of these are never below zero, and nothing
    /// comes of nothing.
    pub open spec fn measures_lengths(self) -> bool {
        &&& forall|x: S|
            !(self.exceeds)(self.zero(), #[trigger] (self.power)(x, self.num(2, 0)))
        &&& forall|x: S, y: S|
            !(self.exceeds)(self.zero(), x) && !(self.exceeds)(self.zero(), y) ==> !(self.exceeds)(
                self.zero(),
                #[trigger] (self.sum)(x, y),
            )
        &&& forall|x: S|
            !(self.exceeds)(self.zero(), x) ==> !(self.exceeds)(
                self.zero(),
                #[trigger] (self.square_root)(x),
            )
        &&& (self.power)(self.zero(), self.num(2, 0)) == self.zero()
        &&& (self.sum)(self.zero(), self.zero()) == self.zero()
        &&& (self.square_root)(self.zero()) == self.zero()
    }

    /// A number taken from itself leaves nothing above zero, and what is not above zero
    /// is not above anything that is not below it.
    pub open spec fn tolerates_itself(self) -> bool {
        &&& forall|x: S|
            !(self.exceeds)(
                (self.magnitude)(#[trigger] (self.difference)(x, x)),
                self.zero(),
            )
        &&& forall|x: S, y: S| #[trigger]
            (self.exceeds)(x, y) ==> (self.exceeds)(x, self.zero()) || (self.exceeds)(
                self.zero(),
                y,
            )
    }
}

/// In exact arithmetic a number is always a number, and its opposite is minus it.
pub proof fn exact_opposite<S: Copy>(
    m: Arithmetic<S>,
    value: spec_fn(S) -> real,
    x: S,
    y: S,
)
    requires
        m.is_exact(value),
    ensures
        m.is_number(x),
        m.is_opposite(x, y) <==> value(y) == -value(x),
        m.is_zero(x) <==> value(x) == 0real,
{
    exact_zero(m, value);
}

/// Exact arithmetic is orderly.
pub proof fn exact_arithmetic_is_orderly<S: Copy>(m: Arithmetic<S>, value: spec_fn(S) -> real)
    requires
        m.is_exact(value),
    ensures
        m.is_orderly(),
        m.tolerates_itself(),
{
    exact_zero(m, value);
}

/// Exact arithmetic treats both sides of zero alike.
pub proof fn exact_arithmetic_is_even_about_zero<S: Copy>(
    m: Arithmetic<S>,
    value: spec_fn(S) -> real,
)
    requires
        m.is_exact(value),
    ensures
        m.is_even_about_zero(),
{
    exact_zero(m, value);
    assert forall|x: S, x2: S, y: S| m.is_opposite(x, x2) implies m.is_opposite(
        #[trigger] (m.product)(x, y),
        #[trigger] (m.product)(x2, y),
    ) by {
        times_of_negation(value(x), value(y));
    }
    assert forall|x: S, y: S, y2: S| m.is_opposite(y, y2) implies m.is_opposite(
        #[trigger] (m.product)(x, y),
        #[trigger] (m.product)(x, y2),
    ) by {
        times_of_negation(value(y), value(x));
    }
    assert forall|x: S, x2: S|
        #![trigger (m.magnitude)(x), (m.magnitude)(x2)]
        m.is_opposite(x, x2) implies (m.magnitude)(x) == (m.magnitude)(x2) || !m.is_number(
        (m.magnitude)(x),
    ) && !m.is_number((m.magnitude)(x2)) by {
        assert(value((m.magnitude)(x)) == value((m.magnitude)(x2)));
    }
}

/// Exact quotients by anything but zero keep negation.
pub proof fn exact_arithmetic_divides_evenly<S: Copy>(
    m: Arithmetic<S>,
    value: spec_fn(S) -> real,
    divisor: S,
)
    requires
        m.is_exact(value),
        value(divisor) != 0real,
    ensures
        m.divides_evenly(divisor),
{
    assert forall|x: S, x2: S| m.is_opposite(x, x2) implies m.is_opposite(
        #[trigger] (m.quotient)(x, divisor),
        #[trigger] (m.quotient)(x2, divisor),
    ) by {
        let q = value((m.quotient)(x, divisor));
        let q2 = value((m.quotient)(x2, divisor));
        times_of_negation(q, value(divisor));
        times_cancels(q2, -q, value(divisor));
    }
}

/// Exact signs change no magnitude.
pub proof fn exact_arithmetic_has_unit_signs<S: Copy>(m: Arithmetic<S>, value: spec_fn(S) -> real)
    requires
        m.is_exact(value),
    ensures
        m.has_unit_signs(),
{
    exact_zero(m, value);
    assert(value((m.magnitude)(m.zero())) == value(m.zero()));
    assert(value((m.sum)(m.zero(), m.zero())) == value(m.zero()));
    assert forall|x: S| (m.exceeds)(x, m.zero()) implies #[trigger] (m.sum)(m.zero(), x) == x by {
        assert(value((m.sum)(m.zero(), x)) == value(x));
    }
    assert forall|x: S| (m.exceeds)(x, m.zero()) implies #[trigger] (m.sum)(x, m.zero()) == x by {
        assert(value((m.sum)(x, m.zero())) == value(x));
    }
    assert forall|x: S, y: S|
        (m.exceeds)((m.magnitude)(x), m.zero()) && (m.exceeds)(y, m.zero()) implies (m.magnitude)(
        #[trigger] (m.product)((m.sign)(x), y),
    ) == y by {
        direction_of_times(value((m.sign)(x)), value(y));
        times_commutes(1real, value(y));
        times_of_one(value(y));
        assert(value((m.magnitude)((m.product)((m.sign)(x), y))) == value(y));
    }
}

/// Exact arithmetic splits magnitudes.
pub proof fn exact_arithmetic_splits_magnitudes<S: Copy>(
    m: Arithmetic<S>,
    value: spec_fn(S) -> real,
)
    requires
        m.is_exact(value),
    ensures
        m.splits_magnitudes(),
{
    exact_zero(m, value);
    exact_whole(m, value, 1);
    assert forall|x: S, y: S| m.is_number((m.product)(x, y)) implies (m.magnitude)(
        #[trigger] (m.product)(x, y),
    ) == (m.product)((m.magnitude)(x), (m.magnitude)(y)) by {
        direction_of_times(value(x), value(y));
        assert(value((m.magnitude)((m.product)(x, y))) == value(
            (m.product)((m.magnitude)(x), (m.magnitude)(y)),
        ));
    }
    assert forall|x: S| m.is_number(x) && !m.is_zero(x) implies (m.magnitude)(
        (m.negation)(#[trigger] (m.sign)(x)),
    ) == (m.magnitude)(m.num(1, 0)) by {
        assert(value((m.magnitude)((m.negation)((m.sign)(x)))) == value(
            (m.magnitude)(m.num(1, 0)),
        ));
    }
}

/// Exact signs multiply.
pub proof fn exact_arithmetic_multiplies_signs<S: Copy>(
    m: Arithmetic<S>,
    value: spec_fn(S) -> real,
)
    requires
        m.is_exact(value),
    ensures
        m.multiplies_signs(),
{
    exact_zero(m, value);
    exact_whole(m, value, 1);
    exact_whole(m, value, -1);
    let one = m.num(1, 0);
    let minus_one = m.num(-1, 0);
    assert(value((m.sign)(one)) == value(one));
    assert(value((m.sign)(minus_one)) == value(minus_one));
    assert(value((m.negation)(one)) == value(minus_one));
    assert(value((m.negation)(minus_one)) == value(one));
    assert forall|x: S| m.is_number(x) && !m.is_zero(x) implies #[trigger] (m.sign)(x) == one || (
    m.sign)(x) == minus_one by {
        assert(value((m.sign)(x)) == value(one) || value((m.sign)(x)) == value(minus_one));
    }
    assert forall|x: S| (m.exceeds)(x, m.zero()) implies m.is_number(x) && !m.is_zero(x)
        && #[trigger] (m.sign)(x) == one by {
        assert(value((m.sign)(x)) == value(one));
    }
    assert forall|x: S| (m.exceeds)(x, m.zero()) implies m.is_number(
        #[trigger] (m.product)(one, x),
    ) && !m.is_zero((m.product)(one, x)) by {
        direction_of_times(value(one), value(x));
    }
    assert forall|x: S| (m.exceeds)(x, m.zero()) implies m.is_number(
        #[trigger] (m.product)(minus_one, x),
    ) && !m.is_zero((m.product)(minus_one, x)) by {
        direction_of_times(value(minus_one), value(x));
    }
    assert forall|x: S, y: S|
        m.is_number(#[trigger] (m.product)(x, y)) && m.is_number(x) && m.is_number(y) && !m.is_zero(
            x,
        ) && !m.is_zero(y) implies (m.sign)((m.product)(x, y)) == (if (m.sign)(x) == (m.sign)(y) {
        one
    } else {
        minus_one
    }) by {
        direction_of_times(value(x), value(y));
        let found = (m.sign)((m.product)(x, y));
        let expected = if (m.sign)(x) == (m.sign)(y) {
            one
        } else {
            minus_one
        };
        assert(value(found) == value(expected));
    }
}

/// Exact arithmetic measures lengths.
pub proof fn exact_arithmetic_measures_lengths<S: Copy>(
    m: Arithmetic<S>,
    value: spec_fn(S) -> real,
)
    requires
        m.is_exact(value),
    ensures
        m.measures_lengths(),
{
    let zero = m.zero();
    let root = (m.square_root)(zero);
    exact_zero(m, value);
    assert forall|x: S| !(m.exceeds)(zero, #[trigger] (m.power)(x, m.num(2, 0))) by {
        square_is_not_negative(value(x));
    }
    times_of_one(0real);
    assert(value((m.power)(zero, m.num(2, 0))) == value(zero));
    assert(value((m.sum)(zero, zero)) == value(zero));
    times_is_zero(value(root), value(root));
    assert(value(root) == value(zero));
}

} // verus!
