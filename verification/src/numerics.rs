//! The arithmetic that a simulation runs on.
//!
//! The simulation never commits to a number format. It asks a [`Numerics`] for
//! every arithmetic step, and contracts speak of an [`Arithmetic`]: the
//! mathematical functions which those steps compute.

use vstd::prelude::*;

verus! {

/// The decimal number `mantissa * 10^exponent`.
#[derive(Clone, Copy, Debug, PartialEq, Eq, Structural)]
pub struct Decimal {
    pub mantissa: i128,
    pub exponent: i32,
}

impl Decimal {
    #[verifier::allow_in_spec]
    pub fn new(mantissa: i128, exponent: i32) -> Decimal
        returns
            (Decimal { mantissa, exponent }),
    {
        Decimal { mantissa, exponent }
    }
}

/// The number format of a simulation, and the charge model of its cells.
///
/// No method promises anything. What a simulation computes is proved of every number
/// format that an [`Arithmetic`] describes: one in which each step is a function of its
/// arguments, whatever function that is.
pub trait Numerics {
    /// A number of this format.
    type Scalar: Copy;

    /// The number of this format that stands for `value`.
    fn decimal(&self, value: Decimal) -> Self::Scalar;

    /// `x + y`
    fn sum(&self, x: Self::Scalar, y: Self::Scalar) -> Self::Scalar;

    /// `x - y`
    fn difference(&self, x: Self::Scalar, y: Self::Scalar) -> Self::Scalar;

    /// `x * y`
    fn product(&self, x: Self::Scalar, y: Self::Scalar) -> Self::Scalar;

    /// `x / y`
    fn quotient(&self, x: Self::Scalar, y: Self::Scalar) -> Self::Scalar;

    /// `x` modulo `y`, never negative
    fn remainder(&self, x: Self::Scalar, y: Self::Scalar) -> Self::Scalar;

    /// `x` to the power of `y`
    fn power(&self, x: Self::Scalar, y: Self::Scalar) -> Self::Scalar;

    /// The larger of `x` and `y`
    fn larger(&self, x: Self::Scalar, y: Self::Scalar) -> Self::Scalar;

    /// `-x`
    fn negation(&self, x: Self::Scalar) -> Self::Scalar;

    /// The absolute value of `x`
    fn magnitude(&self, x: Self::Scalar) -> Self::Scalar;

    /// One with the sign of `x`
    fn sign(&self, x: Self::Scalar) -> Self::Scalar;

    /// The square root of `x`
    fn square_root(&self, x: Self::Scalar) -> Self::Scalar;

    /// The cosine of `x` radians
    fn cosine(&self, x: Self::Scalar) -> Self::Scalar;

    /// The sine of `x` radians
    fn sine(&self, x: Self::Scalar) -> Self::Scalar;

    /// `x` with its fraction cut off, as an index
    fn index(&self, x: Self::Scalar) -> usize;

    /// `x > y`
    fn exceeds(&self, x: Self::Scalar, y: Self::Scalar) -> bool;

    /// `x == y`
    fn same(&self, x: Self::Scalar, y: Self::Scalar) -> bool;

    /// How likely each dot of a cell is occupied, given the cell's polarization
    /// components.
    fn polarization_to_dot_probability_distribution(
        &self,
        polarization: &Vec<Self::Scalar>,
    ) -> Vec<Self::Scalar>;

    /// The polarization components of a cell, given how likely each of its dots
    /// is occupied.
    fn dot_probability_distribution_to_polarization(
        &self,
        dots: &Vec<Self::Scalar>,
    ) -> Vec<Self::Scalar>;
}

/// The charge model `n` gives a cell four dots for each polarization component,
/// and finds no more components in a cell than it has fours of dots.
pub open spec fn four_dots_per_component<N: Numerics>(n: N) -> bool {
    &&& forall|p: Vec<N::Scalar>, r: Vec<N::Scalar>| #[trigger]
        call_ensures(N::polarization_to_dot_probability_distribution, (&n, &p), r) ==> r@.len()
            == 4 * p@.len()
    &&& forall|d: Vec<N::Scalar>, r: Vec<N::Scalar>| #[trigger]
        call_ensures(N::dot_probability_distribution_to_polarization, (&n, &d), r) ==> 4 * r@.len()
            <= d@.len()
}

/// Mathematical functions on the numbers `S`, one for each step of a
/// [`Numerics`].
#[verifier::reject_recursive_types(S)]
pub struct Arithmetic<S> {
    pub decimal: spec_fn(Decimal) -> S,
    pub sum: spec_fn(S, S) -> S,
    pub difference: spec_fn(S, S) -> S,
    pub product: spec_fn(S, S) -> S,
    pub quotient: spec_fn(S, S) -> S,
    pub remainder: spec_fn(S, S) -> S,
    pub power: spec_fn(S, S) -> S,
    pub larger: spec_fn(S, S) -> S,
    pub negation: spec_fn(S) -> S,
    pub magnitude: spec_fn(S) -> S,
    pub sign: spec_fn(S) -> S,
    pub square_root: spec_fn(S) -> S,
    pub cosine: spec_fn(S) -> S,
    pub sine: spec_fn(S) -> S,
    pub index: spec_fn(S) -> nat,
    pub exceeds: spec_fn(S, S) -> bool,
    pub same: spec_fn(S, S) -> bool,
    pub distribution: spec_fn(Seq<S>) -> Seq<S>,
    pub polarization: spec_fn(Seq<S>) -> Seq<S>,
}

impl<S: Copy> Arithmetic<S> {
    /// Every step of `n` computes the function that `self` gives for it.
    pub open spec fn describes<N: Numerics<Scalar = S>>(self, n: N) -> bool {
        &&& forall|d: Decimal, r: S| #[trigger]
            call_ensures(N::decimal, (&n, d), r) ==> r == (self.decimal)(d)
        &&& forall|x: S, y: S, r: S| #[trigger]
            call_ensures(N::sum, (&n, x, y), r) ==> r == (self.sum)(x, y)
        &&& forall|x: S, y: S, r: S| #[trigger]
            call_ensures(N::difference, (&n, x, y), r) ==> r == (self.difference)(x, y)
        &&& forall|x: S, y: S, r: S| #[trigger]
            call_ensures(N::product, (&n, x, y), r) ==> r == (self.product)(x, y)
        &&& forall|x: S, y: S, r: S| #[trigger]
            call_ensures(N::quotient, (&n, x, y), r) ==> r == (self.quotient)(x, y)
        &&& forall|x: S, y: S, r: S| #[trigger]
            call_ensures(N::remainder, (&n, x, y), r) ==> r == (self.remainder)(x, y)
        &&& forall|x: S, y: S, r: S| #[trigger]
            call_ensures(N::power, (&n, x, y), r) ==> r == (self.power)(x, y)
        &&& forall|x: S, y: S, r: S| #[trigger]
            call_ensures(N::larger, (&n, x, y), r) ==> r == (self.larger)(x, y)
        &&& forall|x: S, r: S| #[trigger]
            call_ensures(N::negation, (&n, x), r) ==> r == (self.negation)(x)
        &&& forall|x: S, r: S| #[trigger]
            call_ensures(N::magnitude, (&n, x), r) ==> r == (self.magnitude)(x)
        &&& forall|x: S, r: S| #[trigger]
            call_ensures(N::sign, (&n, x), r) ==> r == (self.sign)(x)
        &&& forall|x: S, r: S| #[trigger]
            call_ensures(N::square_root, (&n, x), r) ==> r == (self.square_root)(x)
        &&& forall|x: S, r: S| #[trigger]
            call_ensures(N::cosine, (&n, x), r) ==> r == (self.cosine)(x)
        &&& forall|x: S, r: S| #[trigger]
            call_ensures(N::sine, (&n, x), r) ==> r == (self.sine)(x)
        &&& forall|x: S, r: usize| #[trigger]
            call_ensures(N::index, (&n, x), r) ==> r == (self.index)(x)
        &&& forall|x: S, y: S, r: bool| #[trigger]
            call_ensures(N::exceeds, (&n, x, y), r) ==> r == (self.exceeds)(x, y)
        &&& forall|x: S, y: S, r: bool| #[trigger]
            call_ensures(N::same, (&n, x, y), r) ==> r == (self.same)(x, y)
        &&& forall|p: Vec<S>, r: Vec<S>| #[trigger]
            call_ensures(N::polarization_to_dot_probability_distribution, (&n, &p), r) ==> r@
                == (self.distribution)(p@)
        &&& forall|d: Vec<S>, r: Vec<S>| #[trigger]
            call_ensures(N::dot_probability_distribution_to_polarization, (&n, &d), r) ==> r@
                == (self.polarization)(d@)
    }

    /// The number that stands for `mantissa * 10^exponent`.
    pub open spec fn num(self, mantissa: int, exponent: int) -> S {
        (self.decimal)(Decimal { mantissa: mantissa as i128, exponent: exponent as i32 })
    }

    pub open spec fn zero(self) -> S {
        self.num(0, 0)
    }

    pub open spec fn is_zero(self, x: S) -> bool {
        (self.same)(x, self.zero())
    }

    /// `len` zeros.
    pub open spec fn zeros(self, len: nat) -> Seq<S> {
        Seq::new(len, |i: int| self.zero())
    }
}

/// A copy of `numbers`.
pub fn copy_numbers<S: Copy>(numbers: &Vec<S>) -> (copy: Vec<S>)
    ensures
        copy@ == numbers@,
{
    let mut copy: Vec<S> = Vec::new();
    for i in 0..numbers.len()
        invariant
            copy@ == numbers@.take(i as int),
    {
        copy.push(numbers[i]);
        assert(numbers@.take(i + 1) == numbers@.take(i as int).push(numbers@[i as int]));
    }
    assert(numbers@.take(numbers@.len() as int) == numbers@);
    copy
}

/// A vector of `len` zeros.
pub fn zero_numbers<N: Numerics>(n: &N, len: usize) -> (zeros: Vec<N::Scalar>)
    ensures
        zeros@.len() == len,
        forall|m: Arithmetic<N::Scalar>| #[trigger]
            m.describes(*n) ==> zeros@ == m.zeros(len as nat),
{
    let zero = n.decimal(Decimal::new(0, 0));
    let mut zeros: Vec<N::Scalar> = Vec::new();
    for i in 0..len
        invariant
            zeros@.len() == i,
            forall|j: int| 0 <= j < i ==> zeros@[j] == zero,
    {
        zeros.push(zero);
    }
    zeros
}

} // verus!
