//! Sums of real numbers.

use vstd::prelude::*;

use crate::reals::{times, times_commutes, times_distributes, times_of_one};

verus! {

/// The sum of `f(0)`, `f(1)` and so on, `count` terms in all.
pub open spec fn sum_of(f: spec_fn(int) -> real, count: nat) -> real
    decreases count,
{
    if count == 0 {
        0real
    } else {
        sum_of(f, (count - 1) as nat) + f(count - 1)
    }
}

/// Equal terms have equal sums.
pub proof fn sum_of_equals(f: spec_fn(int) -> real, g: spec_fn(int) -> real, count: nat)
    requires
        forall|i: int| 0 <= i < count ==> #[trigger] f(i) == g(i),
    ensures
        sum_of(f, count) == sum_of(g, count),
    decreases count,
{
    if count > 0 {
        sum_of_equals(f, g, (count - 1) as nat);
        assert(f(count - 1) == g(count - 1));
    }
}

/// Where a single term is not zero, it is the sum.
pub proof fn sum_of_one(f: spec_fn(int) -> real, only: int, count: nat)
    requires
        forall|i: int| 0 <= i < count && i != only ==> #[trigger] f(i) == 0real,
    ensures
        0 <= only < count ==> sum_of(f, count) == f(only),
        !(0 <= only < count) ==> sum_of(f, count) == 0real,
    decreases count,
{
    if count > 0 {
        sum_of_one(f, only, (count - 1) as nat);
        if only != count - 1 {
            assert(f(count - 1) == 0real);
        }
    }
}

/// Turn every term around, and the sum turns around.
pub proof fn sum_of_opposites(f: spec_fn(int) -> real, g: spec_fn(int) -> real, count: nat)
    requires
        forall|i: int| 0 <= i < count ==> #[trigger] g(i) == -f(i),
    ensures
        sum_of(g, count) == -sum_of(f, count),
    decreases count,
{
    if count > 0 {
        sum_of_opposites(f, g, (count - 1) as nat);
        assert(g(count - 1) == -f(count - 1));
    }
}

/// A common factor may be taken out of a sum.
pub proof fn sum_of_products(
    f: spec_fn(int) -> real,
    g: spec_fn(int) -> real,
    factor: real,
    count: nat,
)
    requires
        forall|i: int| 0 <= i < count ==> #[trigger] f(i) == times(g(i), factor),
    ensures
        sum_of(f, count) == times(sum_of(g, count), factor),
    decreases count,
{
    if count == 0 {
        times_of_one(factor);
        times_commutes(0real, factor);
    } else {
        sum_of_products(f, g, factor, (count - 1) as nat);
        assert(f(count - 1) == times(g(count - 1), factor));
        times_distributes(sum_of(g, (count - 1) as nat), g(count - 1), factor);
    }
}

} // verus!
