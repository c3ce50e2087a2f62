//! The options of a model fit its settings.

use vstd::arithmetic::power::{lemma_pow0, lemma_pow1, pow};
use vstd::prelude::*;

use crate::numerics::{Arithmetic, Decimal};
use crate::options::{clock_generator_options, model_options, OptionView};
use crate::settings::{default_clock_settings, default_model_settings};

verus! {

impl Decimal {
    /// The number is not larger than `other`.
    pub open spec fn at_most(self, other: Decimal) -> bool {
        let shift = if self.exponent <= other.exponent {
            self.exponent as int
        } else {
            other.exponent as int
        };
        self.mantissa * pow(10, (self.exponent - shift) as nat) <= other.mantissa * pow(
            10,
            (other.exponent - shift) as nat,
        )
    }
}

impl<S: Copy> Arithmetic<S> {
    /// A number does not exceed another that stands for as much or more.
    pub open spec fn orders_decimals(self) -> bool {
        forall|a: Decimal, b: Decimal|
            a.at_most(b) ==> !(#[trigger] (self.exceeds)((self.decimal)(a), (self.decimal)(b)))
    }
}

impl OptionView {
    /// The value lies within the bounds of the option.
    pub open spec fn allows<S: Copy>(self, m: Arithmetic<S>, value: S) -> bool {
        &&& self.min matches Some(min) ==> !(m.exceeds)((m.decimal)(min), value)
        &&& self.max matches Some(max) ==> !(m.exceeds)(value, (m.decimal)(max))
    }

    /// The whole number lies within the bounds of the option.
    pub open spec fn allows_count(self, count: int) -> bool {
        let value = Decimal { mantissa: count as i128, exponent: 0 };
        &&& self.min matches Some(min) ==> min.at_most(value)
        &&& self.max matches Some(max) ==> value.at_most(max)
    }
}

/// The default settings lie within the bounds that the options give.
pub proof fn defaults_are_allowed<S: Copy>(m: Arithmetic<S>)
    requires
        m.orders_decimals(),
    ensures
        model_options()[0].allows_count(default_model_settings(m).max_iterations as int),
        model_options()[1].allows(m, default_model_settings(m).convergence_tolerance),
        model_options()[2].allows(m, default_model_settings(m).neighborhood_radius),
        model_options()[3].allows(m, default_model_settings(m).relative_permitivity),
        clock_generator_options()[0].allows_count(default_clock_settings(m).num_cycles as int),
        clock_generator_options()[1].allows(m, default_clock_settings(m).amplitude_min),
        clock_generator_options()[2].allows(m, default_clock_settings(m).amplitude_max),
        clock_generator_options()[3].allows_count(default_clock_settings(m).extra_periods as int),
        clock_generator_options()[4].allows_count(
            default_clock_settings(m).samples_per_input as int,
        ),
{
    let zero = Decimal { mantissa: 0, exponent: 0 };
    let one = Decimal { mantissa: 1, exponent: 0 };
    let tolerance = Decimal { mantissa: 1, exponent: -3i32 };
    let radius = Decimal { mantissa: 90, exponent: 0 };
    let permitivity = Decimal { mantissa: 129, exponent: -1i32 };
    lemma_pow0(10);
    lemma_pow1(10);
    reveal_with_fuel(pow, 4);
    assert(zero.at_most(tolerance) && tolerance.at_most(one));
    assert(zero.at_most(radius));
    assert(zero.at_most(permitivity));
    let iterations = Decimal { mantissa: 1000, exponent: 0 };
    let samples = Decimal { mantissa: 20, exponent: 0 };
    assert(one.at_most(iterations));
    assert(one.at_most(samples));
    assert(default_model_settings(m).max_iterations as i128 == 1000);
    assert(default_clock_settings(m).samples_per_input as i128 == 20);
}

/// No two options of the model, and no two of the clock generator, share an id.
pub proof fn option_ids_differ(i: int, j: int)
    requires
        i != j,
    ensures
        0 <= i < model_options().len() && 0 <= j < model_options().len()
            ==> model_options()[i].unique_id != model_options()[j].unique_id,
        0 <= i < clock_generator_options().len() && 0 <= j < clock_generator_options().len()
            ==> clock_generator_options()[i].unique_id != clock_generator_options()[j].unique_id,
{
    reveal_strlit("max_iterations");
    reveal_strlit("convergence_tolerance");
    reveal_strlit("neighborhood_radius");
    reveal_strlit("relative_permitivity");
    reveal_strlit("num_cycles");
    reveal_strlit("amplitude_min");
    reveal_strlit("amplitude_max");
    reveal_strlit("extra_periods");
    reveal_strlit("samples_per_input");
    let model = model_options();
    assert(model[0].unique_id.len() == 14);
    assert(model[1].unique_id.len() == 21);
    assert(model[2].unique_id.len() == 19);
    assert(model[3].unique_id.len() == 20);
    let clock = clock_generator_options();
    assert(clock[0].unique_id.len() == 10);
    assert(clock[1].unique_id.len() == 13 && clock[1].unique_id[11] == 'i');
    assert(clock[2].unique_id.len() == 13 && clock[2].unique_id[11] == 'a');
    assert(clock[3].unique_id.len() == 13 && clock[3].unique_id[11] == 'd');
    assert(clock[4].unique_id.len() == 17);
    assert(i == 0 || i == 1 || i == 2 || i == 3 || i == 4 || i < 0 || i > 4);
    assert(j == 0 || j == 1 || j == 2 || j == 3 || j == 4 || j < 0 || j > 4);
}

} // verus!
