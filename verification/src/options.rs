//! What a user can set on a simulation model.

use vstd::prelude::*;

use crate::bistable::BistableModel;
use crate::numerics::{Decimal, Numerics};

verus! {

/// How a user enters a value.
#[derive(Debug)]
pub enum InputDescriptor {
    /// As a number within bounds.
    NumberInput {
        min: Option<Decimal>,
        max: Option<Decimal>,
        unit: Option<String>,
        whole_num: bool,
    },
}

/// Something a user can set.
#[derive(Debug)]
pub enum OptionsEntry {
    /// A single value.
    Input {
        unique_id: String,
        name: String,
        description: String,
        descriptor: InputDescriptor,
    },
}

/// All that a user can set.
pub type OptionsList = Vec<OptionsEntry>;

/// The mathematical content of an [`OptionsEntry`].
pub struct OptionView {
    pub unique_id: Seq<char>,
    pub name: Seq<char>,
    pub description: Seq<char>,
    pub min: Option<Decimal>,
    pub max: Option<Decimal>,
    pub unit: Option<Seq<char>>,
    pub whole_num: bool,
}

impl View for OptionsEntry {
    type V = OptionView;

    open spec fn view(&self) -> OptionView {
        match *self {
            OptionsEntry::Input {
                unique_id,
                name,
                description,
                descriptor: InputDescriptor::NumberInput { min, max, unit, whole_num },
            } => OptionView {
                unique_id: unique_id@,
                name: name@,
                description: description@,
                min,
                max,
                unit: match unit {
                    Some(unit) => Some(unit@),
                    None => None,
                },
                whole_num,
            },
        }
    }
}

/// The mathematical content of a list of options.
pub open spec fn option_views(options: Seq<OptionsEntry>) -> Seq<OptionView> {
    Seq::new(options.len(), |i: int| options[i]@)
}

/// The whole number `value`, as a bound.
pub open spec fn at(value: int) -> Option<Decimal> {
    Some(Decimal { mantissa: value as i128, exponent: 0 })
}

/// What a user can set on the bistable model.
pub open spec fn model_options() -> Seq<OptionView> {
    seq![
        OptionView {
            unique_id: "max_iterations"@,
            name: "Maximum iterations"@,
            description:
                "The maximum number of iterations used for simulation convergence check"@,
            min: at(1),
            max: None,
            unit: None,
            whole_num: true,
        },
        OptionView {
            unique_id: "convergence_tolerance"@,
            name: "Convergence tolerance"@,
            description: "Tolerance for simulation convergence check"@,
            min: at(0),
            max: at(1),
            unit: None,
            whole_num: false,
        },
        OptionView {
            unique_id: "neighborhood_radius"@,
            name: "Radius of effect"@,
            description: "Radius of effect for neighbouring cells"@,
            min: at(0),
            max: None,
            unit: Some("nm"@),
            whole_num: false,
        },
        OptionView {
            unique_id: "relative_permitivity"@,
            name: "Relative permitivity"@,
            description: "Relative permitivity of the relative medium"@,
            min: at(0),
            max: None,
            unit: None,
            whole_num: false,
        },
    ]
}

/// What a user can set on the clock generator.
pub open spec fn clock_generator_options() -> Seq<OptionView> {
    seq![
        OptionView {
            unique_id: "num_cycles"@,
            name: "Number of cycles"@,
            description: "The number of repeating clock cycles to run"@,
            min: at(1),
            max: None,
            unit: None,
            whole_num: true,
        },
        OptionView {
            unique_id: "amplitude_min"@,
            name: "Minimum amplitude"@,
            description: "The minimum value of the clock signal"@,
            min: None,
            max: None,
            unit: None,
            whole_num: false,
        },
        OptionView {
            unique_id: "amplitude_max"@,
            name: "Maximum amplitude"@,
            description: "The maximum value of the clock signal"@,
            min: None,
            max: None,
            unit: None,
            whole_num: false,
        },
        OptionView {
            unique_id: "extra_periods"@,
            name: "Extra periods"@,
            description: "Extra clock periods at the end to account for delays"@,
            min: at(0),
            max: None,
            unit: None,
            whole_num: true,
        },
        OptionView {
            unique_id: "samples_per_input"@,
            name: "Samples per input"@,
            description: "Number of samples to be simulated for each input combination"@,
            min: at(1),
            max: None,
            unit: None,
            whole_num: true,
        },
    ]
}

/// A number that a user can set.
fn number_input(
    unique_id: &str,
    name: &str,
    description: &str,
    min: Option<Decimal>,
    max: Option<Decimal>,
    unit: Option<String>,
    whole_num: bool,
) -> (option: OptionsEntry)
    ensures
        option@ == (OptionView {
            unique_id: unique_id@,
            name: name@,
            description: description@,
            min,
            max,
            unit: match unit {
                Some(unit) => Some(unit@),
                None => None,
            },
            whole_num,
        }),
{
    OptionsEntry::Input {
        unique_id: unique_id.to_string(),
        name: name.to_string(),
        description: description.to_string(),
        descriptor: InputDescriptor::NumberInput { min, max, unit, whole_num },
    }
}

impl<N: Numerics> BistableModel<N> {
    /// What a user can set on the bistable model.
    pub fn get_model_options_list(&self) -> (options: OptionsList)
        ensures
            option_views(options@) == model_options(),
    {
        let options = vec![
            number_input(
                "max_iterations",
                "Maximum iterations",
                "The maximum number of iterations used for simulation convergence check",
                Some(Decimal::new(1, 0)),
                None,
                None,
                true,
            ),
            number_input(
                "convergence_tolerance",
                "Convergence tolerance",
                "Tolerance for simulation convergence check",
                Some(Decimal::new(0, 0)),
                Some(Decimal::new(1, 0)),
                None,
                false,
            ),
            number_input(
                "neighborhood_radius",
                "Radius of effect",
                "Radius of effect for neighbouring cells",
                Some(Decimal::new(0, 0)),
                None,
                Some("nm".to_string()),
                false,
            ),
            number_input(
                "relative_permitivity",
                "Relative permitivity",
                "Relative permitivity of the relative medium",
                Some(Decimal::new(0, 0)),
                None,
                None,
                false,
            ),
        ];
        assert(option_views(options@) =~= model_options());
        options
    }

    /// What a user can set on the clock generator.
    pub fn get_clock_generator_options_list(&self) -> (options: OptionsList)
        ensures
            option_views(options@) == clock_generator_options(),
    {
        let options = vec![
            number_input(
                "num_cycles",
                "Number of cycles",
                "The number of repeating clock cycles to run",
                Some(Decimal::new(1, 0)),
                None,
                None,
                true,
            ),
            number_input(
                "amplitude_min",
                "Minimum amplitude",
                "The minimum value of the clock signal",
                None,
                None,
                None,
                false,
            ),
            number_input(
                "amplitude_max",
                "Maximum amplitude",
                "The maximum value of the clock signal",
                None,
                None,
                None,
                false,
            ),
            number_input(
                "extra_periods",
                "Extra periods",
                "Extra clock periods at the end to account for delays",
                Some(Decimal::new(0, 0)),
                None,
                None,
                true,
            ),
            number_input(
                "samples_per_input",
                "Samples per input",
                "Number of samples to be simulated for each input combination",
                Some(Decimal::new(1, 0)),
                None,
                None,
                true,
            ),
        ];
        assert(option_views(options@) =~= clock_generator_options());
        options
    }
}

} // verus!
