//! The settings of the bistable model and of its clock generator.

use vstd::prelude::*;

use crate::numerics::{Arithmetic, Decimal, Numerics};

verus! {

/// How the bistable model simulates.
#[derive(Debug)]
pub struct BistableModelSettings<S> {
    pub max_iterations: usize,
    /// How far a dot may move in an iteration that still counts as settled.
    pub convergence_tolerance: S,
    /// How far apart cells still act on each other, in nanometres.
    ///
    /// The default covers axis-aligned and diagonal nearest neighbours on a 60nm
    /// grid (diagonal spacing ~84.85nm) without reaching the next ring of cells
    /// two hops away (120nm). Cells that far would add weaker couplings that fight
    /// the direct neighbour's signal, and drag a cell towards an ambiguous state.
    pub neighborhood_radius: S,
    pub relative_permitivity: S,
}

/// The model settings of a fresh model.
pub open spec fn default_model_settings<S: Copy>(m: Arithmetic<S>) -> BistableModelSettings<S> {
    BistableModelSettings {
        max_iterations: 1000,
        convergence_tolerance: m.num(1, -3),
        neighborhood_radius: m.num(90, 0),
        relative_permitivity: m.num(129, -1),
    }
}

impl<S: Copy> Clone for BistableModelSettings<S> {
    fn clone(&self) -> (copy: Self)
        ensures
            copy == *self,
    {
        *self
    }
}

impl<S: Copy> Copy for BistableModelSettings<S> {

}

impl<S: Copy> BistableModelSettings<S> {
    /// The default settings.
    pub fn new<N: Numerics<Scalar = S>>(n: &N) -> (settings: BistableModelSettings<S>)
        ensures
            settings.max_iterations == 1000,
            forall|m: Arithmetic<S>| #[trigger]
                m.describes(*n) ==> settings == default_model_settings(m),
    {
        BistableModelSettings {
            max_iterations: 1000,
            convergence_tolerance: n.decimal(Decimal::new(1, -3)),
            neighborhood_radius: n.decimal(Decimal::new(90, 0)),
            relative_permitivity: n.decimal(Decimal::new(129, -1)),
        }
    }

    pub fn get_max_iterations(&self) -> usize
        returns
            self.max_iterations,
    {
        self.max_iterations
    }

    pub fn get_convergence_tolerance(&self) -> S
        returns
            self.convergence_tolerance,
    {
        self.convergence_tolerance
    }
}

/// The clock signal that drives a simulation.
///
/// The amplitudes are compared with kink energies, which are Coulomb interaction
/// energies in joules (~1e-19 to 1e-23 for cells of some nanometres).
#[derive(Debug)]
pub struct BistableClockGeneratorSettings<S> {
    pub num_cycles: usize,
    pub amplitude_min: S,
    pub amplitude_max: S,
    pub extra_periods: usize,
    pub samples_per_input: usize,
}

/// The clock settings of a fresh model.
pub open spec fn default_clock_settings<S: Copy>(
    m: Arithmetic<S>,
) -> BistableClockGeneratorSettings<S> {
    BistableClockGeneratorSettings {
        num_cycles: 1,
        amplitude_min: m.num(1, -25),
        amplitude_max: m.num(1, -19),
        extra_periods: 0,
        samples_per_input: 20,
    }
}

impl<S: Copy> Clone for BistableClockGeneratorSettings<S> {
    fn clone(&self) -> (copy: Self)
        ensures
            copy == *self,
    {
        *self
    }
}

impl<S: Copy> Copy for BistableClockGeneratorSettings<S> {

}

impl<S: Copy> BistableClockGeneratorSettings<S> {
    /// The default settings.
    pub fn new<N: Numerics<Scalar = S>>(n: &N) -> (settings: BistableClockGeneratorSettings<S>)
        ensures
            settings.num_cycles == 1,
            settings.extra_periods == 0,
            settings.samples_per_input == 20,
            forall|m: Arithmetic<S>| #[trigger]
                m.describes(*n) ==> settings == default_clock_settings(m),
    {
        BistableClockGeneratorSettings {
            num_cycles: 1,
            amplitude_min: n.decimal(Decimal::new(1, -25)),
            amplitude_max: n.decimal(Decimal::new(1, -19)),
            extra_periods: 0,
            samples_per_input: 20,
        }
    }

    pub fn get_num_cycles(&self) -> usize
        returns
            self.num_cycles,
    {
        self.num_cycles
    }

    pub fn get_amplitude_min(&self) -> S
        returns
            self.amplitude_min,
    {
        self.amplitude_min
    }

    pub fn get_amplitude_max(&self) -> S
        returns
            self.amplitude_max,
    {
        self.amplitude_max
    }

    pub fn get_extra_periods(&self) -> usize
        returns
            self.extra_periods,
    {
        self.extra_periods
    }

    pub fn get_samples_per_input(&self) -> usize
        returns
            self.samples_per_input,
    {
        self.samples_per_input
    }
}

/// A text format for settings.
///
/// No method promises anything: whatever is proved holds for every format.
pub trait SettingsFormat<S: Copy> {
    /// The text for these model settings, or why there is none.
    fn write_model_settings(&self, settings: &BistableModelSettings<S>) -> Result<String, String>;

    /// The model settings that a text stands for, or why it stands for none.
    fn read_model_settings(&self, text: &String) -> Result<BistableModelSettings<S>, String>;

    /// The text for these clock settings, or why there is none.
    fn write_clock_generator_settings(
        &self,
        settings: &BistableClockGeneratorSettings<S>,
    ) -> Result<String, String>;

    /// The clock settings that a text stands for, or why it stands for none.
    fn read_clock_generator_settings(
        &self,
        text: &String,
    ) -> Result<BistableClockGeneratorSettings<S>, String>;
}

} // verus!
