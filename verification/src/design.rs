//! What a design file holds.

use serde_json::Value;
use std::collections::HashMap;
use vstd::prelude::*;

use crate::objects::{QCACellArchitecture, QCALayer};

verus! {

/// How the name of a design file ends.
pub const DESIGN_FILE_EXTENSION: &'static str = "qcd";

/// The JSON value of `serde_json`. Nothing is claimed of it: it is only carried.
#[verifier::external_type_specification]
#[verifier::external_body]
pub struct ExValue(Value);

/// The settings of one simulation model, as the model wrote them.
#[derive(Debug)]
pub struct SimulationModelSettings {
    pub model_settings: Value,
    pub clock_generator_settings: Value,
}

/// How a design is simulated.
#[derive(Debug)]
pub struct SimulationSettings {
    pub selected_simulation_model_id: Option<String>,
    pub simulation_model_settings: HashMap<String, SimulationModelSettings>,
    /// Whether the simulation steps through `custom_input_sequence`, in order,
    /// instead of through every input combination. This is kept apart from the
    /// sequence, so that switching it off does not discard what the user built.
    pub use_custom_input_sequence: bool,
    /// The input vectors to simulate: for each input, in input order, the index of
    /// its state. The same vector may come more than once, for a cell that holds
    /// state between samples can answer it differently the second time.
    pub custom_input_sequence: Vec<Vec<usize>>,
}

impl SimulationSettings {
    /// No model selected, no model settings, and every input combination.
    pub fn new() -> (settings: SimulationSettings)
        ensures
            settings.selected_simulation_model_id is None,
            settings.simulation_model_settings@ == Map::<String, SimulationModelSettings>::empty(),
            !settings.use_custom_input_sequence,
            settings.custom_input_sequence@ == Seq::<Vec<usize>>::empty(),
    {
        SimulationSettings {
            selected_simulation_model_id: None,
            simulation_model_settings: HashMap::new(),
            use_custom_input_sequence: false,
            custom_input_sequence: Vec::new(),
        }
    }
}

/// A design: its cells, their architectures, and how it is simulated.
#[derive(Debug)]
pub struct QCADesign<S> {
    pub qca_core_version: String,
    pub layers: Vec<QCALayer<S>>,
    pub cell_architectures: HashMap<String, QCACellArchitecture<S>>,
    pub simulation_settings: SimulationSettings,
}

/// A design file.
#[derive(Debug)]
pub struct QCADesignFile<S> {
    pub design: QCADesign<S>,
}

} // verus!
