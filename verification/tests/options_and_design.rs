use qca_bistable::bistable::BistableModel;
use qca_bistable::cell_map::CellMap;
use qca_bistable::design::{
    QCADesign, QCADesignFile, SimulationModelSettings, SimulationSettings, DESIGN_FILE_EXTENSION,
};
use qca_bistable::numerics::{Decimal, Numerics};
use qca_bistable::objects::{QCACellArchitecture, QCACellIndex};
use qca_bistable::options::{InputDescriptor, OptionsEntry};
use std::collections::HashMap;

/// Numbers that do not matter here.
struct Nothing;

impl Numerics for Nothing {
    type Scalar = ();

    fn decimal(&self, _: Decimal) {}
    fn sum(&self, _: (), _: ()) {}
    fn difference(&self, _: (), _: ()) {}
    fn product(&self, _: (), _: ()) {}
    fn quotient(&self, _: (), _: ()) {}
    fn remainder(&self, _: (), _: ()) {}
    fn power(&self, _: (), _: ()) {}
    fn larger(&self, _: (), _: ()) {}
    fn negation(&self, _: ()) {}
    fn magnitude(&self, _: ()) {}
    fn sign(&self, _: ()) {}
    fn square_root(&self, _: ()) {}
    fn cosine(&self, _: ()) {}
    fn sine(&self, _: ()) {}
    fn index(&self, _: ()) -> usize {
        0
    }
    fn exceeds(&self, _: (), _: ()) -> bool {
        false
    }
    fn same(&self, _: (), _: ()) -> bool {
        true
    }
    fn polarization_to_dot_probability_distribution(&self, polarization: &Vec<()>) -> Vec<()> {
        vec![(); 4 * polarization.len()]
    }
    fn dot_probability_distribution_to_polarization(&self, dots: &Vec<()>) -> Vec<()> {
        vec![(); dots.len() / 4]
    }
}

fn whole(value: i128) -> Option<Decimal> {
    Some(Decimal::new(value, 0))
}

type Row = (String, String, String, Option<Decimal>, Option<Decimal>, Option<String>, bool);

fn rows(options: Vec<OptionsEntry>) -> Vec<Row> {
    options
        .into_iter()
        .map(|option| match option {
            OptionsEntry::Input {
                unique_id,
                name,
                description,
                descriptor: InputDescriptor::NumberInput { min, max, unit, whole_num },
            } => (unique_id, name, description, min, max, unit, whole_num),
        })
        .collect()
}

fn row(
    id: &str,
    name: &str,
    description: &str,
    min: Option<Decimal>,
    max: Option<Decimal>,
    unit: Option<&str>,
    whole_num: bool,
) -> Row {
    (
        id.to_string(),
        name.to_string(),
        description.to_string(),
        min,
        max,
        unit.map(|u| u.to_string()),
        whole_num,
    )
}

#[test]
fn model_options_are_listed() {
    let model = BistableModel::new(Nothing);
    assert_eq!(
        rows(model.get_model_options_list()),
        vec![
            row(
                "max_iterations",
                "Maximum iterations",
                "The maximum number of iterations used for simulation convergence check",
                whole(1),
                None,
                None,
                true
            ),
            row(
                "convergence_tolerance",
                "Convergence tolerance",
                "Tolerance for simulation convergence check",
                whole(0),
                whole(1),
                None,
                false
            ),
            row(
                "neighborhood_radius",
                "Radius of effect",
                "Radius of effect for neighbouring cells",
                whole(0),
                None,
                Some("nm"),
                false
            ),
            row(
                "relative_permitivity",
                "Relative permitivity",
                "Relative permitivity of the relative medium",
                whole(0),
                None,
                None,
                false
            ),
        ]
    );
}

#[test]
fn clock_options_are_listed() {
    let model = BistableModel::new(Nothing);
    assert_eq!(
        rows(model.get_clock_generator_options_list()),
        vec![
            row(
                "num_cycles",
                "Number of cycles",
                "The number of repeating clock cycles to run",
                whole(1),
                None,
                None,
                true
            ),
            row(
                "amplitude_min",
                "Minimum amplitude",
                "The minimum value of the clock signal",
                None,
                None,
                None,
                false
            ),
            row(
                "amplitude_max",
                "Maximum amplitude",
                "The maximum value of the clock signal",
                None,
                None,
                None,
                false
            ),
            row(
                "extra_periods",
                "Extra periods",
                "Extra clock periods at the end to account for delays",
                whole(0),
                None,
                None,
                true
            ),
            row(
                "samples_per_input",
                "Samples per input",
                "Number of samples to be simulated for each input combination",
                whole(1),
                None,
                None,
                true
            ),
        ]
    );
}

#[test]
fn option_ids_are_unique() {
    let model = BistableModel::new(Nothing);
    for options in [model.get_model_options_list(), model.get_clock_generator_options_list()] {
        let ids: Vec<String> = rows(options).into_iter().map(|r| r.0).collect();
        for (i, id) in ids.iter().enumerate() {
            assert!(!ids[i + 1..].contains(id));
        }
    }
}

#[test]
fn fresh_simulation_settings() {
    let settings = SimulationSettings::new();
    assert_eq!(settings.selected_simulation_model_id, None);
    assert!(settings.simulation_model_settings.is_empty());
    assert!(!settings.use_custom_input_sequence);
    assert!(settings.custom_input_sequence.is_empty());
}

#[test]
fn design_file_carries_model_settings() {
    let mut settings = SimulationSettings::new();
    settings.simulation_model_settings.insert(
        "bistable".to_string(),
        SimulationModelSettings {
            model_settings: serde_json::from_str("{\"max_iterations\":3}").unwrap(),
            clock_generator_settings: serde_json::Value::Null,
        },
    );
    let architectures: HashMap<String, QCACellArchitecture<()>> = HashMap::new();
    let file = QCADesignFile {
        design: QCADesign {
            qca_core_version: "unknown".to_string(),
            layers: vec![],
            cell_architectures: architectures,
            simulation_settings: settings,
        },
    };
    let kept = &file.design.simulation_settings.simulation_model_settings["bistable"];
    assert_eq!(kept.model_settings["max_iterations"], 3);
    assert!(kept.clock_generator_settings.is_null());
    assert_eq!(DESIGN_FILE_EXTENSION, "qcd");
}

#[test]
fn cell_map_keeps_indices_apart_and_in_order() {
    let far = usize::MAX;
    let mut map: CellMap<usize> = CellMap::new();
    map.insert(QCACellIndex::new(1, 0), 10);
    map.insert(QCACellIndex::new(0, far), 20);
    map.insert(QCACellIndex::new(far, far), 30);
    map.insert(QCACellIndex::new(1, 0), 11);
    assert_eq!(map.len(), 3);
    assert_eq!(map.index_at(0), QCACellIndex::new(1, 0));
    assert_eq!(map.index_at(1), QCACellIndex::new(0, far));
    assert_eq!(map.index_at(2), QCACellIndex::new(far, far));
    assert_eq!(map.get(QCACellIndex::new(1, 0)), Some(&11));
    assert_eq!(map.get(QCACellIndex::new(0, far)), Some(&20));
    assert_eq!(map.get(QCACellIndex::new(far, far)), Some(&30));
    assert_eq!(map.get(QCACellIndex::new(0, 1)), None);
}
