use qca_bistable::bistable::BistableModel;
use qca_bistable::numerics::{Decimal, Numerics};
use qca_bistable::objects::{
    ArchitectureMap, CellType, QCACell, QCACellArchitecture, QCACellIndex, QCALayer,
};
use qca_bistable::options::{InputDescriptor, OptionsEntry};
use qca_bistable::settings::{
    BistableClockGeneratorSettings, BistableModelSettings, SettingsFormat,
};

/// Double precision numbers, and cells whose dots take turns in fours.
struct Float;

impl Numerics for Float {
    type Scalar = f64;

    fn decimal(&self, value: Decimal) -> f64 {
        format!("{}e{}", value.mantissa, value.exponent).parse().unwrap()
    }
    fn sum(&self, x: f64, y: f64) -> f64 {
        x + y
    }
    fn difference(&self, x: f64, y: f64) -> f64 {
        x - y
    }
    fn product(&self, x: f64, y: f64) -> f64 {
        x * y
    }
    fn quotient(&self, x: f64, y: f64) -> f64 {
        x / y
    }
    fn remainder(&self, x: f64, y: f64) -> f64 {
        x.rem_euclid(y)
    }
    fn power(&self, x: f64, y: f64) -> f64 {
        x.powf(y)
    }
    fn larger(&self, x: f64, y: f64) -> f64 {
        f64::max(x, y)
    }
    fn negation(&self, x: f64) -> f64 {
        -x
    }
    fn magnitude(&self, x: f64) -> f64 {
        x.abs()
    }
    fn sign(&self, x: f64) -> f64 {
        x.signum()
    }
    fn square_root(&self, x: f64) -> f64 {
        x.sqrt()
    }
    fn cosine(&self, x: f64) -> f64 {
        x.cos()
    }
    fn sine(&self, x: f64) -> f64 {
        x.sin()
    }
    fn index(&self, x: f64) -> usize {
        x as usize
    }
    fn exceeds(&self, x: f64, y: f64) -> bool {
        x > y
    }
    fn same(&self, x: f64, y: f64) -> bool {
        x == y
    }
    fn polarization_to_dot_probability_distribution(&self, polarization: &Vec<f64>) -> Vec<f64> {
        let mut dots = Vec::new();
        for p in polarization {
            dots.extend([(1.0 + p) / 2.0, (1.0 - p) / 2.0, (1.0 + p) / 2.0, (1.0 - p) / 2.0]);
        }
        dots
    }
    fn dot_probability_distribution_to_polarization(&self, dots: &Vec<f64>) -> Vec<f64> {
        dots.chunks_exact(4).map(|d| (d[0] + d[2] - d[1] - d[3]) / 2.0).collect()
    }
}

fn four_dots() -> QCACellArchitecture<f64> {
    QCACellArchitecture {
        dot_count: 4,
        dot_positions: vec![[-10.0, -10.0], [10.0, -10.0], [10.0, 10.0], [-10.0, 10.0]],
    }
}

fn eight_dots() -> QCACellArchitecture<f64> {
    let mut architecture = four_dots();
    architecture.dot_count = 8;
    architecture.dot_positions.extend([[0.0, -15.0], [15.0, 0.0], [0.0, 15.0], [-15.0, 0.0]]);
    architecture
}

fn architectures() -> ArchitectureMap<f64> {
    let mut map = ArchitectureMap::new();
    map.insert("four".to_string(), eight_dots());
    map.insert("four".to_string(), four_dots());
    map.insert("eight".to_string(), eight_dots());
    map
}

fn cell(typ: CellType, x: f64, y: f64, dots: Vec<f64>) -> QCACell<f64> {
    QCACell {
        position: [x, y],
        rotation: 0.0,
        typ,
        clock_phase_shift: 0.0,
        dot_probability_distribution: dots,
    }
}

fn unpolarized(typ: CellType, x: f64, y: f64) -> QCACell<f64> {
    cell(typ, x, y, vec![0.5; 4])
}

fn layer(id: &str, cells: Vec<QCACell<f64>>) -> QCALayer<f64> {
    QCALayer { cell_architecture_id: id.to_string(), cells }
}

fn at(layer: usize, cell: usize) -> QCACellIndex {
    QCACellIndex::new(layer, cell)
}

fn model_of(layers: Vec<QCALayer<f64>>) -> BistableModel<Float> {
    let mut model = BistableModel::new(Float);
    assert!(model.initiate(Box::new(layers), architectures()));
    model
}

/// An input, a cell next to it, and a cell next to that.
fn wire() -> BistableModel<Float> {
    model_of(vec![layer(
        "four",
        vec![
            unpolarized(CellType::Input, 0.0, 0.0),
            unpolarized(CellType::Normal, 60.0, 0.0),
            unpolarized(CellType::Output, 120.0, 0.0),
        ],
    )])
}

#[test]
fn decimals_are_read_as_literals() {
    assert_eq!(Float.decimal(Decimal::new(1_602_176_634, -28)), 1.602_176_634e-19);
    assert_eq!(
        Float.decimal(Decimal::new(111_265_005_597_565_794_635_320_037_482, -39)),
        1.11265005597565794635320037482e-10
    );
    assert_eq!(Float.decimal(Decimal::new(129, -1)), 12.9);
}

#[test]
fn distance_of_centres() {
    let a = unpolarized(CellType::Normal, 0.0, 1.0);
    let b = unpolarized(CellType::Normal, 3.0, 5.0);
    assert_eq!(BistableModel::cell_distance(&Float, &a, &b), 5.0);
    assert_eq!(BistableModel::cell_distance(&Float, &b, &a), 5.0);
    assert_eq!(BistableModel::dot_distance(&Float, &[1.0, 1.0], &[1.0, 3.5]), 2.5);
}

#[test]
fn dot_positions_follow_the_rotation() {
    let mut turned = unpolarized(CellType::Normal, 5.0, 7.0);
    assert_eq!(
        BistableModel::get_dot_position(&Float, 1, &turned, &four_dots()),
        [15.0, -3.0]
    );
    turned.rotation = std::f64::consts::FRAC_PI_2;
    assert_eq!(
        BistableModel::get_dot_position(&Float, 1, &turned, &four_dots()),
        [15.0, 17.0]
    );
}

#[test]
fn kink_energy_of_classic_cells() {
    let a = unpolarized(CellType::Normal, 0.0, 0.0);
    let b = unpolarized(CellType::Normal, 60.0, 0.0);
    let arch = four_dots();
    assert_eq!(
        BistableModel::determine_kink_energy(&Float, &a, &arch, 0, &b, &arch, 0, 12.9),
        -4.657013955922899e-23
    );
}

#[test]
fn kink_energy_of_like_components_is_levelled() {
    let a = unpolarized(CellType::Normal, 0.0, 0.0);
    let b = unpolarized(CellType::Normal, 60.0, 20.0);
    let arch = eight_dots();
    let kink = |k: usize, l: usize| {
        BistableModel::determine_kink_energy(&Float, &a, &arch, k, &b, &arch, l, 12.9)
    };
    assert_eq!(kink(0, 0), -1.8657881350673974e-23);
    assert_eq!(kink(1, 1), 1.8657881350673974e-23);
    assert_eq!(kink(0, 1), 4.381297937566732e-23);
    assert_eq!(kink(1, 0), 4.3812979375667254e-23);
    assert_eq!(
        BistableModel::couplings(&Float, &a, &arch, &b, &arch, 12.9),
        vec![vec![kink(0, 0), kink(0, 1)], vec![kink(1, 0), kink(1, 1)]]
    );
}

#[test]
fn kink_energy_is_the_same_from_either_cell() {
    let a = unpolarized(CellType::Normal, 0.0, 0.0);
    let b = unpolarized(CellType::Normal, 60.0, 20.0);
    let arch = eight_dots();
    for k in 0..2 {
        for l in 0..2 {
            let ab = BistableModel::determine_kink_energy(&Float, &a, &arch, k, &b, &arch, l, 12.9);
            let ba = BistableModel::determine_kink_energy(&Float, &b, &arch, l, &a, &arch, k, 12.9);
            assert!((ab - ba).abs() <= 1e-14 * ab.abs());
        }
    }
}

#[test]
fn kink_energy_between_architectures() {
    let a = unpolarized(CellType::Normal, 0.0, 0.0);
    let b = unpolarized(CellType::Normal, 60.0, 0.0);
    // The four dots come first in the larger architecture, so the shared component
    // is the one of the classic cell.
    assert_eq!(
        BistableModel::determine_kink_energy(
            &Float,
            &a,
            &four_dots(),
            0,
            &b,
            &eight_dots(),
            0,
            12.9
        ),
        -4.657013955922899e-23
    );
}

#[test]
fn cell_commits_to_the_strongest_component() {
    assert_eq!(
        BistableModel::respond(&Float, &vec![3.0, -4.0], 1.0),
        vec![0.0, -0.9615239476408232]
    );
    assert_eq!(
        BistableModel::respond(&Float, &vec![5.0, -4.0], 1.0),
        vec![4.5 / f64::sqrt(1.0 + 4.5 * 4.5), 0.0]
    );
}

#[test]
fn last_of_equally_strong_components_wins() {
    assert_eq!(
        BistableModel::respond(&Float, &vec![3.0, -3.0], 0.5),
        vec![0.0, -0.9863939238321437]
    );
    assert_eq!(BistableModel::dominant_component(&Float, &vec![1.0, -7.0, 7.0, 3.0]), 2);
    assert_eq!(BistableModel::dominant_component(&Float, &vec![-8.0, -7.0, 7.0, 3.0]), 0);
    assert_eq!(BistableModel::dominant_component(&Float, &vec![0.0]), 0);
}

#[test]
fn saturation_has_three_ranges() {
    assert_eq!(BistableModel::saturate(&Float, 4000.0), 1.0 - 1e-9);
    assert_eq!(BistableModel::saturate(&Float, 0.0005), 0.0005);
    assert_eq!(BistableModel::saturate(&Float, 1000.0), 1000.0 / f64::sqrt(1_000_001.0));
    assert_eq!(BistableModel::saturate(&Float, 1.0), 1.0 / f64::sqrt(2.0));
}

#[test]
fn no_field_leaves_a_cell_unpolarized() {
    assert_eq!(BistableModel::respond(&Float, &vec![0.0, 0.0], 1.0), vec![0.0, 0.0]);
    assert_eq!(BistableModel::respond(&Float, &vec![], 1.0), Vec::<f64>::new());
    assert_eq!(BistableModel::respond(&Float, &vec![f64::NAN, 1.0], 1.0), vec![0.0, 0.0]);
}

#[test]
fn settled_within_the_tolerance() {
    let settled = |before: f64, after: f64| {
        BistableModel::settled(&Float, &vec![0.5, before], &vec![0.5, after], 0.25)
    };
    assert!(settled(0.5, 0.75));
    assert!(settled(0.5, 0.25));
    assert!(!settled(0.5, 0.8));
    assert!(!settled(0.5, 0.2));
}

#[test]
fn fresh_model_has_the_default_settings() {
    let model = BistableModel::new(Float);
    let settings = model.get_model_settings();
    assert_eq!(settings.get_max_iterations(), 1000);
    assert_eq!(settings.get_convergence_tolerance(), 1e-3);
    assert_eq!(settings.neighborhood_radius, 90.0);
    assert_eq!(settings.relative_permitivity, 12.9);
    let clock = model.get_clock_generator_settings();
    assert_eq!(clock.get_num_cycles(), 1);
    assert_eq!(clock.get_amplitude_min(), 1e-25);
    assert_eq!(clock.get_amplitude_max(), 1e-19);
    assert_eq!(clock.get_extra_periods(), 0);
    assert_eq!(clock.get_samples_per_input(), 20);
    assert_eq!(model.get_name(), "Bistable");
    assert_eq!(model.get_unique_id(), "bistable");
}

#[test]
fn default_settings_are_within_the_bounds_of_the_options() {
    let model = BistableModel::new(Float);
    let settings = model.get_model_settings();
    let clock = model.get_clock_generator_settings();
    let values = [
        settings.max_iterations as f64,
        settings.convergence_tolerance,
        settings.neighborhood_radius,
        settings.relative_permitivity,
        clock.num_cycles as f64,
        clock.amplitude_min,
        clock.amplitude_max,
        clock.extra_periods as f64,
        clock.samples_per_input as f64,
    ];
    let mut options = model.get_model_options_list();
    options.extend(model.get_clock_generator_options_list());
    assert_eq!(options.len(), values.len());
    for (option, value) in options.iter().zip(values) {
        let OptionsEntry::Input {
            descriptor: InputDescriptor::NumberInput { min, max, .. },
            ..
        } = option;
        assert!(min.is_none_or(|min| Float.decimal(min) <= value));
        assert!(max.is_none_or(|max| value <= Float.decimal(max)));
    }
}

#[test]
fn fresh_model_has_no_cells() {
    let mut model = BistableModel::new(Float);
    assert!(!model.has_cell(at(0, 0)));
    assert_eq!(model.calculate(at(0, 0)), Some(true));
}

#[test]
fn input_drives_its_neighbour() {
    let mut model = wire();
    model.pre_calculate(&[1e-21, 1.0, 1.0, 1.0], &vec![1.0]);
    assert_eq!(model.get_states(&at(0, 0)), vec![1.0, 0.0, 1.0, 0.0]);
    assert_eq!(model.effective_field(at(0, 1)), vec![-4.657013955922899e-23]);
    assert_eq!(model.calculate(at(0, 1)), Some(false));
    assert_eq!(
        model.get_states(&at(0, 1)),
        vec![0.48836062008633674, 0.5116393799136633, 0.48836062008633674, 0.5116393799136633]
    );
}

#[test]
fn weak_pull_is_stable() {
    let mut model = wire();
    model.pre_calculate(&[1e-19, 1.0, 1.0, 1.0], &vec![1.0]);
    assert_eq!(model.calculate(at(0, 1)), Some(true));
    assert_eq!(
        model.get_states(&at(0, 1)),
        vec![0.49988357465110195, 0.5001164253488981, 0.49988357465110195, 0.5001164253488981]
    );
}

#[test]
fn cells_that_hold_their_state_are_stable() {
    let mut model = wire();
    model.pre_calculate(&[1e-25; 4], &vec![1.0]);
    assert_eq!(model.calculate(at(0, 0)), Some(true));
    assert_eq!(model.calculate(at(7, 7)), Some(true));
    assert_eq!(model.get_states(&at(0, 0)), vec![1.0, 0.0, 1.0, 0.0]);
}

#[test]
fn signal_takes_an_iteration_per_cell() {
    let mut model = wire();
    model.pre_calculate(&[1e-25; 4], &vec![1.0]);
    assert_eq!(model.calculate(at(0, 1)), Some(false));
    // What this iteration wrote is not read before the next one.
    assert_eq!(model.effective_field(at(0, 2)), vec![0.0]);
    assert_eq!(model.calculate(at(0, 2)), Some(true));
    assert_eq!(model.get_states(&at(0, 2)), vec![0.5; 4]);
    let written = model.get_states(&at(0, 1));
    model.pre_calculate(&[1e-25; 4], &vec![1.0]);
    assert_eq!(model.get_states(&at(0, 1)), written);
    assert!(model.effective_field(at(0, 2))[0] > 0.0);
    assert_eq!(model.calculate(at(0, 2)), Some(false));
}

#[test]
fn cells_may_be_calculated_in_any_order() {
    let mut forwards = wire();
    let mut backwards = wire();
    for _ in 0..3 {
        forwards.pre_calculate(&[1e-22; 4], &vec![-1.0]);
        backwards.pre_calculate(&[1e-22; 4], &vec![-1.0]);
        let first = forwards.calculate(at(0, 1));
        let second = forwards.calculate(at(0, 2));
        assert_eq!(backwards.calculate(at(0, 2)), second);
        assert_eq!(backwards.calculate(at(0, 1)), first);
    }
    for c in 0..3 {
        assert_eq!(forwards.get_states(&at(0, c)), backwards.get_states(&at(0, c)));
    }
}

#[test]
fn second_calculation_in_an_iteration_changes_nothing() {
    let mut model = wire();
    model.pre_calculate(&[1e-22; 4], &vec![1.0]);
    assert_eq!(model.calculate(at(0, 1)), Some(false));
    let dots = model.get_states(&at(0, 1));
    assert_eq!(model.calculate(at(0, 1)), Some(true));
    assert_eq!(model.get_states(&at(0, 1)), dots);
}

#[test]
fn starting_over_changes_nothing() {
    let mut model = wire();
    model.pre_calculate(&[1e-22; 4], &vec![1.0]);
    model.calculate(at(0, 1));
    model.pre_calculate(&[1e-22; 4], &vec![1.0]);
    let field = model.effective_field(at(0, 2));
    model.pre_calculate(&[1e-22; 4], &vec![1.0]);
    assert_eq!(model.effective_field(at(0, 2)), field);
}

#[test]
fn phase_shift_chooses_the_clock() {
    for (phase, strong) in [(0.0, 0), (89.0, 0), (90.0, 1), (180.0, 2), (270.0, 3), (-90.0, 3), (450.0, 1)] {
        let mut follower = unpolarized(CellType::Normal, 60.0, 0.0);
        follower.clock_phase_shift = phase;
        let mut model = model_of(vec![layer(
            "four",
            vec![unpolarized(CellType::Input, 0.0, 0.0), follower],
        )]);
        let mut clock = [1.0; 4];
        clock[strong] = 1e-25;
        model.pre_calculate(&clock, &vec![1.0]);
        assert_eq!(model.calculate(at(0, 1)), Some(false));
        assert_eq!(
            model.get_states(&at(0, 1)),
            vec![4.610827914641735e-06, 0.9999953891720854, 4.610827914641735e-06, 0.9999953891720854]
        );
    }
}

#[test]
fn phase_shift_past_the_clocks_has_no_answer() {
    let mut follower = unpolarized(CellType::Normal, 60.0, 0.0);
    follower.clock_phase_shift = -1e-20;
    let mut model = model_of(vec![layer(
        "four",
        vec![unpolarized(CellType::Input, 0.0, 0.0), follower],
    )]);
    model.pre_calculate(&[1e-25; 4], &vec![1.0]);
    assert_eq!(model.calculate(at(0, 1)), None);
    assert_eq!(model.get_states(&at(0, 1)), vec![0.5; 4]);
}

#[test]
fn radius_covers_nearest_neighbours_only() {
    for (x, y, near) in [(60.0, 0.0, true), (60.0, 60.0, true), (90.0, 0.0, true), (120.0, 0.0, false)] {
        let mut model = model_of(vec![layer(
            "four",
            vec![
                cell(CellType::Fixed, 0.0, 0.0, vec![1.0, 0.0, 1.0, 0.0]),
                unpolarized(CellType::Normal, x, y),
            ],
        )]);
        model.pre_calculate(&[1e-25; 4], &vec![]);
        assert_eq!(model.effective_field(at(0, 1))[0] != 0.0, near);
        assert_eq!(model.effective_field(at(0, 0))[0], 0.0);
    }
}

#[test]
fn neighbours_see_each_other() {
    let model = model_of(vec![
        layer("four", vec![cell(CellType::Normal, 0.0, 0.0, vec![1.0, 0.0, 1.0, 0.0])]),
        layer("four", vec![cell(CellType::Normal, 60.0, 0.0, vec![1.0, 0.0, 1.0, 0.0])]),
        layer("four", vec![cell(CellType::Normal, 200.0, 0.0, vec![1.0, 0.0, 1.0, 0.0])]),
    ]);
    assert_eq!(model.effective_field(at(0, 0)), vec![-4.657013955922899e-23]);
    assert_eq!(model.effective_field(at(1, 0)), vec![-4.657013955922899e-23]);
    assert_eq!(model.effective_field(at(2, 0)), vec![0.0]);
}

#[test]
fn neighbours_add_up() {
    let model = model_of(vec![layer(
        "four",
        vec![
            cell(CellType::Normal, 0.0, 0.0, vec![0.5; 4]),
            cell(CellType::Fixed, 60.0, 0.0, vec![1.0, 0.0, 1.0, 0.0]),
            cell(CellType::Fixed, -60.0, 0.0, vec![0.0, 1.0, 0.0, 1.0]),
        ],
    )]);
    assert_eq!(model.effective_field(at(0, 0)), vec![0.0]);
}

#[test]
fn every_cell_is_taken_over_once() {
    let model = wire();
    for c in 0..3 {
        assert!(model.has_cell(at(0, c)));
        assert_eq!(model.get_states(&at(0, c)), vec![0.5; 4]);
    }
    assert!(!model.has_cell(at(0, 3)));
    assert!(!model.has_cell(at(1, 0)));
}

#[test]
fn inputs_are_numbered_layer_by_layer() {
    let mut model = model_of(vec![
        layer(
            "four",
            vec![
                unpolarized(CellType::Normal, 0.0, 0.0),
                unpolarized(CellType::Input, 500.0, 0.0),
                cell(CellType::Fixed, 1000.0, 0.0, vec![0.25; 4]),
                unpolarized(CellType::Input, 1500.0, 0.0),
            ],
        ),
        layer("missing", vec![]),
        layer("four", vec![unpolarized(CellType::Input, 0.0, 500.0)]),
    ]);
    assert!(!model.accepts_inputs(&vec![1.0, 0.0]));
    assert!(model.accepts_inputs(&vec![1.0, 0.0, -1.0]));
    model.pre_calculate(&[1.0; 4], &vec![1.0, 0.0, -1.0]);
    assert_eq!(model.get_states(&at(0, 1)), vec![1.0, 0.0, 1.0, 0.0]);
    assert_eq!(model.get_states(&at(0, 2)), vec![0.25; 4]);
    assert_eq!(model.get_states(&at(0, 3)), vec![0.5; 4]);
    assert_eq!(model.get_states(&at(2, 0)), vec![0.0, 1.0, 0.0, 1.0]);
}

#[test]
fn input_takes_one_state_per_component() {
    let mut model = model_of(vec![layer(
        "eight",
        vec![
            cell(CellType::Input, 0.0, 0.0, vec![0.5; 8]),
            cell(CellType::Input, 500.0, 0.0, vec![0.5; 8]),
        ],
    )]);
    assert!(!model.accepts_inputs(&vec![1.0, 0.0, 0.0]));
    model.pre_calculate(&[1.0; 4], &vec![1.0, 0.0, 0.0, -1.0]);
    assert_eq!(model.get_states(&at(0, 0)), vec![1.0, 0.0, 1.0, 0.0, 0.5, 0.5, 0.5, 0.5]);
    assert_eq!(model.get_states(&at(0, 1)), vec![0.5, 0.5, 0.5, 0.5, 0.0, 1.0, 0.0, 1.0]);
}

#[test]
fn new_design_replaces_the_old_one() {
    let mut model = wire();
    model.pre_calculate(&[1e-25; 4], &vec![1.0]);
    model.calculate(at(0, 1));
    let layers = vec![layer("four", vec![unpolarized(CellType::Normal, 0.0, 0.0)])];
    assert!(model.initiate(Box::new(layers), architectures()));
    assert!(model.has_cell(at(0, 0)));
    assert!(!model.has_cell(at(0, 1)));
    assert_eq!(model.get_states(&at(0, 0)), vec![0.5; 4]);
    assert_eq!(model.effective_field(at(0, 0)), vec![0.0]);
}

fn odd_architectures() -> ArchitectureMap<f64> {
    let mut map = architectures();
    let of = |dot_count: u8, places: usize| QCACellArchitecture {
        dot_count,
        dot_positions: vec![[0.0, 0.0]; places],
    };
    map.insert("odd".to_string(), of(6, 6));
    map.insert("bare".to_string(), of(4, 3));
    map.insert("dotless".to_string(), of(3, 0));
    map
}

#[test]
fn unknown_architecture_of_a_cell_is_told() {
    let knows = |layers: Vec<QCALayer<f64>>| {
        BistableModel::<Float>::knows_architectures(&layers, &architectures())
    };
    let known = || layer("four", vec![unpolarized(CellType::Normal, 0.0, 0.0)]);
    assert!(knows(vec![]));
    assert!(knows(vec![known(), layer("missing", vec![])]));
    assert!(!knows(vec![
        known(),
        layer("missing", vec![unpolarized(CellType::Normal, 500.0, 0.0)])
    ]));
}

#[test]
fn architecture_of_an_empty_layer_need_not_be_known() {
    let mut model = wire();
    assert!(model.initiate(Box::new(vec![layer("missing", vec![])]), architectures()));
    assert!(!model.has_cell(at(0, 0)));
}

#[test]
fn near_cells_that_cannot_be_coupled_are_refused() {
    for id in ["odd", "bare"] {
        let mut model = wire();
        let pair = |x: f64| {
            vec![
                layer(id, vec![unpolarized(CellType::Normal, 0.0, 0.0)]),
                layer("four", vec![unpolarized(CellType::Normal, x, 0.0)]),
            ]
        };
        assert!(!model.initiate(Box::new(pair(60.0)), odd_architectures()));
        assert!(model.has_cell(at(0, 2)));
        assert!(model.initiate(Box::new(pair(500.0)), odd_architectures()));
        assert!(model.has_cell(at(1, 0)));
        assert!(!model.has_cell(at(0, 2)));
    }
}

#[test]
fn cells_without_components_are_never_coupled() {
    let mut model = wire();
    let layers = vec![
        layer("dotless", vec![cell(CellType::Normal, 0.0, 0.0, vec![])]),
        layer("four", vec![unpolarized(CellType::Normal, 60.0, 0.0)]),
    ];
    assert!(model.initiate(Box::new(layers), odd_architectures()));
    model.pre_calculate(&[1e-25; 4], &vec![]);
    assert_eq!(model.effective_field(at(0, 0)), Vec::<f64>::new());
    assert_eq!(model.effective_field(at(1, 0)), vec![0.0]);
    assert_eq!(model.calculate(at(0, 0)), Some(true));
    assert_eq!(model.get_states(&at(0, 0)), Vec::<f64>::new());
}

#[test]
fn cell_with_too_few_dots_cannot_be_calculated() {
    let model = model_of(vec![layer(
        "four",
        vec![
            cell(CellType::Normal, 0.0, 0.0, vec![0.5; 3]),
            cell(CellType::Fixed, 500.0, 0.0, vec![]),
        ],
    )]);
    assert!(!model.can_calculate(at(0, 0)));
    assert!(model.can_calculate(at(0, 1)));
    assert!(model.can_calculate(at(9, 9)));
}

#[test]
fn neighbour_with_too_many_dots_cannot_be_read() {
    let mut model = model_of(vec![layer(
        "four",
        vec![
            cell(CellType::Input, 0.0, 0.0, vec![0.5; 8]),
            unpolarized(CellType::Normal, 60.0, 0.0),
            unpolarized(CellType::Normal, 120.0, 0.0),
        ],
    )]);
    assert!(!model.can_calculate(at(0, 1)));
    assert!(model.can_calculate(at(0, 2)));
    model.pre_calculate(&[1e-25; 4], &vec![1.0]);
    assert!(model.can_calculate(at(0, 1)));
    assert_eq!(model.calculate(at(0, 1)), Some(false));
}

/// Settings as their numbers, with commas between them.
struct Commas;

impl SettingsFormat<f64> for Commas {
    fn write_model_settings(&self, s: &BistableModelSettings<f64>) -> Result<String, String> {
        Ok(format!(
            "{},{},{},{}",
            s.max_iterations, s.convergence_tolerance, s.neighborhood_radius, s.relative_permitivity
        ))
    }
    fn read_model_settings(&self, text: &String) -> Result<BistableModelSettings<f64>, String> {
        let parts: Vec<&str> = text.split(',').collect();
        if parts.len() != 4 {
            return Err(format!("{} parts", parts.len()));
        }
        Ok(BistableModelSettings {
            max_iterations: parts[0].parse().map_err(|_| "count".to_string())?,
            convergence_tolerance: parts[1].parse().map_err(|_| "number".to_string())?,
            neighborhood_radius: parts[2].parse().map_err(|_| "number".to_string())?,
            relative_permitivity: parts[3].parse().map_err(|_| "number".to_string())?,
        })
    }
    fn write_clock_generator_settings(
        &self,
        s: &BistableClockGeneratorSettings<f64>,
    ) -> Result<String, String> {
        if s.num_cycles == 0 {
            return Err("no cycles".to_string());
        }
        Ok(format!("{}", s.num_cycles))
    }
    fn read_clock_generator_settings(
        &self,
        text: &String,
    ) -> Result<BistableClockGeneratorSettings<f64>, String> {
        let mut settings = BistableClockGeneratorSettings::new(&Float);
        settings.num_cycles = text.parse().map_err(|_| "count".to_string())?;
        Ok(settings)
    }
}

#[test]
fn model_settings_travel_as_text() {
    let mut sender = BistableModel::new(Float);
    assert_eq!(sender.deserialize_model_settings(&Commas, &"5,0.5,70,2".to_string()), Ok(()));
    let text = sender.serialize_model_settings(&Commas);
    assert_eq!(text, Ok("5,0.5,70,2".to_string()));
    let mut receiver = BistableModel::new(Float);
    assert_eq!(receiver.deserialize_model_settings(&Commas, &text.unwrap()), Ok(()));
    let settings = receiver.get_model_settings();
    assert_eq!(settings.max_iterations, 5);
    assert_eq!(settings.convergence_tolerance, 0.5);
    assert_eq!(settings.neighborhood_radius, 70.0);
    assert_eq!(settings.relative_permitivity, 2.0);
    assert_eq!(receiver.get_clock_generator_settings().num_cycles, 1);
}

#[test]
fn unreadable_model_settings_change_nothing() {
    let mut model = BistableModel::new(Float);
    assert_eq!(
        model.deserialize_model_settings(&Commas, &"5".to_string()),
        Err("1 parts".to_string())
    );
    assert_eq!(model.get_model_settings().max_iterations, 1000);
    assert_eq!(model.take_model_settings(Err("torn".to_string())), Err("torn".to_string()));
    assert_eq!(model.get_model_settings().max_iterations, 1000);
}

#[test]
fn clock_settings_travel_as_text() {
    let mut model = BistableModel::new(Float);
    assert_eq!(model.deserialize_clock_generator_settings(&Commas, &"7".to_string()), Ok(()));
    assert_eq!(model.get_clock_generator_settings().num_cycles, 7);
    assert_eq!(model.serialize_clock_generator_settings(&Commas), Ok("7".to_string()));
    assert_eq!(
        model.deserialize_clock_generator_settings(&Commas, &"x".to_string()),
        Err("count".to_string())
    );
    assert_eq!(model.get_clock_generator_settings().num_cycles, 7);
    let mut none = model.get_clock_generator_settings();
    none.num_cycles = 0;
    assert_eq!(model.take_clock_generator_settings(Ok(none)), Ok(()));
    assert_eq!(
        model.serialize_clock_generator_settings(&Commas),
        Err("no cycles".to_string())
    );
}

#[test]
fn settings_of_the_model_are_used() {
    let mut model = BistableModel::new(Float);
    let mut settings = model.get_model_settings();
    settings.neighborhood_radius = 50.0;
    settings.convergence_tolerance = 1.0;
    assert_eq!(model.take_model_settings(Ok(settings)), Ok(()));
    let cells = || {
        vec![layer(
            "four",
            vec![
                cell(CellType::Fixed, 0.0, 0.0, vec![1.0, 0.0, 1.0, 0.0]),
                unpolarized(CellType::Normal, 60.0, 0.0),
            ],
        )]
    };
    assert!(model.initiate(Box::new(cells()), architectures()));
    assert_eq!(model.effective_field(at(0, 1)), vec![0.0]);
    settings.neighborhood_radius = 60.0;
    settings.relative_permitivity = 25.8;
    assert_eq!(model.take_model_settings(Ok(settings)), Ok(()));
    assert!(model.initiate(Box::new(cells()), architectures()));
    assert_eq!(model.effective_field(at(0, 1)), vec![-4.657013955922899e-23 / 2.0]);
    model.pre_calculate(&[1e-25; 4], &vec![]);
    assert_eq!(model.calculate(at(0, 1)), Some(true));
}

#[test]
fn distance_is_a_length() {
    let places = [[0.0, 0.0], [3.0, -4.0], [-1.5, 2.0]];
    for p in places {
        assert_eq!(BistableModel::dot_distance(&Float, &p, &p), 0.0);
        for q in places {
            assert!(BistableModel::dot_distance(&Float, &p, &q) >= 0.0);
        }
    }
    assert_eq!(BistableModel::dot_distance(&Float, &[0.0, 0.0], &[3.0, -4.0]), 5.0);
}

#[test]
fn dots_are_placed_rigidly() {
    let arch = eight_dots();
    for rotation in [0.0, 0.3, 2.0, -4.0] {
        let mut turned = cell(CellType::Normal, 35.0, -20.0, vec![0.5; 8]);
        turned.rotation = rotation;
        let dot = |i: usize| BistableModel::get_dot_position(&Float, i, &turned, &arch);
        for i in 0..8 {
            let from_centre = BistableModel::dot_distance(&Float, &dot(i), &turned.position);
            let place = arch.dot_positions[i];
            assert!((from_centre - place[0].hypot(place[1])).abs() < 1e-12);
            for j in 0..8 {
                let apart = BistableModel::dot_distance(&Float, &dot(i), &dot(j));
                let planned =
                    BistableModel::dot_distance(&Float, &place, &arch.dot_positions[j]);
                assert!((apart - planned).abs() < 1e-12);
            }
        }
    }
}

/// The second component of `eight_dots`, on its own.
fn diamond() -> QCACellArchitecture<f64> {
    let mut architecture = eight_dots();
    architecture.dot_count = 4;
    architecture.dot_positions.drain(0..4);
    architecture
}

#[test]
fn like_couplings_take_the_sign_of_their_own_sum() {
    for (x, y) in [(60.0, 0.0), (60.0, 20.0), (60.0, 60.0), (0.0, 70.0)] {
        let a = unpolarized(CellType::Normal, 0.0, 0.0);
        let b = unpolarized(CellType::Normal, x, y);
        let kink = |arch: &QCACellArchitecture<f64>, k: usize| {
            BistableModel::determine_kink_energy(&Float, &a, arch, k, &b, arch, k, 12.9)
        };
        let own = [kink(&four_dots(), 0), kink(&diamond(), 0)];
        let levelled = [kink(&eight_dots(), 0), kink(&eight_dots(), 1)];
        let strongest = f64::max(own[0].abs(), own[1].abs());
        for k in 0..2 {
            assert_eq!(levelled[k].signum(), own[k].signum());
            assert_eq!(levelled[k].abs(), levelled[0].abs());
            assert!((levelled[k].abs() - strongest).abs() <= 1e-14 * strongest);
        }
    }
}

#[test]
fn kink_energy_goes_inversely_with_the_permittivity() {
    let a = unpolarized(CellType::Normal, 0.0, 0.0);
    let b = unpolarized(CellType::Normal, 60.0, 20.0);
    let arch = eight_dots();
    for (k, l) in [(0, 0), (0, 1), (1, 0), (1, 1)] {
        let kink = |permitivity: f64| {
            BistableModel::determine_kink_energy(&Float, &a, &arch, k, &b, &arch, l, permitivity)
        };
        assert_eq!(kink(12.9), 2.0 * kink(25.8));
        assert_eq!(kink(12.9), -kink(-12.9));
        assert!((kink(1.0) - 3.0 * kink(3.0)).abs() <= 1e-14 * kink(1.0).abs());
    }
}

#[test]
fn kink_energy_survives_a_common_motion() {
    let mut a = unpolarized(CellType::Normal, 10.0, 0.0);
    let mut b = unpolarized(CellType::Normal, 70.0, 20.0);
    a.rotation = 0.25;
    let arch = eight_dots();
    for angle in [0.5, 1.75, -3.0] {
        let moved = |cell: &QCACell<f64>| {
            let (sin, cos) = f64::sin_cos(angle);
            let [x, y] = cell.position;
            let mut after = unpolarized(
                CellType::Normal,
                x * cos - y * sin + 40.0,
                y * cos + x * sin - 15.0,
            );
            after.rotation = cell.rotation + angle;
            after
        };
        for (k, l) in [(0, 0), (0, 1), (1, 0), (1, 1)] {
            let before = BistableModel::determine_kink_energy(&Float, &a, &arch, k, &b, &arch, l, 12.9);
            let after = BistableModel::determine_kink_energy(
                &Float, &moved(&a), &arch, k, &moved(&b), &arch, l, 12.9,
            );
            assert!((before - after).abs() <= 1e-10 * before.abs());
        }
        b.rotation += 0.5;
    }
}

#[test]
fn kink_energy_shrinks_as_cells_grow() {
    let small = eight_dots();
    let mut large = eight_dots();
    for place in large.dot_positions.iter_mut() {
        *place = [2.0 * place[0], 2.0 * place[1]];
    }
    let a = unpolarized(CellType::Normal, 5.0, 0.0);
    let b = unpolarized(CellType::Normal, 65.0, 20.0);
    let large_a = unpolarized(CellType::Normal, 10.0, 0.0);
    let large_b = unpolarized(CellType::Normal, 130.0, 40.0);
    for (k, l) in [(0, 0), (0, 1), (1, 0), (1, 1)] {
        let before = BistableModel::determine_kink_energy(&Float, &a, &small, k, &b, &small, l, 12.9);
        let after = BistableModel::determine_kink_energy(
            &Float, &large_a, &large, k, &large_b, &large, l, 12.9,
        );
        assert_eq!(before, 2.0 * after);
    }
}

#[test]
fn response_stays_below_one_and_below_the_pull() {
    for field in [
        vec![1e-6, -2e-6],
        vec![3.0, -4.0],
        vec![-700.0, 1200.0, 5.0],
        vec![1e9, 1.0],
        vec![0.0, 0.0],
    ] {
        let pull: f64 = field.iter().map(|f| (f / 2.0_f64).abs()).sum();
        let answer: f64 =
            BistableModel::respond(&Float, &field, 1.0).iter().map(|p| p.abs()).sum();
        assert!(answer < 1.0);
        assert!(answer <= pull);
    }
    assert_eq!(BistableModel::respond(&Float, &vec![1e9, 1.0], 1.0), vec![1.0 - 1e-9, 0.0]);
}

#[test]
fn response_turns_with_the_field() {
    for field in [vec![1e-6, -2e-6], vec![3.0, -4.0], vec![-700.0, 1200.0, 5.0], vec![2.0, -2.0]] {
        let turned: Vec<f64> = field.iter().map(|f| -f).collect();
        let answer = BistableModel::respond(&Float, &field, 1.0);
        let opposite: Vec<f64> = answer.iter().map(|p| -p).collect();
        assert_eq!(BistableModel::respond(&Float, &turned, 1.0), opposite);
        let strongest = BistableModel::dominant_component(&Float, &field);
        assert_eq!(answer[strongest].signum(), field[strongest].signum());
    }
}

#[test]
fn cell_turns_with_its_neighbours() {
    let mut up = wire();
    let mut down = wire();
    for _ in 0..2 {
        up.pre_calculate(&[1e-22; 4], &vec![1.0]);
        down.pre_calculate(&[1e-22; 4], &vec![-1.0]);
        for c in 1..3 {
            assert_eq!(up.calculate(at(0, c)), down.calculate(at(0, c)));
        }
    }
    for c in 1..3 {
        let p = Float.dot_probability_distribution_to_polarization(&up.get_states(&at(0, c)));
        let q = Float.dot_probability_distribution_to_polarization(&down.get_states(&at(0, c)));
        assert!(p[0] != 0.0);
        assert!((p[0] + q[0]).abs() <= 1e-14);
    }
}

#[test]
fn other_clock_signals_do_not_matter() {
    for phase in [0.0, 90.0, 180.0, 270.0] {
        let states = |rest: f64| {
            let mut follower = unpolarized(CellType::Normal, 60.0, 0.0);
            follower.clock_phase_shift = phase;
            let mut model = model_of(vec![layer(
                "four",
                vec![unpolarized(CellType::Input, 0.0, 0.0), follower],
            )]);
            let mut clock = [rest; 4];
            clock[(phase / 90.0) as usize] = 1e-22;
            model.pre_calculate(&clock, &vec![1.0]);
            (model.calculate(at(0, 1)), model.get_states(&at(0, 1)))
        };
        assert_eq!(states(1.0), states(1e-25));
        assert_eq!(states(1.0), states(0.0));
    }
}

#[test]
fn clock_settings_do_not_matter_to_a_new_design() {
    let mut used = wire();
    used.pre_calculate(&[1e-25; 4], &vec![1.0]);
    let mut clock = used.get_clock_generator_settings();
    clock.num_cycles = 9;
    assert_eq!(used.take_clock_generator_settings(Ok(clock)), Ok(()));
    let cells = || {
        vec![layer(
            "four",
            vec![
                cell(CellType::Fixed, 0.0, 0.0, vec![1.0, 0.0, 1.0, 0.0]),
                unpolarized(CellType::Normal, 60.0, 0.0),
            ],
        )]
    };
    assert!(used.initiate(Box::new(cells()), architectures()));
    let fresh = model_of(cells());
    assert_eq!(used.get_clock_generator_settings().num_cycles, 9);
    for c in 0..2 {
        assert_eq!(used.get_states(&at(0, c)), fresh.get_states(&at(0, c)));
        assert_eq!(used.effective_field(at(0, c)), fresh.effective_field(at(0, c)));
    }
}

/// Numbers of every kind that the format has.
const SAMPLES: [f64; 19] = [
    0.0,
    -0.0,
    5e-324,
    -5e-324,
    1e-200,
    -1e-200,
    1e-3,
    -0.25,
    1.0,
    -1.0,
    3.0,
    999.5,
    -1000.0,
    1e200,
    -1e200,
    f64::MAX,
    f64::INFINITY,
    f64::NEG_INFINITY,
    f64::NAN,
];

fn opposite(x: f64, y: f64) -> bool {
    Float.same(y, Float.negation(x)) || !Float.same(x, x) && !Float.same(y, y)
}

#[test]
fn double_precision_is_orderly() {
    let n = &Float;
    for x in SAMPLES {
        assert!(!n.exceeds(x, x));
        assert!(!n.exceeds(0.0, n.magnitude(x)));
        assert!(!n.exceeds(n.magnitude(n.difference(x, x)), 0.0));
        for y in SAMPLES {
            let sum = n.sum(x, y);
            assert!(!n.exceeds(x, y) || n.same(x, x) && n.same(y, y));
            assert!(!n.exceeds(x, y) || n.exceeds(x, 0.0) || n.exceeds(0.0, y));
            assert!(!n.same(sum, sum) || n.same(x, x) && n.same(y, y));
            assert!(!n.exceeds(sum, 0.0) || n.exceeds(x, 0.0) || n.exceeds(y, 0.0));
            assert!(!n.exceeds(0.0, sum) || n.exceeds(0.0, x) || n.exceeds(0.0, y));
            for z in SAMPLES {
                assert!(!(n.exceeds(x, y) && n.exceeds(y, z)) || n.exceeds(x, z));
                assert!(
                    !(n.exceeds(x, z) && !n.exceeds(x, y) && n.same(y, y)) || n.exceeds(y, z)
                );
            }
        }
    }
}

#[test]
fn double_precision_is_even_about_zero() {
    let n = &Float;
    for x in SAMPLES {
        for x2 in [-x, x + 0.0, -(x + 0.0)].into_iter().filter(|x2| opposite(x, *x2)) {
            let alike = n.magnitude(x).to_bits() == n.magnitude(x2).to_bits();
            assert!(alike || x.is_nan() && x2.is_nan());
            assert!(!n.exceeds(n.magnitude(x), 0.0) || opposite(n.sign(x), n.sign(x2)));
            for y in SAMPLES {
                assert!(opposite(n.sum(x, y), n.sum(x2, -y)));
                assert!(opposite(n.product(x, y), n.product(x2, y)));
                assert!(opposite(n.product(y, x), n.product(y, x2)));
                assert!(opposite(n.quotient(x, y), n.quotient(x2, y)));
            }
        }
    }
}

#[test]
fn double_precision_signs_change_no_magnitude() {
    let n = &Float;
    for x in SAMPLES {
        if n.exceeds(x, 0.0) {
            assert_eq!(n.sum(0.0, x), x);
            assert_eq!(n.sum(x, 0.0), x);
            assert_eq!(n.sign(x), 1.0);
        }
        if n.same(x, x) && !n.same(x, 0.0) {
            assert!(n.exceeds(n.magnitude(x), 0.0));
            assert_eq!(n.magnitude(n.negation(n.sign(x))), 1.0);
        }
        for y in SAMPLES {
            if n.exceeds(n.magnitude(x), 0.0) && n.exceeds(y, 0.0) {
                assert_eq!(n.magnitude(n.product(n.sign(x), y)), y);
            }
            if n.exceeds(x, 0.0) || n.exceeds(y, 0.0) {
                assert!(n.exceeds(n.larger(x, y), 0.0));
            }
            let product = n.product(x, y);
            if n.same(product, product) {
                assert_eq!(n.magnitude(product), n.product(n.magnitude(x), n.magnitude(y)));
                if !n.same(x, 0.0) && !n.same(y, 0.0) {
                    assert_eq!(n.sign(product) == 1.0, n.sign(x) == n.sign(y));
                    assert_eq!(n.magnitude(n.sign(product)), 1.0);
                }
            }
        }
    }
}

#[test]
fn double_precision_measures_lengths() {
    let n = &Float;
    for x in SAMPLES {
        assert!(!n.exceeds(0.0, n.power(x, 2.0)));
        assert!(n.exceeds(0.0, x) || !n.exceeds(0.0, n.square_root(x)));
        for y in SAMPLES {
            assert_eq!(
                n.power(n.difference(x, y), 2.0).to_bits() & !(1 << 63),
                n.power(n.difference(y, x), 2.0).to_bits() & !(1 << 63)
            );
            let far = BistableModel::dot_distance(n, &[x, y], &[y, 1.0]);
            assert!(!n.exceeds(0.0, far));
            if far == far {
                assert_eq!(far, BistableModel::dot_distance(n, &[y, 1.0], &[x, y]));
            }
            if x.is_finite() && y.is_finite() {
                assert_eq!(BistableModel::dot_distance(n, &[x, y], &[x, y]), 0.0);
            }
        }
    }
}

#[test]
fn double_precision_counts_quarters() {
    let n = &Float;
    for quarter in [-4_000_000_003_i64, -5, -4, -3, -1, 0, 1, 2, 3, 4, 5, 360, 70_000_000_002] {
        let degrees = n.decimal(Decimal::new(90 * quarter as i128, 0));
        let rest = n.remainder(degrees, 360.0);
        assert!(n.same(rest, 90.0 * quarter.rem_euclid(4) as f64));
        assert_eq!(n.index(n.quotient(rest, 90.0)) as i64, quarter.rem_euclid(4));
    }
}

#[test]
fn charge_budget_holds_without_bound() {
    for pull in [5e-324, 1e-9, 9.9e-4, 1e-3, 0.5, 1.0, 1000.0, 1000.5, 1e300, f64::INFINITY] {
        let answer = BistableModel::saturate(&Float, pull);
        assert!(0.0 < answer && answer < 1.0 && answer <= pull);
        assert_eq!(BistableModel::respond(&Float, &vec![0.0, -2.0 * pull], 1.0)[1], -answer);
    }
    // A clock signal of zero leaves nothing to hold against the field.
    assert_eq!(
        BistableModel::respond(&Float, &vec![1e-23, -3e-23], 0.0),
        vec![0.0, -(1.0 - 1e-9)]
    );
    assert_eq!(
        BistableModel::respond(&Float, &vec![-1e-23, 3e-23], 0.0),
        vec![0.0, 1.0 - 1e-9]
    );
}

#[test]
fn second_calculation_changes_nothing_after_others() {
    let mut model = wire();
    model.pre_calculate(&[1e-22; 4], &vec![1.0]);
    assert_eq!(model.calculate(at(0, 1)), Some(false));
    let dots = model.get_states(&at(0, 1));
    model.calculate(at(0, 2));
    model.calculate(at(0, 0));
    assert_eq!(model.calculate(at(0, 1)), Some(true));
    assert_eq!(model.get_states(&at(0, 1)), dots);
}
