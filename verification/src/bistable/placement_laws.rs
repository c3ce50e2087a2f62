//! Which cells act on which, and what each cell is fed.

use vstd::prelude::*;

use super::design_laws::{
    input_numbers_have_no_gaps, inputs_before_are_few, inputs_before_grow,
    neighbors_are_listed_once, neighbors_are_the_cells_nearby, order_lists_every_cell,
};
use super::geometry::{distance_is_euclidean, point, squared_distance};
use super::initiate::{couplings, Design};
use super::kink::{distance, place, Site};
use super::ModelState;
use crate::exact::exact_whole;
use crate::numerics::Arithmetic;
use crate::objects::{CellView, QCACellIndex};
use crate::reals::{times, times_commutes, times_keeps_order, times_of_negation};
use crate::settings::{default_model_settings, BistableModelSettings};

verus! {

/// The design has a cell with this index.
pub open spec fn is_placed<S>(design: Design<S>, index: QCACellIndex) -> bool {
    index.layer < design.layers.len() && index.cell < design.layers[index.layer as int].cells.len()
}

/// Where a cell of the design lies.
pub open spec fn centre<S>(
    value: spec_fn(S) -> real,
    design: Design<S>,
    index: QCACellIndex,
) -> (real, real) {
    let position = design.layers[index.layer as int].cells[index.cell as int].position;
    (value(position@[0]), value(position@[1]))
}

/// The cell with this index, and the architecture that its layer names.
pub open spec fn placed<S>(design: Design<S>, index: QCACellIndex) -> Site<S> {
    let layer = design.layers[index.layer as int];
    Site {
        cell: layer.cells[index.cell as int],
        architecture: design.architectures[layer.cell_architecture_id],
    }
}

/// The model lists cell `b` among the neighbours of cell `a`.
pub open spec fn lists<S>(state: ModelState<S>, a: QCACellIndex, b: QCACellIndex) -> bool {
    state.neighborhoods.contains_key(a) && exists|t: int|
        0 <= t < state.neighborhoods[a].len() && (#[trigger] state.neighborhoods[a][t]).cell_index
            == b
}

proof fn lemma_near<S: Copy>(
    m: Arithmetic<S>,
    value: spec_fn(S) -> real,
    design: Design<S>,
    settings: BistableModelSettings<S>,
    a: QCACellIndex,
    b: QCACellIndex,
)
    requires
        m.is_exact(value),
    ensures
        ({
            let radius = value(settings.neighborhood_radius);
            design.are_near(m, settings, a, b) <==> {
                &&& a != b
                &&& radius >= 0real
                &&& squared_distance(centre(value, design, a), centre(value, design, b)) <= times(
                    radius,
                    radius,
                )
            }
        }),
{
    let p = place(design.cell(a).position);
    let q = place(design.cell(b).position);
    let far = value(distance(m, p, q));
    let radius = value(settings.neighborhood_radius);
    distance_is_euclidean(m, value, p, q);
    assert(point(value, p) == centre(value, design, a));
    assert(point(value, q) == centre(value, design, b));
    times_commutes(far, radius);
    if radius >= 0real {
        if far <= radius {
            times_keeps_order(far, radius, far);
            times_keeps_order(far, radius, radius);
        } else {
            times_keeps_order(radius, far, far);
            times_keeps_order(radius, far, radius);
        }
    }
}

proof fn lemma_entries<S: Copy>(
    m: Arithmetic<S>,
    design: Design<S>,
    settings: BistableModelSettings<S>,
    a: QCACellIndex,
    count: nat,
    t: int,
)
    requires
        count <= design.order().len(),
        0 <= t < design.neighbors(m, settings, a, count).len(),
    ensures
        ({
            let entry = design.neighbors(m, settings, a, count)[t];
            &&& entry == design.neighbor(m, settings, a, entry.cell_index)
            &&& design.are_near(m, settings, a, entry.cell_index)
            &&& design.order().contains(entry.cell_index)
        }),
    decreases count,
{
    if count > 0 {
        let last = count - 1;
        let before = design.neighbors(m, settings, a, last as nat);
        if t < before.len() {
            lemma_entries(m, design, settings, a, last as nat, t);
        } else {
            assert(design.order()[last] == design.neighbors(m, settings, a, count)[t].cell_index);
        }
    }
}

/// A model that took over a design lists among the neighbours of a cell exactly the
/// other cells within the radius: those whose centres are no further from its own, by
/// both coordinates.
pub proof fn neighbors_lie_within_the_radius<S: Copy>(
    m: Arithmetic<S>,
    value: spec_fn(S) -> real,
    state: ModelState<S>,
    design: Design<S>,
    a: QCACellIndex,
    b: QCACellIndex,
)
    requires
        m.is_exact(value),
        design.is_addressable(),
        is_placed(design, a),
        is_placed(design, b),
    ensures
        ({
            let radius = value(state.model_settings.neighborhood_radius);
            lists(state.initiated(m, design), a, b) <==> {
                &&& a != b
                &&& radius >= 0real
                &&& squared_distance(centre(value, design, a), centre(value, design, b)) <= times(
                    radius,
                    radius,
                )
            }
        }),
{
    lemma_near(m, value, design, state.model_settings, a, b);
    lemma_lists_the_near(m, state, design, a, b);
}

/// In whatever arithmetic, a model lists among the neighbours of a cell exactly the other
/// cells whose distance does not exceed the radius. So a cell at a distance that does not
/// compare with the radius is listed too.
pub proof fn neighbors_are_not_beyond_the_radius<S: Copy>(
    m: Arithmetic<S>,
    state: ModelState<S>,
    design: Design<S>,
    a: QCACellIndex,
    b: QCACellIndex,
)
    requires
        design.is_addressable(),
        is_placed(design, a),
        is_placed(design, b),
    ensures
        lists(state.initiated(m, design), a, b) <==> a != b && !(m.exceeds)(
            distance(
                m,
                place(placed(design, a).cell.position),
                place(placed(design, b).cell.position),
            ),
            state.model_settings.neighborhood_radius,
        ),
{
    lemma_lists_the_near(m, state, design, a, b);
}

proof fn lemma_lists_the_near<S: Copy>(
    m: Arithmetic<S>,
    state: ModelState<S>,
    design: Design<S>,
    a: QCACellIndex,
    b: QCACellIndex,
)
    requires
        design.is_addressable(),
        is_placed(design, a),
        is_placed(design, b),
    ensures
        lists(state.initiated(m, design), a, b) <==> design.are_near(
            m,
            state.model_settings,
            a,
            b,
        ),
{
    let settings = state.model_settings;
    let after = state.initiated(m, design);
    let all = design.neighbors(m, settings, a, design.order().len());
    neighbors_are_the_cells_nearby(design, m, settings, a, b);
    if design.are_near(m, settings, a, b) {
        let t = all.index_of(design.neighbor(m, settings, a, b));
        assert(after.neighborhoods.contains_key(a));
        assert(after.neighborhoods[a][t].cell_index == b);
    }
    if lists(after, a, b) {
        let t = choose|t: int|
            0 <= t < after.neighborhoods[a].len() && (
            #[trigger] after.neighborhoods[a][t]).cell_index == b;
        lemma_entries(m, design, settings, a, design.order().len(), t);
    }
}

/// What a model lists as a neighbour is another cell of the design, listed once, with
/// the couplings of the two cells in the medium of the model.
pub proof fn neighbors_are_coupled<S: Copy>(
    m: Arithmetic<S>,
    state: ModelState<S>,
    design: Design<S>,
    a: QCACellIndex,
    t: int,
)
    requires
        design.is_addressable(),
        state.initiated(m, design).neighborhoods.contains_key(a),
        0 <= t < state.initiated(m, design).neighborhoods[a].len(),
    ensures
        ({
            let near = state.initiated(m, design).neighborhoods[a];
            let b = near[t].cell_index;
            &&& is_placed(design, a)
            &&& is_placed(design, b)
            &&& b != a
            &&& near[t].kink_energy == couplings(
                m,
                placed(design, a),
                placed(design, b),
                state.model_settings.relative_permitivity,
            )
            &&& forall|s: int| 0 <= s < near.len() && s != t ==> (#[trigger] near[s]).cell_index != b
        }),
{
    let settings = state.model_settings;
    let near = state.initiated(m, design).neighborhoods[a];
    lemma_entries(m, design, settings, a, design.order().len(), t);
    order_lists_every_cell(design, near[t].cell_index);
    assert forall|s: int| 0 <= s < near.len() && s != t implies (#[trigger] near[s]).cell_index
        != near[t].cell_index by {
        if s < t {
            neighbors_are_listed_once(design, m, settings, a, design.order().len(), s, t);
        } else {
            neighbors_are_listed_once(design, m, settings, a, design.order().len(), t, s);
        }
    }
}

/// A model takes over a design exactly where it knows the architecture of every cell,
/// and where any two different cells within the radius either have no components to
/// couple, or have architectures whose dots come in fours and all have a place.
pub proof fn designs_that_can_be_simulated<S: Copy>(
    m: Arithmetic<S>,
    value: spec_fn(S) -> real,
    design: Design<S>,
    settings: BistableModelSettings<S>,
)
    requires
        m.is_exact(value),
        value(settings.neighborhood_radius) >= 0real,
    ensures
        design.can_be_simulated(m, settings) <==> {
            &&& forall|a: QCACellIndex| #[trigger]
                is_placed(design, a) ==> design.architectures.contains_key(
                    design.layers[a.layer as int].cell_architecture_id,
                )
            &&& forall|a: QCACellIndex, b: QCACellIndex|
                #![trigger is_placed(design, a), is_placed(design, b)]
                is_placed(design, a) && is_placed(design, b) && a != b && squared_distance(
                    centre(value, design, a),
                    centre(value, design, b),
                ) <= times(
                    value(settings.neighborhood_radius),
                    value(settings.neighborhood_radius),
                ) ==> {
                    let arch_a = placed(design, a).architecture;
                    let arch_b = placed(design, b).architecture;
                    ||| arch_a.dot_count < 4
                    ||| arch_b.dot_count < 4
                    ||| {
                        &&& arch_a.dot_count % 4 == 0
                        &&& arch_b.dot_count % 4 == 0
                        &&& arch_a.dot_count <= arch_a.dot_positions.len()
                        &&& arch_b.dot_count <= arch_b.dot_positions.len()
                    }
                }
        },
{
    assert forall|a: QCACellIndex| is_placed(design, a) == #[trigger] design.has_cell(a) by {
    }
    assert forall|a: QCACellIndex| #[trigger] is_placed(design, a) == design.has_cell(a) by {
    }
    assert forall|a: QCACellIndex, b: QCACellIndex| #[trigger]
        design.are_near(m, settings, a, b) <==> (a != b && squared_distance(
            centre(value, design, a),
            centre(value, design, b),
        ) <= times(
            value(settings.neighborhood_radius),
            value(settings.neighborhood_radius),
        )) by {
        lemma_near(m, value, design, settings, a, b);
    }
    if design.can_be_simulated(m, settings) {
        assert forall|a: QCACellIndex, b: QCACellIndex|
            #![trigger is_placed(design, a), is_placed(design, b)]
            is_placed(design, a) && is_placed(design, b) && a != b && squared_distance(
                centre(value, design, a),
                centre(value, design, b),
            ) <= times(
                value(settings.neighborhood_radius),
                value(settings.neighborhood_radius),
            ) implies {
            let arch_a = placed(design, a).architecture;
            let arch_b = placed(design, b).architecture;
            ||| arch_a.dot_count < 4
            ||| arch_b.dot_count < 4
            ||| {
                &&& arch_a.dot_count % 4 == 0
                &&& arch_b.dot_count % 4 == 0
                &&& arch_a.dot_count <= arch_a.dot_positions.len()
                &&& arch_b.dot_count <= arch_b.dot_positions.len()
            }
        } by {
            assert(design.are_near(m, settings, a, b));
        }
    }
}

/// A model that took over a design holds the cells that are inputs or fixed, and lets
/// the others follow their neighbours; each of them is as the design has it, and the
/// model has no other cells.
pub proof fn inputs_and_fixed_cells_are_held<S: Copy>(
    m: Arithmetic<S>,
    state: ModelState<S>,
    design: Design<S>,
    index: QCACellIndex,
)
    ensures
        ({
            let after = state.initiated(m, design);
            let cell = placed(design, index).cell;
            let held = cell.typ is Input || cell.typ is Fixed;
            &&& after.static_cells.contains_key(index) <==> is_placed(design, index) && held
            &&& after.read_cells.contains_key(index) <==> is_placed(design, index) && !held
            &&& after.write_cells.contains_key(index) <==> is_placed(design, index) && !held
            &&& after.cell_inputs.contains_key(index) <==> is_placed(design, index)
                && cell.typ is Input
            &&& after.static_cells.contains_key(index) ==> after.static_cells[index] == cell
            &&& after.read_cells.contains_key(index) ==> after.read_cells[index] == cell
            &&& after.write_cells.contains_key(index) ==> after.write_cells[index] == cell
            &&& after.layers == design.layers
            &&& after.architectures == design.architectures
            &&& after.model_settings == state.model_settings
            &&& after.clock_settings == state.clock_settings
            &&& after.clock_states == state.clock_states
            &&& after.input_states == state.input_states
        }),
{
}

/// A cell that comes before `a`, layer by layer, has this number.
pub open spec fn is_taken_before(
    numbers: Map<QCACellIndex, usize>,
    a: QCACellIndex,
    number: usize,
) -> bool {
    exists|b: QCACellIndex| #[trigger]
        numbers.contains_key(b) && numbers[b] == number && (b.layer < a.layer || b.layer == a.layer
            && b.cell < a.cell)
}

/// The inputs of a design are numbered from zero on, layer by layer: an input that comes
/// later has a larger number, and every number below that of an input belongs to one
/// that comes before it.
pub proof fn inputs_are_numbered_in_order<S: Copy>(
    m: Arithmetic<S>,
    state: ModelState<S>,
    design: Design<S>,
    a: QCACellIndex,
)
    requires
        design.is_addressable(),
        design.layers_inputs(design.layers.len()) <= usize::MAX,
        state.initiated(m, design).cell_inputs.contains_key(a),
    ensures
        ({
            let numbers = state.initiated(m, design).cell_inputs;
            &&& forall|b: QCACellIndex| #[trigger]
                numbers.contains_key(b) && (a.layer < b.layer || a.layer == b.layer && a.cell
                    < b.cell) ==> numbers[a] < numbers[b]
            &&& forall|number: usize|
                number < numbers[a] ==> #[trigger] is_taken_before(numbers, a, number)
        }),
{
    let numbers = state.initiated(m, design).cell_inputs;
    inputs_before_are_few(design, a);
    assert forall|b: QCACellIndex| #[trigger]
        numbers.contains_key(b) && (a.layer < b.layer || a.layer == b.layer && a.cell
            < b.cell) implies numbers[a] < numbers[b] by {
        inputs_before_are_few(design, b);
        inputs_before_grow(design, a, b);
    }
    assert forall|number: usize| number < numbers[a] implies #[trigger] is_taken_before(
        numbers,
        a,
        number,
    ) by {
        let b = input_numbers_have_no_gaps(design, number as nat);
        assert(numbers.contains_key(b) && numbers[b] == number);
        if design.comes_before(a, b) {
            inputs_before_grow(design, a, b);
        }
    }
}

/// At the start of an iteration, an input cell is fed its share of the input states: as
/// many as it has components, after those of the inputs with lower numbers. Fixed cells
/// stay as they are, and so does everything of an input cell but its dots.
pub proof fn inputs_are_fed_their_share<S: Copy>(
    m: Arithmetic<S>,
    state: ModelState<S>,
    clock_states: Seq<S>,
    input_states: Seq<S>,
    index: QCACellIndex,
    share: Seq<S>,
)
    requires
        state.static_cells.contains_key(index),
        ({
            let layer = state.layers[index.layer as int];
            let components = state.architectures[layer.cell_architecture_id].dot_count / 4;
            let number = state.cell_inputs[index];
            &&& share.len() == components
            &&& components * number + components <= input_states.len()
            &&& forall|k: int|
                0 <= k < components ==> #[trigger] share[k] == input_states[components * number + k]
        }),
    ensures
        ({
            let after = state.pre_calculated(m, clock_states, input_states);
            let before = state.static_cells[index];
            &&& after.static_cells.contains_key(index)
            &&& before.typ is Input ==> after.static_cells[index] == (CellView {
                dots: (m.distribution)(share),
                ..before
            })
            &&& !(before.typ is Input) ==> after.static_cells[index] == before
        }),
{
    let layer = state.layers[index.layer as int];
    let components = state.architectures[layer.cell_architecture_id].dot_count / 4;
    let number = state.cell_inputs[index] as int;
    assert(components * number >= 0) by (nonlinear_arith)
        requires
            components >= 0,
            number >= 0,
    ;
    assert(input_states.subrange(components * number, components * number + components) =~= share);
}

/// At the start of an iteration, what the last one wrote is what this one reads and
/// writes on; the clock and input states are those given; and nothing else changes but
/// the cells that hold their state, which are the same cells as before.
pub proof fn iteration_starts_from_the_last<S: Copy>(
    m: Arithmetic<S>,
    state: ModelState<S>,
    clock_states: Seq<S>,
    input_states: Seq<S>,
)
    ensures
        ({
            let after = state.pre_calculated(m, clock_states, input_states);
            &&& after.read_cells == state.write_cells
            &&& after.write_cells == state.write_cells
            &&& after.clock_states == clock_states
            &&& after.input_states == input_states
            &&& after.static_cells.dom() == state.static_cells.dom()
            &&& after.cell_inputs == state.cell_inputs
            &&& after.layers == state.layers
            &&& after.architectures == state.architectures
            &&& after.neighborhoods == state.neighborhoods
            &&& after.model_settings == state.model_settings
            &&& after.clock_settings == state.clock_settings
        }),
{
    assert(state.pre_calculated(m, clock_states, input_states).static_cells.dom()
        =~= state.static_cells.dom());
}

/// A list of input states is long enough exactly where it covers the share of every
/// input cell.
pub proof fn input_states_cover_every_share<S: Copy>(state: ModelState<S>, input_states: Seq<S>)
    ensures
        state.feeds_all_inputs(input_states) <==> forall|index: QCACellIndex| #[trigger]
            state.static_cells.contains_key(index) && state.static_cells[index].typ is Input ==> {
                let layer = state.layers[index.layer as int];
                let components = state.architectures[layer.cell_architecture_id].dot_count / 4;
                components * state.cell_inputs[index] + components <= input_states.len()
            },
{
}

/// A cell shows what this iteration wrote, where it follows its neighbours, and what it
/// holds otherwise; its neighbours see what the last iteration wrote.
pub proof fn cells_are_shown_and_seen<S: Copy>(state: ModelState<S>, index: QCACellIndex)
    ensures
        state.write_cells.contains_key(index) ==> state.shown_cell(index)
            == state.write_cells[index],
        !state.write_cells.contains_key(index) ==> state.shown_cell(index)
            == state.static_cells[index],
        state.read_cells.contains_key(index) ==> state.seen_cell(index) == state.read_cells[index],
        !state.read_cells.contains_key(index) ==> state.seen_cell(index)
            == state.static_cells[index],
        state.has_cell(index) <==> state.static_cells.contains_key(index)
            || state.read_cells.contains_key(index),
{
}

/// The default radius covers the nearest cells of a 60 nm grid, along its axes and
/// diagonally, and does not reach the next cells along the axes: on such a grid, a model
/// with default settings lists a cell `dx` columns and `dy` rows away exactly if neither
/// is more than one.
pub proof fn default_radius_covers_the_nearest_cells<S: Copy>(
    m: Arithmetic<S>,
    value: spec_fn(S) -> real,
    state: ModelState<S>,
    design: Design<S>,
    a: QCACellIndex,
    b: QCACellIndex,
    dx: int,
    dy: int,
)
    requires
        m.is_exact(value),
        design.is_addressable(),
        is_placed(design, a),
        is_placed(design, b),
        a != b,
        state.model_settings == default_model_settings(m),
        centre(value, design, b).0 - centre(value, design, a).0 == (60 * dx) as real,
        centre(value, design, b).1 - centre(value, design, a).1 == (60 * dy) as real,
    ensures
        lists(state.initiated(m, design), a, b) <==> -1 <= dx <= 1 && -1 <= dy <= 1,
{
    let p = centre(value, design, a);
    let q = centre(value, design, b);
    neighbors_lie_within_the_radius(m, value, state, design, a, b);
    exact_whole(m, value, 90);
    lemma_whole_squares(60 * dx);
    lemma_whole_squares(60 * dy);
    lemma_whole_squares(90);
    times_of_negation(q.0 - p.0, q.0 - p.0);
    times_of_negation(q.0 - p.0, p.0 - q.0);
    times_of_negation(q.1 - p.1, q.1 - p.1);
    times_of_negation(q.1 - p.1, p.1 - q.1);
    assert(p.0 - q.0 == -(q.0 - p.0));
    assert(p.1 - q.1 == -(q.1 - p.1));
    let far = (60 * dx) * (60 * dx) + (60 * dy) * (60 * dy);
    assert(squared_distance(p, q) == far as real);
    assert(far <= 8100 <==> -1 <= dx <= 1 && -1 <= dy <= 1) by (nonlinear_arith)
        requires
            far == (60 * dx) * (60 * dx) + (60 * dy) * (60 * dy),
    ;
}

proof fn lemma_whole_squares(n: int)
    ensures
        times(n as real, n as real) == (n * n) as real,
{
    reveal(times);
    assert((n as real) * (n as real) == (n * n) as real) by (nonlinear_arith);
}

/// A cell can be calculated exactly where it does not follow its neighbours, or it has
/// room for four dots per component, and, if it has components at all, none of its
/// neighbours is seen with more fours of dots than that neighbour has components.
pub proof fn cells_that_can_be_calculated<S: Copy>(state: ModelState<S>, index: QCACellIndex)
    ensures
        state.can_calculate(index) <==> {
            let layer = state.layers[index.layer as int];
            let components = state.architectures[layer.cell_architecture_id].dot_count / 4;
            state.write_cells.contains_key(index) ==> {
                &&& 4 * components <= state.write_cells[index].dots.len()
                &&& components > 0 && state.neighborhoods.contains_key(index) ==> forall|t: int|
                    0 <= t < state.neighborhoods[index].len() ==> {
                        let other = (#[trigger] state.neighborhoods[index][t]).cell_index;
                        let id = state.layers[other.layer as int].cell_architecture_id;
                        let dots = if state.read_cells.contains_key(other) {
                            state.read_cells[other].dots
                        } else {
                            state.static_cells[other].dots
                        };
                        dots.len() / 4 <= state.architectures[id].dot_count / 4
                    }
            }
        },
{
    if state.neighborhoods.contains_key(index) {
        assert(state.neighbors(index) == state.neighborhoods[index]);
    }
}

} // verus!
