//! What holds of a simulation as a whole.

use vstd::prelude::*;

use super::calculate::{dominant, response};
use super::initiate::Design;
use super::kink::{levelled_energy, raw_energy, shared_components, strongest, Site};
use super::ModelState;
use crate::numerics::Arithmetic;
use crate::objects::QCACellIndex;

verus! {

proof fn lemma_field_reads_the_last_iteration<S: Copy>(
    m: Arithmetic<S>,
    a: ModelState<S>,
    b: ModelState<S>,
    index: QCACellIndex,
    component: int,
    count: nat,
)
    requires
        b.neighborhoods == a.neighborhoods,
        b.static_cells == a.static_cells,
        b.read_cells == a.read_cells,
    ensures
        a.field_component(m, index, component, count) == b.field_component(
            m,
            index,
            component,
            count,
        ),
    decreases count,
{
    if count > 0 {
        lemma_field_reads_the_last_iteration(m, a, b, index, component, (count - 1) as nat);
    }
}

/// Where a cell goes in an iteration depends on what the last iteration wrote, and
/// not on where other cells went in this one.
pub proof fn calculation_reads_the_last_iteration<S: Copy>(
    m: Arithmetic<S>,
    a: ModelState<S>,
    b: ModelState<S>,
    index: QCACellIndex,
)
    requires
        b == (ModelState { write_cells: b.write_cells, ..a }),
        b.write_cells[index].clock_phase_shift == a.write_cells[index].clock_phase_shift,
    ensures
        b.clock_index(m, index) == a.clock_index(m, index),
        b.calculated_dots(m, index) == a.calculated_dots(m, index),
{
    assert forall|k: int| a.field_component(m, index, k, a.neighbors(index).len())
        == #[trigger] b.field_component(m, index, k, b.neighbors(index).len()) by {
        lemma_field_reads_the_last_iteration(m, a, b, index, k, a.neighbors(index).len());
    }
    assert(a.effective_field(m, index) =~= b.effective_field(m, index));
}

/// Of the four clock states only that of the cell's own signal matters to where it
/// goes.
pub proof fn other_clock_signals_do_not_matter<S: Copy>(
    m: Arithmetic<S>,
    a: ModelState<S>,
    b: ModelState<S>,
    index: QCACellIndex,
)
    requires
        b == (ModelState { clock_states: b.clock_states, ..a }),
        b.clock_state(m, index) == a.clock_state(m, index),
    ensures
        b.calculated_polarization(m, index) == a.calculated_polarization(m, index),
        b.calculated_dots(m, index) == a.calculated_dots(m, index),
        b.is_stable(m, index) == a.is_stable(m, index),
        b.calculated(m, index) == (ModelState {
            clock_states: b.clock_states,
            ..a.calculated(m, index)
        }),
{
    assert forall|k: int| a.field_component(m, index, k, a.neighbors(index).len())
        == #[trigger] b.field_component(m, index, k, b.neighbors(index).len()) by {
        lemma_field_reads_the_last_iteration(m, a, b, index, k, a.neighbors(index).len());
    }
    assert(a.effective_field(m, index) =~= b.effective_field(m, index));
}

/// In an iteration the cells may be calculated in any order: two of them leave the
/// model the same either way round, and neither changes what the other answers.
pub proof fn calculations_commute<S: Copy>(
    m: Arithmetic<S>,
    state: ModelState<S>,
    first: QCACellIndex,
    second: QCACellIndex,
)
    requires
        state.write_cells.contains_key(first),
        state.write_cells.contains_key(second),
        first != second,
    ensures
        state.calculated(m, first).calculated(m, second) == state.calculated(m, second).calculated(
            m,
            first,
        ),
        state.calculated(m, first).clock_index(m, second) == state.clock_index(m, second),
        state.calculated(m, first).is_stable(m, second) == state.is_stable(m, second),
{
    calculation_reads_the_last_iteration(m, state, state.calculated(m, first), second);
    calculation_reads_the_last_iteration(m, state, state.calculated(m, second), first);
    assert(state.calculated(m, first).calculated(m, second).write_cells
        =~= state.calculated(m, second).calculated(m, first).write_cells);
}

/// To calculate a cell once more in the same iteration changes nothing, whatever other
/// cells were calculated in between; and where the tolerance is not below zero, the cell
/// is then stable.
pub proof fn calculation_is_idempotent<S: Copy>(
    m: Arithmetic<S>,
    state: ModelState<S>,
    later: ModelState<S>,
    index: QCACellIndex,
)
    requires
        state.write_cells.contains_key(index),
        later == (ModelState { write_cells: later.write_cells, ..state }),
        later.write_cells.contains_key(index),
        later.write_cells[index] == state.calculated(m, index).write_cells[index],
    ensures
        later.calculated(m, index) == later,
        m.tolerates_itself() && !(m.exceeds)(
            m.zero(),
            state.model_settings.convergence_tolerance,
        ) ==> later.is_stable(m, index),
{
    calculation_reads_the_last_iteration(m, state, later, index);
    assert(later.calculated(m, index).write_cells =~= later.write_cells);
}

/// A calculated cell shows what was calculated for it, and every other cell shows
/// what it showed before.
pub proof fn calculation_shows<S: Copy>(
    m: Arithmetic<S>,
    state: ModelState<S>,
    index: QCACellIndex,
    other: QCACellIndex,
)
    requires
        state.write_cells.contains_key(index),
    ensures
        state.calculated(m, index).shown_cell(index).dots == state.calculated_dots(m, index),
        other != index ==> state.calculated(m, index).shown_cell(other) == state.shown_cell(other),
{
}

/// To start an iteration over with the same clock and input states changes nothing.
pub proof fn pre_calculation_is_idempotent<S: Copy>(
    m: Arithmetic<S>,
    state: ModelState<S>,
    clock_states: Seq<S>,
    input_states: Seq<S>,
)
    ensures
        state.pre_calculated(m, clock_states, input_states).pre_calculated(
            m,
            clock_states,
            input_states,
        ) == state.pre_calculated(m, clock_states, input_states),
{
    let once = state.pre_calculated(m, clock_states, input_states);
    let twice = once.pre_calculated(m, clock_states, input_states);
    assert(twice.static_cells =~= once.static_cells);
}

/// To start an iteration does not change what a cell that follows its neighbours
/// shows, and from then on its neighbours see it so.
pub proof fn pre_calculation_passes_on_what_was_written<S: Copy>(
    m: Arithmetic<S>,
    state: ModelState<S>,
    clock_states: Seq<S>,
    input_states: Seq<S>,
    index: QCACellIndex,
)
    requires
        state.write_cells.contains_key(index),
    ensures
        state.pre_calculated(m, clock_states, input_states).shown_cell(index) == state.shown_cell(
            index,
        ),
        state.pre_calculated(m, clock_states, input_states).seen_cell(index) == state.shown_cell(
            index,
        ),
{
}

/// Input cells with equally many components take parts of the input states that do
/// not overlap.
pub proof fn inputs_do_not_share_states<S: Copy>(
    state: ModelState<S>,
    first: QCACellIndex,
    second: QCACellIndex,
)
    requires
        state.components(first.layer as int) == state.components(second.layer as int),
        state.cell_inputs[first] != state.cell_inputs[second],
    ensures
        state.input_end(first) <= state.input_start(second) || state.input_end(second)
            <= state.input_start(first),
{
    let n = state.components(first.layer as int) as int;
    let a = state.cell_inputs[first] as int;
    let b = state.cell_inputs[second] as int;
    assert(n * a + n <= n * b || n * b + n <= n * a) by (nonlinear_arith)
        requires
            n >= 0,
            a != b,
    ;
}

/// A model that takes over a design forgets the one it had: the cells, their
/// neighbours and the numbers of the inputs are then a matter of the design and the
/// model settings, and only settings, clock states and input states stay.
pub proof fn initiation_forgets_the_last_design<S: Copy>(
    m: Arithmetic<S>,
    state: ModelState<S>,
    other: ModelState<S>,
    design: Design<S>,
)
    requires
        state.model_settings == other.model_settings,
    ensures
        state.initiated(m, design) == (ModelState {
            clock_settings: state.clock_settings,
            clock_states: state.clock_states,
            input_states: state.input_states,
            ..other.initiated(m, design)
        }),
{
}

/// Every cell of a design is either held or follows its neighbours, never both.
pub proof fn initiation_places_every_cell_once<S: Copy>(
    m: Arithmetic<S>,
    state: ModelState<S>,
    design: Design<S>,
    index: QCACellIndex,
)
    ensures
        state.initiated(m, design).has_cell(index) <==> design.has_cell(index),
        !(state.initiated(m, design).static_cells.contains_key(index) && state.initiated(
            m,
            design,
        ).read_cells.contains_key(index)),
        design.has_cell(index) ==> state.initiated(m, design).shown_cell(index) == design.cell(
            index,
        ),
        design.has_cell(index) ==> state.initiated(m, design).seen_cell(index) == design.cell(
            index,
        ),
{
}

/// The pulls can be told apart by their magnitudes.
pub open spec fn are_comparable<S: Copy>(m: Arithmetic<S>, pulls: Seq<S>) -> bool {
    &&& forall|i: int, j: int|
        0 <= i < pulls.len() && 0 <= j < pulls.len() && #[trigger] (m.exceeds)(
            (m.magnitude)(pulls[i]),
            (m.magnitude)(pulls[j]),
        ) ==> !(m.exceeds)((m.magnitude)(pulls[j]), (m.magnitude)(pulls[i]))
    &&& forall|i: int, j: int, k: int|
        0 <= i < pulls.len() && 0 <= j < pulls.len() && 0 <= k < pulls.len() && !(
        #[trigger] (m.exceeds)((m.magnitude)(pulls[i]), (m.magnitude)(pulls[j]))) && !(
        #[trigger] (m.exceeds)((m.magnitude)(pulls[j]), (m.magnitude)(pulls[k]))) ==> !(m.exceeds)(
            (m.magnitude)(pulls[i]),
            (m.magnitude)(pulls[k]),
        )
}

proof fn lemma_dominant_is_strongest<S: Copy>(m: Arithmetic<S>, pulls: Seq<S>, count: nat)
    requires
        are_comparable(m, pulls),
        0 < count <= pulls.len(),
    ensures
        0 <= dominant(m, pulls, count) < count,
        forall|k: int|
            0 <= k < count ==> !(m.exceeds)(
                (m.magnitude)(#[trigger] pulls[k]),
                (m.magnitude)(pulls[dominant(m, pulls, count)]),
            ),
        forall|k: int|
            dominant(m, pulls, count) < k < count ==> (m.exceeds)(
                (m.magnitude)(pulls[dominant(m, pulls, count)]),
                (m.magnitude)(#[trigger] pulls[k]),
            ),
    decreases count,
{
    if count > 1 {
        let last = count - 1;
        lemma_dominant_is_strongest(m, pulls, last as nat);
        let before = dominant(m, pulls, last as nat);
        let found = dominant(m, pulls, count);
        assert forall|k: int| 0 <= k < count implies !(m.exceeds)(
            (m.magnitude)(#[trigger] pulls[k]),
            (m.magnitude)(pulls[found]),
        ) by {
            if k < last {
                assert(!(m.exceeds)((m.magnitude)(pulls[k]), (m.magnitude)(pulls[before])));
            }
        }
    }
}

/// The component to which a cell commits has the strongest pull: no other is
/// stronger, and those after it are weaker.
pub proof fn dominant_is_strongest<S: Copy>(m: Arithmetic<S>, pulls: Seq<S>, k: int)
    requires
        are_comparable(m, pulls),
        0 <= k < pulls.len(),
    ensures
        0 <= dominant(m, pulls, pulls.len()) < pulls.len(),
        !(m.exceeds)(
            (m.magnitude)(pulls[k]),
            (m.magnitude)(pulls[dominant(m, pulls, pulls.len())]),
        ),
        dominant(m, pulls, pulls.len()) < k ==> (m.exceeds)(
            (m.magnitude)(pulls[dominant(m, pulls, pulls.len())]),
            (m.magnitude)(pulls[k]),
        ),
{
    lemma_dominant_is_strongest(m, pulls, pulls.len());
}

pub proof fn lemma_dominant_is_in_range<S: Copy>(m: Arithmetic<S>, pulls: Seq<S>, count: nat)
    requires
        count > 0,
    ensures
        0 <= dominant(m, pulls, count) < count,
    decreases count,
{
    if count > 1 {
        lemma_dominant_is_in_range(m, pulls, (count - 1) as nat);
    }
}

/// A cell commits to a single component: every other one is zero.
pub proof fn response_commits_to_one_component<S: Copy>(m: Arithmetic<S>, pulls: Seq<S>, k: int)
    requires
        0 <= k < pulls.len(),
        k != dominant(m, pulls, pulls.len()),
    ensures
        response(m, pulls).len() == pulls.len(),
        response(m, pulls)[k] == m.zero(),
{
    lemma_dominant_is_in_range(m, pulls, pulls.len());
}

/// Where cells have a single component in common, its levelled energy is its own
/// Coulomb sum, turned around.
pub proof fn single_component_keeps_its_energy<S: Copy>(m: Arithmetic<S>, a: Site<S>, b: Site<S>)
    requires
        shared_components(a, b) == 1,
        !m.is_zero(raw_energy(m, a, 0, b, 0)),
        (m.larger)(m.zero(), (m.magnitude)(raw_energy(m, a, 0, b, 0))) == (m.magnitude)(
            raw_energy(m, a, 0, b, 0),
        ),
    ensures
        levelled_energy(m, a, 0, b, 0) == (m.product)(
            (m.negation)((m.sign)(raw_energy(m, a, 0, b, 0))),
            (m.magnitude)(raw_energy(m, a, 0, b, 0)),
        ),
{
    reveal_with_fuel(strongest, 2);
}

} // verus!
