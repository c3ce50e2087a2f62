//! What the field on a cell is, and what comes of it.

use vstd::arithmetic::power::pow;
use vstd::prelude::*;

use super::calculate::{dominant, pulls, response, saturated, settled, total_pull, weighed};
use super::laws::{are_comparable, dominant_is_strongest};
use super::response_laws::{
    exact_arithmetic_saturates_below_one, lemma_dominant_pulls, lemma_exact_curve,
    phase_shift_picks_its_quarter, saturation_stays_below_one,
};
use super::ModelState;
use crate::exact::{direction, direction_of_times, exact_whole, exact_zero, size};
use crate::numerics::{Arithmetic, Decimal};
use crate::objects::QCACellIndex;
use crate::reals::{
    square_is_not_negative, times, times_cancels, times_commutes, times_keeps_order, times_of_one,
    times_trades,
};
use crate::rounding::exact_arithmetic_is_orderly;
use crate::sums::{sum_of, sum_of_equals, sum_of_one, sum_of_products};

verus! {

/// What the polarization of a neighbour adds to the field on a component: each
/// component of the polarization, times the coupling with that component.
proof fn lemma_weighed<S: Copy>(
    m: Arithmetic<S>,
    value: spec_fn(S) -> real,
    start: S,
    coupling: Seq<S>,
    polarization: Seq<S>,
    count: nat,
)
    requires
        m.is_exact(value),
    ensures
        value(weighed(m, start, coupling, polarization, count)) == value(start) + sum_of(
            |l: int| times(value(coupling[l]), value(polarization[l])),
            count,
        ),
    decreases count,
{
    if count > 0 {
        lemma_weighed(m, value, start, coupling, polarization, (count - 1) as nat);
    }
}

/// The polarization in which a cell sees another: what the last iteration left of a
/// cell that follows its neighbours, and the state that a cell holds.
pub open spec fn polarization_seen<S: Copy>(
    m: Arithmetic<S>,
    state: ModelState<S>,
    index: QCACellIndex,
) -> Seq<S> {
    if state.read_cells.contains_key(index) {
        (m.polarization)(state.read_cells[index].dots)
    } else {
        (m.polarization)(state.static_cells[index].dots)
    }
}

proof fn lemma_field_component<S: Copy>(
    m: Arithmetic<S>,
    value: spec_fn(S) -> real,
    state: ModelState<S>,
    index: QCACellIndex,
    k: int,
    count: nat,
)
    requires
        m.is_exact(value),
        state.neighborhoods.contains_key(index),
        count <= state.neighborhoods[index].len(),
    ensures
        value(state.field_component(m, index, k, count)) == sum_of(
            |t: int|
                {
                    let near = state.neighborhoods[index][t];
                    let seen = polarization_seen(m, state, near.cell_index);
                    sum_of(
                        |l: int| times(value(near.kink_energy[k][l]), value(seen[l])),
                        seen.len(),
                    )
                },
            count,
        ),
    decreases count,
{
    exact_zero(m, value);
    if count > 0 {
        let t = count - 1;
        let near = state.neighborhoods[index][t];
        let seen = polarization_seen(m, state, near.cell_index);
        lemma_field_component(m, value, state, index, k, t as nat);
        lemma_weighed(
            m,
            value,
            state.field_component(m, index, k, t as nat),
            near.kink_energy[k],
            seen,
            seen.len(),
        );
    }
}

/// The field is the product of the couplings and the polarizations: on component `k` of
/// a cell, each neighbour adds each component `l` of its polarization, times the
/// coupling of `k` with `l`.
pub proof fn field_sums_up_the_neighbors<S: Copy>(
    m: Arithmetic<S>,
    value: spec_fn(S) -> real,
    state: ModelState<S>,
    index: QCACellIndex,
    k: int,
)
    requires
        m.is_exact(value),
        0 <= k < state.effective_field(m, index).len(),
        state.neighborhoods.contains_key(index),
    ensures
        value(state.effective_field(m, index)[k]) == sum_of(
            |t: int|
                {
                    let near = state.neighborhoods[index][t];
                    let seen = polarization_seen(m, state, near.cell_index);
                    sum_of(
                        |l: int| times(value(near.kink_energy[k][l]), value(seen[l])),
                        seen.len(),
                    )
                },
            state.neighborhoods[index].len(),
        ),
{
    lemma_field_component(m, value, state, index, k, state.neighborhoods[index].len());
}

/// A cell without neighbours has no field, and there is a field on each component that
/// the cell has by its architecture, one for every four dots.
pub proof fn field_without_neighbors_is_zero<S: Copy>(
    m: Arithmetic<S>,
    state: ModelState<S>,
    index: QCACellIndex,
)
    ensures
        ({
            let id = state.layers[index.layer as int].cell_architecture_id;
            let dots = state.architectures[id].dot_count;
            let components = state.effective_field(m, index).len();
            4 * components <= dots < 4 * components + 4
        }),
        !state.neighborhoods.contains_key(index) ==> forall|k: int|
            0 <= k < state.effective_field(m, index).len() ==> #[trigger] state.effective_field(
                m,
                index,
            )[k] == m.zero(),
{
}

/// A single neighbour that is polarized in component `only` alone puts its coupling with
/// that component on each component of the cell, times that polarization.
pub proof fn field_of_one_component<S: Copy>(
    m: Arithmetic<S>,
    value: spec_fn(S) -> real,
    state: ModelState<S>,
    index: QCACellIndex,
    k: int,
    only: int,
)
    requires
        m.is_exact(value),
        0 <= k < state.effective_field(m, index).len(),
        state.neighborhoods.contains_key(index),
        state.neighborhoods[index].len() == 1,
        ({
            let seen = polarization_seen(m, state, state.neighborhoods[index][0].cell_index);
            &&& 0 <= only < seen.len()
            &&& forall|l: int| 0 <= l < seen.len() && l != only ==> value(#[trigger] seen[l]) == 0real
        }),
    ensures
        value(state.effective_field(m, index)[k]) == times(
            value(state.neighborhoods[index][0].kink_energy[k][only]),
            value(
                polarization_seen(m, state, state.neighborhoods[index][0].cell_index)[only],
            ),
        ),
{
    let near = state.neighborhoods[index][0];
    let seen = polarization_seen(m, state, near.cell_index);
    let share = |l: int| times(value(near.kink_energy[k][l]), value(seen[l]));
    field_sums_up_the_neighbors(m, value, state, index, k);
    reveal_with_fuel(sum_of, 2);
    assert forall|l: int| 0 <= l < seen.len() && l != only implies #[trigger] share(l)
        == 0real by {
        assert(value(seen[l]) == 0real);
        times_of_one(value(near.kink_energy[k][l]));
    }
    sum_of_one(share, only, seen.len());
}

/// Where a component of a neighbour is zero, its couplings do not matter: two models
/// whose couplings differ there alone put the same field on the cell.
pub proof fn coupling_of_an_unpolarized_component_does_not_matter<S: Copy>(
    m: Arithmetic<S>,
    value: spec_fn(S) -> real,
    a: ModelState<S>,
    b: ModelState<S>,
    index: QCACellIndex,
    k: int,
)
    requires
        m.is_exact(value),
        b == (ModelState { neighborhoods: b.neighborhoods, ..a }),
        0 <= k < a.effective_field(m, index).len(),
        a.neighborhoods.contains_key(index),
        b.neighborhoods.contains_key(index),
        a.neighborhoods[index].len() == b.neighborhoods[index].len(),
        forall|t: int, l: int|
            #![trigger a.neighborhoods[index][t].kink_energy[k][l]]
            0 <= t < a.neighborhoods[index].len() ==> {
                let seen = polarization_seen(m, a, a.neighborhoods[index][t].cell_index);
                &&& b.neighborhoods[index][t].cell_index == a.neighborhoods[index][t].cell_index
                &&& 0 <= l < seen.len() && value(seen[l]) != 0real
                    ==> b.neighborhoods[index][t].kink_energy[k][l]
                    == a.neighborhoods[index][t].kink_energy[k][l]
            },
    ensures
        value(b.effective_field(m, index)[k]) == value(a.effective_field(m, index)[k]),
{
    field_sums_up_the_neighbors(m, value, a, index, k);
    field_sums_up_the_neighbors(m, value, b, index, k);
    let count = a.neighborhoods[index].len();
    let of_a = |t: int|
        {
            let near = a.neighborhoods[index][t];
            let seen = polarization_seen(m, a, near.cell_index);
            sum_of(|l: int| times(value(near.kink_energy[k][l]), value(seen[l])), seen.len())
        };
    let of_b = |t: int|
        {
            let near = b.neighborhoods[index][t];
            let seen = polarization_seen(m, b, near.cell_index);
            sum_of(|l: int| times(value(near.kink_energy[k][l]), value(seen[l])), seen.len())
        };
    assert forall|t: int| 0 <= t < count implies #[trigger] of_b(t) == of_a(t) by {
        let near_a = a.neighborhoods[index][t];
        let near_b = b.neighborhoods[index][t];
        let seen = polarization_seen(m, a, near_a.cell_index);
        let share_a = |l: int| times(value(near_a.kink_energy[k][l]), value(seen[l]));
        let share_b = |l: int| times(value(near_b.kink_energy[k][l]), value(seen[l]));
        assert(a.neighborhoods[index][t].kink_energy[k][0] == near_a.kink_energy[k][0]);
        assert(near_b.cell_index == near_a.cell_index);
        assert forall|l: int| 0 <= l < seen.len() implies #[trigger] share_b(l) == share_a(l) by {
            assert(a.neighborhoods[index][t].kink_energy[k][l] == near_a.kink_energy[k][l]);
            times_of_one(value(near_a.kink_energy[k][l]));
            times_of_one(value(near_b.kink_energy[k][l]));
        }
        sum_of_equals(share_b, share_a, seen.len());
    }
    sum_of_equals(of_b, of_a, count);
}

proof fn lemma_total_pull<S: Copy>(
    m: Arithmetic<S>,
    value: spec_fn(S) -> real,
    pulls: Seq<S>,
    count: nat,
)
    requires
        m.is_exact(value),
    ensures
        value(total_pull(m, pulls, count)) == sum_of(|k: int| size(value(pulls[k])), count),
    decreases count,
{
    exact_zero(m, value);
    if count > 0 {
        lemma_total_pull(m, value, pulls, (count - 1) as nat);
    }
}

/// How far a cell is polarized that is pulled so hard: one billionth short of one where
/// the pull is above 1000, as far as it is pulled where that is below one thousandth,
/// and otherwise by the `v` for which `v^2 * (1 + pull^2)` is `pull^2`.
pub open spec fn is_saturation(pull: real, v: real) -> bool {
    if pull > 1000real {
        1_000_000_000real - 1_000_000_000real * v == 1real
    } else if 1000real * pull < 1real {
        v == pull
    } else {
        &&& v > 0real
        &&& times(times(v, v), 1real + times(pull, pull)) == times(pull, pull)
    }
}

proof fn lemma_times_thousands(x: real)
    ensures
        times(x, 1000real) == 1000real * x,
        times(x, 1_000_000_000real) == 1_000_000_000real * x,
{
    reveal(times);
}

proof fn lemma_small_decimals<S: Copy>(m: Arithmetic<S>, value: spec_fn(S) -> real)
    requires
        m.is_exact(value),
    ensures
        1000real * value(m.num(1, -3)) == 1real,
        1_000_000_000real * value(m.num(1, -9)) == 1real,
{
    let milli = Decimal { mantissa: 1, exponent: -3i32 };
    let nano = Decimal { mantissa: 1, exponent: -9i32 };
    reveal_with_fuel(pow, 10);
    assert(pow(10, 3) == 1000);
    assert(pow(10, 9) == 1_000_000_000);
    assert(times(value((m.decimal)(milli)), pow(10, 3) as real) == 1real);
    assert(times(value((m.decimal)(nano)), pow(10, 9) as real) == 1real);
    lemma_times_thousands(value(m.num(1, -3)));
    lemma_times_thousands(value(m.num(1, -9)));
}

/// The polarization that a pull leads to.
pub proof fn saturation_curve<S: Copy>(m: Arithmetic<S>, value: spec_fn(S) -> real, pull: S)
    requires
        m.is_exact(value),
        value(pull) > 0real,
    ensures
        is_saturation(value(pull), value(saturated(m, pull))),
{
    exact_zero(m, value);
    exact_whole(m, value, 1);
    exact_whole(m, value, 1000);
    lemma_small_decimals(m, value);
    if !(m.exceeds)(pull, m.num(1000, 0)) && !(m.exceeds)(m.num(1, -3), pull) {
        let root = (m.square_root)((m.sum)(m.num(1, 0), (m.product)(pull, pull)));
        let r = value(root);
        let q = value(saturated(m, pull));
        let amount = value(pull);
        lemma_exact_curve(m, value, pull);
        square_is_not_negative(amount);
        assert(times(r, r) == 1real + times(amount, amount));
        if r == 0real {
            times_of_one(0real);
        }
        assert(times(q, r) == amount);
        times_trades(q, r, q, r);
    }
}

/// A cell answers the pulls at its components with all of its polarization in the
/// component that is pulled hardest, the last of those that are, in the direction of
/// that pull, and as far as the pulls together lead.
pub proof fn cell_answers_its_pulls<S: Copy>(
    m: Arithmetic<S>,
    value: spec_fn(S) -> real,
    pulls: Seq<S>,
    hardest: int,
    pull: real,
)
    requires
        m.is_exact(value),
        pull == sum_of(|k: int| size(value(pulls[k])), pulls.len()),
        pull > 0real,
        0 <= hardest < pulls.len(),
        forall|k: int|
            0 <= k < pulls.len() ==> size(value(#[trigger] pulls[k])) <= size(
                value(pulls[hardest]),
            ),
        forall|k: int|
            hardest < k < pulls.len() ==> size(value(#[trigger] pulls[k])) < size(
                value(pulls[hardest]),
            ),
    ensures
        response(m, pulls).len() == pulls.len(),
        direction(value(response(m, pulls)[hardest])) == direction(value(pulls[hardest])),
        is_saturation(pull, size(value(response(m, pulls)[hardest]))),
        forall|k: int|
            0 <= k < pulls.len() && k != hardest ==> value(#[trigger] response(m, pulls)[k])
                == 0real,
{
    let count = pulls.len();
    let found = dominant(m, pulls, count);
    let total = total_pull(m, pulls, count);
    exact_zero(m, value);
    lemma_total_pull(m, value, pulls, count);
    exact_arithmetic_is_orderly(m, value);
    lemma_dominant_pulls(m, pulls, count);
    assert(are_comparable(m, pulls));
    dominant_is_strongest(m, pulls, hardest);
    assert(size(value(pulls[found])) <= size(value(pulls[hardest])));
    assert(found == hardest);
    saturation_curve(m, value, total);
    exact_arithmetic_saturates_below_one(m, value);
    saturation_stays_below_one(m, total);
    let sign = value((m.sign)(pulls[found]));
    let amount = value(saturated(m, total));
    direction_of_times(sign, amount);
    times_commutes(1real, amount);
    times_of_one(amount);
}

/// A cell that is not pulled takes on no polarization.
pub proof fn cell_without_pulls_is_unpolarized<S: Copy>(
    m: Arithmetic<S>,
    value: spec_fn(S) -> real,
    pulls: Seq<S>,
    k: int,
)
    requires
        m.is_exact(value),
        sum_of(|k: int| size(value(pulls[k])), pulls.len()) == 0real,
        0 <= k < pulls.len(),
    ensures
        value(response(m, pulls)[k]) == 0real,
{
    exact_zero(m, value);
    lemma_total_pull(m, value, pulls, pulls.len());
}

/// A cell that follows its neighbours answers the field on its components, against the
/// clock signal of the quarter that its phase shift is in: the component with the
/// strongest field, the last of those with it, takes all the polarization, in the
/// direction of that field where the signal is positive. How far goes by the fields on
/// all components together, in units of twice the signal.
pub proof fn cell_answers_its_field<S: Copy>(
    m: Arithmetic<S>,
    value: spec_fn(S) -> real,
    state: ModelState<S>,
    index: QCACellIndex,
    quarter: int,
    strongest: int,
    pull: real,
)
    requires
        m.is_exact(value),
        (90 * quarter) as real <= value(state.write_cells[index].clock_phase_shift) < (90 * (quarter
            + 1)) as real,
        value(state.clock_states[quarter % 4]) != 0real,
        ({
            let field = state.effective_field(m, index);
            let signal = size(value(state.clock_states[quarter % 4]));
            &&& times(pull, 2real * signal) == sum_of(|k: int| size(value(field[k])), field.len())
            &&& pull > 0real
            &&& 0 <= strongest < field.len()
            &&& forall|k: int|
                0 <= k < field.len() ==> size(value(#[trigger] field[k])) <= size(
                    value(field[strongest]),
                )
            &&& forall|k: int|
                strongest < k < field.len() ==> size(value(#[trigger] field[k])) < size(
                    value(field[strongest]),
                )
        }),
    ensures
        ({
            let field = state.effective_field(m, index);
            let signal = value(state.clock_states[quarter % 4]);
            let answer = state.calculated_polarization(m, index);
            &&& answer.len() == field.len()
            &&& direction(value(answer[strongest])) == direction(
                times(signal, value(field[strongest])),
            )
            &&& is_saturation(pull, size(value(answer[strongest])))
            &&& forall|k: int|
                0 <= k < answer.len() && k != strongest ==> value(#[trigger] answer[k]) == 0real
        }),
{
    let field = state.effective_field(m, index);
    let signal = value(state.clock_states[quarter % 4]);
    phase_shift_picks_its_quarter(
        m,
        value,
        state.write_cells[index].clock_phase_shift,
        quarter,
    );
    let clock_state = state.clock_states[quarter % 4];
    let clock = (m.product)(m.num(2, 0), clock_state);
    exact_whole(m, value, 2);
    lemma_times_two(signal);
    assert(value(clock) == 2real * signal);
    let all = pulls(m, field, clock_state);
    let unit = 2real * size(signal);
    assert forall|k: int| 0 <= k < field.len() implies times(size(value(#[trigger] all[k])), unit)
        == size(value(field[k])) && direction(times(signal, value(field[k]))) == direction(
        value(all[k]),
    ) by {
        let q = value(all[k]);
        assert(times(q, value(clock)) == value(field[k]));
        direction_of_times(q, value(clock));
        direction_of_times(value(clock), q);
        times_commutes(q, value(clock));
        direction_of_times(signal, value(field[k]));
    }
    let strengths = |k: int| size(value(field[k]));
    let weights = |k: int| size(value(all[k]));
    assert forall|k: int| 0 <= k < field.len() implies #[trigger] strengths(k) == times(
        weights(k),
        unit,
    ) by {
        assert(times(size(value(all[k])), unit) == size(value(field[k])));
    }
    sum_of_products(strengths, weights, unit, field.len());
    times_cancels(pull, sum_of(weights, field.len()), unit);
    assert forall|k: int| 0 <= k < all.len() implies size(value(#[trigger] all[k])) <= size(
        value(all[strongest]),
    ) && (strongest < k ==> size(value(all[k])) < size(value(all[strongest]))) by {
        let x = size(value(all[k]));
        let y = size(value(all[strongest]));
        assert(times(x, unit) == size(value(field[k])));
        assert(times(y, unit) == size(value(field[strongest])));
        if x > y {
            times_keeps_order(y, x, unit);
        }
    }
    cell_answers_its_pulls(m, value, all, strongest, pull);
    assert(times(size(value(all[strongest])), unit) == size(value(field[strongest])));
}

proof fn lemma_times_two(x: real)
    ensures
        times(2real, x) == 2real * x,
{
    reveal(times);
}

/// A cell that follows its neighbours ends up with the dots of the polarization that it
/// answers with, and is otherwise what it was; no other cell changes, nor anything else.
pub proof fn calculation_moves_the_dots<S: Copy>(
    m: Arithmetic<S>,
    state: ModelState<S>,
    index: QCACellIndex,
)
    requires
        state.write_cells.contains_key(index),
    ensures
        ({
            let after = state.calculated(m, index);
            let cell = after.write_cells[index];
            &&& cell.dots == (m.distribution)(state.calculated_polarization(m, index))
            &&& cell.position == state.write_cells[index].position
            &&& cell.rotation == state.write_cells[index].rotation
            &&& cell.typ == state.write_cells[index].typ
            &&& cell.clock_phase_shift == state.write_cells[index].clock_phase_shift
            &&& after.write_cells.dom() == state.write_cells.dom()
            &&& forall|other: QCACellIndex|
                other != index && state.write_cells.contains_key(other)
                    ==> #[trigger] after.write_cells[other] == state.write_cells[other]
            &&& after.read_cells == state.read_cells
            &&& after.static_cells == state.static_cells
            &&& after.clock_states == state.clock_states
            &&& after.input_states == state.input_states
            &&& after.cell_inputs == state.cell_inputs
            &&& after.neighborhoods == state.neighborhoods
            &&& after.layers == state.layers
            &&& after.architectures == state.architectures
            &&& after.model_settings == state.model_settings
            &&& after.clock_settings == state.clock_settings
        }),
{
    assert(state.calculated(m, index).write_cells.dom() =~= state.write_cells.dom());
}

/// One dot that moved further than the tolerance is enough, wherever it is in the list:
/// the cell has not settled. Where none did, it has.
pub proof fn one_moving_dot_unsettles<S: Copy>(
    m: Arithmetic<S>,
    before: Seq<S>,
    after: Seq<S>,
    tolerance: S,
)
    ensures
        forall|i: int|
            #![trigger after[i]]
            0 <= i < after.len() && (m.exceeds)(
                (m.magnitude)((m.difference)(after[i], before[i])),
                tolerance,
            ) ==> !settled(m, before, after, tolerance),
        !settled(m, before, after, tolerance) ==> exists|i: int|
            #![trigger after[i]]
            0 <= i < after.len() && (m.exceeds)(
                (m.magnitude)((m.difference)(after[i], before[i])),
                tolerance,
            ),
{
}

/// Whether a cell has settled does not go by the order in which its dots are listed.
pub proof fn settling_ignores_the_order_of_dots<S: Copy>(
    m: Arithmetic<S>,
    before: Seq<S>,
    after: Seq<S>,
    tolerance: S,
    order: spec_fn(int) -> int,
    back: spec_fn(int) -> int,
)
    requires
        after.len() <= before.len(),
        forall|i: int|
            0 <= i < after.len() ==> 0 <= #[trigger] order(i) < after.len() && back(order(i)) == i,
        forall|i: int|
            0 <= i < after.len() ==> 0 <= #[trigger] back(i) < after.len() && order(back(i)) == i,
    ensures
        settled(
            m,
            Seq::new(after.len(), |i: int| before[order(i)]),
            Seq::new(after.len(), |i: int| after[order(i)]),
            tolerance,
        ) == settled(m, before, after, tolerance),
{
    let listed_before = Seq::new(after.len(), |i: int| before[order(i)]);
    let listed_after = Seq::new(after.len(), |i: int| after[order(i)]);
    if settled(m, listed_before, listed_after, tolerance) {
        assert forall|i: int| 0 <= i < after.len() implies !(m.exceeds)(
            (m.magnitude)((m.difference)(#[trigger] after[i], before[i])),
            tolerance,
        ) by {
            assert(listed_after[back(i)] == after[i]);
            assert(listed_before[back(i)] == before[i]);
        }
    }
    if settled(m, before, after, tolerance) {
        assert forall|i: int| 0 <= i < after.len() implies !(m.exceeds)(
            (m.magnitude)((m.difference)(#[trigger] listed_after[i], listed_before[i])),
            tolerance,
        ) by {
            assert(listed_after[i] == after[order(i)]);
        }
    }
}

/// A calculated cell is stable exactly where none of its dots moved further than the
/// tolerance of the model, from where this iteration had left it.
pub proof fn cell_is_stable_where_no_dot_moves<S: Copy>(
    m: Arithmetic<S>,
    state: ModelState<S>,
    index: QCACellIndex,
)
    requires
        state.write_cells.contains_key(index),
    ensures
        ({
            let before = state.write_cells[index].dots;
            let after = state.calculated(m, index).write_cells[index].dots;
            let tolerance = state.model_settings.convergence_tolerance;
            !state.is_stable(m, index) <==> exists|i: int|
                #![trigger after[i]]
                0 <= i < after.len() && (m.exceeds)(
                    (m.magnitude)((m.difference)(after[i], before[i])),
                    tolerance,
                )
        }),
{
    one_moving_dot_unsettles(
        m,
        state.write_cells[index].dots,
        state.calculated(m, index).write_cells[index].dots,
        state.model_settings.convergence_tolerance,
    );
}

/// A clock signal of zero is no exception: the pulls are what the arithmetic makes of
/// quotients by it, each from the field on its own component.
pub proof fn clock_signal_of_zero_is_no_exception<S: Copy>(
    m: Arithmetic<S>,
    field: Seq<S>,
    clock_state: S,
    k: int,
)
    requires
        0 <= k < field.len(),
        m.is_zero((m.product)(m.num(2, 0), clock_state)),
    ensures
        pulls(m, field, clock_state).len() == field.len(),
        pulls(m, field, clock_state)[k] == (m.quotient)(
            field[k],
            (m.product)(m.num(2, 0), clock_state),
        ),
{
}

} // verus!
