//! How a cell answers the pulls at its components.

use vstd::arithmetic::power::pow;
use vstd::prelude::*;

use super::calculate::{clock_index, dominant, pulls, response, saturated, total_pull, weighed};
use super::laws::lemma_dominant_is_in_range;
use super::ModelState;
use crate::exact::{direction, direction_of_times, exact_fraction, exact_whole, exact_zero, size};
use crate::numerics::Arithmetic;
use crate::objects::QCACellIndex;
use crate::reals::{times, times_commutes, times_is_zero, times_keeps_order, times_of_one};
use crate::rounding::{
    exact_arithmetic_divides_evenly, exact_arithmetic_has_unit_signs,
    exact_arithmetic_is_even_about_zero, exact_arithmetic_is_orderly,
};

verus! {

proof fn lemma_times_whole(x: real)
    ensures
        times(x, 90real) == 90real * x,
        times(x, 360real) == 360real * x,
{
    reveal(times);
}

/// The phase shift picks the clock signal by quarters of a turn: from a multiple of
/// 90 degrees on, up to the next, it is that quarter's signal, whatever the number of
/// full turns.
pub proof fn phase_shift_picks_its_quarter<S: Copy>(
    m: Arithmetic<S>,
    value: spec_fn(S) -> real,
    phase_shift: S,
    quarter: int,
)
    requires
        m.is_exact(value),
        (90 * quarter) as real <= value(phase_shift) < (90 * (quarter + 1)) as real,
    ensures
        clock_index(m, phase_shift) == quarter % 4,
{
    exact_whole(m, value, 360);
    exact_whole(m, value, 90);
    let turn = m.num(360, 0);
    let rest = (m.remainder)(phase_shift, turn);
    assert(m.is_remainder(value, phase_shift, turn, rest));
    let turns = choose|k: int|
        value(phase_shift) == #[trigger] times(k as real, value(turn)) + value(rest);
    let part = value((m.quotient)(rest, m.num(90, 0)));
    lemma_times_whole(turns as real);
    lemma_times_whole(part);
    assert(90real * part == value(rest));
    assert(0real <= part < 4real);
    let found = clock_index(m, phase_shift) as int;
    assert(found as real <= part < (found + 1) as real);
    assert(value(phase_shift) == 360real * (turns as real) + 90real * part);
    assert(quarter as real <= 4real * (turns as real) + part < (quarter + 1) as real);
    assert(quarter == 4 * turns + found);
}

/// For a number of quarters of a turn that is within `limit` degrees either side of
/// zero, full turns are taken off without rounding; the quarters that are left are told
/// from their degrees, and from their number.
pub open spec fn counts_quarter<S: Copy>(
    m: Arithmetic<S>,
    limit: int,
    x: S,
    quarter: int,
) -> bool {
    &&& -limit <= 90 * quarter <= limit && (m.same)(x, m.num(90 * quarter, 0)) ==> (m.same)(
        (m.remainder)(x, m.num(360, 0)),
        m.num(90 * (quarter % 4), 0),
    )
    &&& 0 <= quarter < 4 && (m.same)(x, m.num(90 * quarter, 0)) ==> (m.same)(
        (m.quotient)(x, m.num(90, 0)),
        m.num(quarter, 0),
    )
    &&& 0 <= quarter < 4 && (m.same)(x, m.num(quarter, 0)) ==> (m.index)(x) == quarter
}

/// Quarters of a turn are counted without rounding, within `limit` degrees either side
/// of zero.
pub open spec fn counts_quarters<S: Copy>(m: Arithmetic<S>, limit: int) -> bool {
    forall|x: S, quarter: int| #[trigger] counts_quarter(m, limit, x, quarter)
}

/// A phase shift that is a multiple of 90 degrees picks its quarter.
pub proof fn multiple_of_ninety_picks_its_quarter<S: Copy>(
    m: Arithmetic<S>,
    limit: int,
    phase_shift: S,
    quarter: int,
)
    requires
        counts_quarters(m, limit),
        -limit <= 90 * quarter <= limit,
        (m.same)(phase_shift, m.num(90 * quarter, 0)),
    ensures
        clock_index(m, phase_shift) == quarter % 4,
{
    let rest = (m.remainder)(phase_shift, m.num(360, 0));
    let part = (m.quotient)(rest, m.num(90, 0));
    assert(counts_quarter(m, limit, phase_shift, quarter));
    assert(counts_quarter(m, limit, rest, quarter % 4));
    assert(counts_quarter(m, limit, part, quarter % 4));
}

/// Exact arithmetic counts quarters, as far as whole numbers can be written.
pub proof fn exact_arithmetic_counts_quarters<S: Copy>(
    m: Arithmetic<S>,
    value: spec_fn(S) -> real,
)
    requires
        m.is_exact(value),
    ensures
        counts_quarters(m, i128::MAX as int),
{
    assert forall|x: S, quarter: int| #[trigger]
        counts_quarter(m, i128::MAX as int, x, quarter) by {
        lemma_exact_quarter(m, value, x, quarter);
    }
}

proof fn lemma_exact_quarter<S: Copy>(
    m: Arithmetic<S>,
    value: spec_fn(S) -> real,
    x: S,
    quarter: int,
)
    requires
        m.is_exact(value),
    ensures
        counts_quarter(m, i128::MAX as int, x, quarter),
{
    exact_whole(m, value, 360);
    exact_whole(m, value, 90);
    let turn = m.num(360, 0);
    if -i128::MAX <= 90 * quarter <= i128::MAX && (m.same)(x, m.num(90 * quarter, 0)) {
        exact_whole(m, value, 90 * quarter);
        exact_whole(m, value, 90 * (quarter % 4));
        let rest = (m.remainder)(x, turn);
        assert(m.is_remainder(value, x, turn, rest));
        let turns = choose|k: int|
            value(x) == #[trigger] times(k as real, value(turn)) + value(rest);
        lemma_times_whole(turns as real);
        let left = 90 * quarter - 360 * turns;
        assert(value(rest) == left as real);
        assert(left == 90 * (quarter % 4));
    }
    if 0 <= quarter < 4 {
        exact_whole(m, value, 90 * quarter);
        exact_whole(m, value, quarter);
        lemma_times_whole(value((m.quotient)(x, m.num(90, 0))));
        let found = (m.index)(x) as int;
        if (m.same)(x, m.num(quarter, 0)) {
            assert(found as real <= value(x) < (found + 1) as real);
        }
    }
}

proof fn lemma_total_is_not_negative<S: Copy>(m: Arithmetic<S>, pulls: Seq<S>, count: nat)
    requires
        m.is_orderly(),
    ensures
        !(m.exceeds)(m.zero(), total_pull(m, pulls, count)),
    decreases count,
{
    if count > 0 {
        lemma_total_is_not_negative(m, pulls, (count - 1) as nat);
    }
}

/// A total that is a number is one of numbers.
proof fn lemma_total_of_numbers<S: Copy>(m: Arithmetic<S>, pulls: Seq<S>, count: nat, k: int)
    requires
        m.is_orderly(),
        m.is_number(total_pull(m, pulls, count)),
        0 <= k < count,
    ensures
        m.is_number((m.magnitude)(pulls[k])),
    decreases count,
{
    if k < count - 1 {
        lemma_total_of_numbers(m, pulls, (count - 1) as nat, k);
    }
}

/// Where there is a pull at all, the strongest is one.
pub proof fn lemma_dominant_pulls<S: Copy>(m: Arithmetic<S>, pulls: Seq<S>, count: nat)
    requires
        m.is_orderly(),
        (m.exceeds)(total_pull(m, pulls, count), m.zero()),
    ensures
        0 <= dominant(m, pulls, count) < count,
        (m.exceeds)((m.magnitude)(pulls[dominant(m, pulls, count)]), m.zero()),
    decreases count,
{
    assert(count > 0);
    let k = count - 1;
    let last = (m.magnitude)(pulls[k]);
    let fewer = total_pull(m, pulls, k as nat);
    lemma_total_of_numbers(m, pulls, count, k);
    assert((m.exceeds)(fewer, m.zero()) || (m.exceeds)(last, m.zero()));
    if count > 1 {
        lemma_dominant_is_in_range(m, pulls, k as nat);
        let before = dominant(m, pulls, k as nat);
        if (m.exceeds)(fewer, m.zero()) {
            lemma_dominant_pulls(m, pulls, k as nat);
        }
        assert((m.exceeds)((m.magnitude)(pulls[before]), last) || dominant(m, pulls, count) == k);
    }
}

proof fn lemma_total_of_nothing<S: Copy>(m: Arithmetic<S>, pulls: Seq<S>, count: nat)
    requires
        m.has_unit_signs(),
        forall|k: int| 0 <= k < count ==> #[trigger] pulls[k] == m.zero(),
    ensures
        total_pull(m, pulls, count) == m.zero(),
    decreases count,
{
    if count > 0 {
        lemma_total_of_nothing(m, pulls, (count - 1) as nat);
        assert(pulls[count - 1] == m.zero());
    }
}

proof fn lemma_total_of_one<S: Copy>(m: Arithmetic<S>, pulls: Seq<S>, only: int, count: nat)
    requires
        m.has_unit_signs(),
        0 <= only < count,
        (m.exceeds)((m.magnitude)(pulls[only]), m.zero()),
        forall|k: int| 0 <= k < count && k != only ==> #[trigger] pulls[k] == m.zero(),
    ensures
        total_pull(m, pulls, count) == (m.magnitude)(pulls[only]),
    decreases count,
{
    let last = count - 1;
    if only == last {
        lemma_total_of_nothing(m, pulls, last as nat);
    } else {
        lemma_total_of_one(m, pulls, only, last as nat);
        assert(pulls[last] == m.zero());
    }
}

/// The three ranges of saturation stay between zero and one: the curve in the middle
/// does, and does not exceed the pull; so do the value for large pulls and the bound up
/// to which a pull counts as small.
pub open spec fn saturates_below_one<S: Copy>(m: Arithmetic<S>) -> bool {
    let one = m.num(1, 0);
    let full = (m.difference)(one, m.num(1, -9));
    &&& (m.exceeds)(one, full)
    &&& (m.exceeds)(full, m.zero())
    &&& (m.exceeds)(m.num(1000, 0), full)
    &&& (m.exceeds)(one, m.num(1, -3))
    &&& forall|pull: S|
        (m.exceeds)(pull, m.zero()) && !(m.exceeds)(pull, m.num(1000, 0)) && !(m.exceeds)(
            m.num(1, -3),
            pull,
        ) ==> {
            let curve = #[trigger] (m.quotient)(
                pull,
                (m.square_root)((m.sum)(one, (m.product)(pull, pull))),
            );
            &&& (m.exceeds)(one, curve)
            &&& (m.exceeds)(curve, m.zero())
            &&& !(m.exceeds)(curve, pull)
        }
}

/// A cell is never polarized in full, nor by more than it is pulled, be the pull
/// infinite.
pub proof fn saturation_stays_below_one<S: Copy>(m: Arithmetic<S>, pull: S)
    requires
        m.is_orderly(),
        saturates_below_one(m),
        (m.exceeds)(pull, m.zero()),
    ensures
        (m.exceeds)(saturated(m, pull), m.zero()),
        (m.exceeds)(m.num(1, 0), saturated(m, pull)),
        !(m.exceeds)(saturated(m, pull), pull),
{
    let full = (m.difference)(m.num(1, 0), m.num(1, -9));
    if (m.exceeds)(pull, m.num(1000, 0)) {
        assert((m.exceeds)(pull, full));
        if (m.exceeds)(full, pull) {
            assert((m.exceeds)(full, full));
        }
    }
}

/// The charge budget: the magnitudes of a cell's polarization together are what the
/// pulls together saturate at, which is below one and no more than the pulls. So each
/// component of it is a number below one.
pub proof fn response_keeps_the_charge_budget<S: Copy>(m: Arithmetic<S>, pulls: Seq<S>)
    requires
        m.is_orderly(),
        m.has_unit_signs(),
        saturates_below_one(m),
    ensures
        response(m, pulls).len() == pulls.len(),
        (m.exceeds)(total_pull(m, pulls, pulls.len()), m.zero()) ==> total_pull(
            m,
            response(m, pulls),
            pulls.len(),
        ) == saturated(m, total_pull(m, pulls, pulls.len())),
        !(m.exceeds)(total_pull(m, pulls, pulls.len()), m.zero()) ==> total_pull(
            m,
            response(m, pulls),
            pulls.len(),
        ) == m.zero(),
        (m.exceeds)(m.num(1, 0), total_pull(m, response(m, pulls), pulls.len())),
        !(m.exceeds)(
            total_pull(m, response(m, pulls), pulls.len()),
            total_pull(m, pulls, pulls.len()),
        ),
        forall|k: int|
            0 <= k < pulls.len() ==> (m.exceeds)(
                m.num(1, 0),
                (m.magnitude)(#[trigger] response(m, pulls)[k]),
            ),
{
    let count = pulls.len();
    let pull = total_pull(m, pulls, count);
    let answer = response(m, pulls);
    let full = (m.difference)(m.num(1, 0), m.num(1, -9));
    assert((m.exceeds)(m.num(1, 0), full) && (m.exceeds)(full, m.zero()));
    if (m.exceeds)(pull, m.zero()) {
        let found = dominant(m, pulls, count);
        lemma_dominant_pulls(m, pulls, count);
        saturation_stays_below_one(m, pull);
        assert((m.magnitude)(answer[found]) == saturated(m, pull));
        lemma_total_of_one(m, answer, found, count);
    } else {
        lemma_total_is_not_negative(m, pulls, count);
        lemma_total_of_nothing(m, answer, count);
    }
}

/// The charge budget of a cell that follows its neighbours.
pub proof fn cell_keeps_its_charge_budget<S: Copy>(
    m: Arithmetic<S>,
    state: ModelState<S>,
    index: QCACellIndex,
    k: int,
)
    requires
        m.is_orderly(),
        m.has_unit_signs(),
        saturates_below_one(m),
        0 <= k < state.components(index.layer as int),
    ensures
        ({
            let count = state.components(index.layer as int);
            let pull = total_pull(
                m,
                pulls(m, state.effective_field(m, index), state.clock_state(m, index)),
                count,
            );
            let polarization = state.calculated_polarization(m, index);
            &&& polarization.len() == count
            &&& (m.exceeds)(pull, m.zero()) ==> total_pull(m, polarization, count) == saturated(
                m,
                pull,
            )
            &&& !(m.exceeds)(pull, m.zero()) ==> total_pull(m, polarization, count) == m.zero()
            &&& (m.exceeds)(m.num(1, 0), total_pull(m, polarization, count))
            &&& !(m.exceeds)(total_pull(m, polarization, count), pull)
            &&& (m.exceeds)(m.num(1, 0), (m.magnitude)(polarization[k]))
        }),
{
    response_keeps_the_charge_budget(
        m,
        pulls(m, state.effective_field(m, index), state.clock_state(m, index)),
    );
}

/// The curve in the middle, in exact arithmetic.
pub proof fn lemma_exact_curve<S: Copy>(m: Arithmetic<S>, value: spec_fn(S) -> real, pull: S)
    requires
        m.is_exact(value),
        value(pull) > 0real,
    ensures
        0real < value(
            (m.quotient)(
                pull,
                (m.square_root)((m.sum)(m.num(1, 0), (m.product)(pull, pull))),
            ),
        ) < 1real,
        value(
            (m.quotient)(
                pull,
                (m.square_root)((m.sum)(m.num(1, 0), (m.product)(pull, pull))),
            ),
        ) <= value(pull),
{
    exact_whole(m, value, 1);
    let amount = value(pull);
    let root = (m.square_root)((m.sum)(m.num(1, 0), (m.product)(pull, pull)));
    let r = value(root);
    let q = value((m.quotient)(pull, root));
    times_keeps_order(0real, amount, amount);
    times_commutes(0real, amount);
    times_of_one(amount);
    assert(times(r, r) == 1real + times(amount, amount));
    times_commutes(r, amount);
    if r <= amount {
        times_keeps_order(r, amount, r);
        times_keeps_order(r, amount, amount);
    }
    times_of_one(r);
    times_commutes(1real, r);
    times_commutes(0real, r);
    if r < 1real {
        times_keeps_order(r, 1real, r);
    }
    assert(times(q, r) == amount);
    if q >= 1real {
        times_keeps_order(1real, q, r);
    }
    if q <= 0real {
        times_keeps_order(q, 0real, r);
    }
    if q > amount {
        times_keeps_order(amount, q, r);
        times_keeps_order(1real, r, amount);
        times_commutes(1real, amount);
    }
}

/// Exact arithmetic saturates below one.
pub proof fn exact_arithmetic_saturates_below_one<S: Copy>(
    m: Arithmetic<S>,
    value: spec_fn(S) -> real,
)
    requires
        m.is_exact(value),
    ensures
        saturates_below_one(m),
{
    exact_zero(m, value);
    exact_whole(m, value, 1);
    exact_whole(m, value, 1000);
    reveal_with_fuel(pow, 10);
    exact_fraction(m, value, 1, 9);
    exact_fraction(m, value, 1, 3);
    assert forall|pull: S|
        (m.exceeds)(pull, m.zero()) && !(m.exceeds)(pull, m.num(1000, 0)) && !(m.exceeds)(
            m.num(1, -3),
            pull,
        ) implies {
        let curve = #[trigger] (m.quotient)(
            pull,
            (m.square_root)((m.sum)(m.num(1, 0), (m.product)(pull, pull))),
        );
        &&& (m.exceeds)(m.num(1, 0), curve)
        &&& (m.exceeds)(curve, m.zero())
        &&& !(m.exceeds)(curve, pull)
    } by {
        lemma_exact_curve(m, value, pull);
    }
}

proof fn lemma_exact_total_covers<S: Copy>(
    m: Arithmetic<S>,
    value: spec_fn(S) -> real,
    pulls: Seq<S>,
    count: nat,
    k: int,
)
    requires
        m.is_exact(value),
        0 <= k < count,
    ensures
        value(total_pull(m, pulls, count)) >= size(value(pulls[k])),
    decreases count,
{
    exact_zero(m, value);
    if k == count - 1 {
        exact_arithmetic_is_orderly(m, value);
        lemma_total_is_not_negative(m, pulls, (count - 1) as nat);
    } else {
        lemma_exact_total_covers(m, value, pulls, (count - 1) as nat, k);
    }
}

/// The component to which a cell commits is polarized the way it is pulled.
pub proof fn response_follows_the_strongest_pull<S: Copy>(
    m: Arithmetic<S>,
    value: spec_fn(S) -> real,
    pulls: Seq<S>,
)
    requires
        m.is_exact(value),
        pulls.len() > 0,
    ensures
        direction(value(response(m, pulls)[dominant(m, pulls, pulls.len())])) == direction(
            value(pulls[dominant(m, pulls, pulls.len())]),
        ),
{
    let count = pulls.len();
    let found = dominant(m, pulls, count);
    let pull = total_pull(m, pulls, count);
    exact_zero(m, value);
    exact_arithmetic_is_orderly(m, value);
    exact_arithmetic_saturates_below_one(m, value);
    if (m.exceeds)(pull, m.zero()) {
        lemma_dominant_pulls(m, pulls, count);
        saturation_stays_below_one(m, pull);
        direction_of_times(value((m.sign)(pulls[found])), value(saturated(m, pull)));
    } else {
        lemma_dominant_is_in_range(m, pulls, count);
        lemma_exact_total_covers(m, value, pulls, count, found);
    }
}

/// Each number of one list is the opposite of that in the other.
pub open spec fn are_opposite<S: Copy>(m: Arithmetic<S>, a: Seq<S>, b: Seq<S>) -> bool {
    &&& b.len() == a.len()
    &&& forall|k: int| 0 <= k < a.len() ==> #[trigger] m.is_opposite(a[k], b[k])
}

/// Opposite pulls are as strong: they have the same total, if that is a number, and
/// the same component has the strongest.
proof fn lemma_opposite_pulls<S: Copy>(m: Arithmetic<S>, a: Seq<S>, b: Seq<S>, count: nat)
    requires
        m.is_orderly(),
        m.is_even_about_zero(),
        are_opposite(m, a, b),
        count <= a.len(),
    ensures
        total_pull(m, b, count) == total_pull(m, a, count) || !m.is_number(
            total_pull(m, a, count),
        ) && !m.is_number(total_pull(m, b, count)),
        dominant(m, b, count) == dominant(m, a, count),
    decreases count,
{
    if count > 0 {
        let k = count - 1;
        lemma_opposite_pulls(m, a, b, k as nat);
        assert(m.is_opposite(a[k], b[k]));
        let last_a = (m.magnitude)(a[k]);
        let last_b = (m.magnitude)(b[k]);
        assert(last_a == last_b || !m.is_number(last_a) && !m.is_number(last_b));
        if count > 1 {
            lemma_dominant_is_in_range(m, a, k as nat);
            let before = dominant(m, a, k as nat);
            assert(m.is_opposite(a[before], b[before]));
            let before_a = (m.magnitude)(a[before]);
            let before_b = (m.magnitude)(b[before]);
            assert(before_a == before_b || !m.is_number(before_a) && !m.is_number(before_b));
            assert((m.exceeds)(before_a, last_a) == (m.exceeds)(before_b, last_b));
        }
    }
}

/// Opposite pulls polarize a cell the opposite way.
pub proof fn response_turns_with_the_pulls<S: Copy>(m: Arithmetic<S>, a: Seq<S>, b: Seq<S>)
    requires
        m.is_orderly(),
        m.is_even_about_zero(),
        are_opposite(m, a, b),
    ensures
        are_opposite(m, response(m, a), response(m, b)),
{
    let count = a.len();
    let pull = total_pull(m, a, count);
    let pull_b = total_pull(m, b, count);
    let answer = response(m, a);
    let answer_b = response(m, b);
    lemma_opposite_pulls(m, a, b, count);
    assert((m.exceeds)(pull, m.zero()) == (m.exceeds)(pull_b, m.zero()));
    if count > 0 && (m.exceeds)(pull, m.zero()) {
        let found = dominant(m, a, count);
        lemma_dominant_pulls(m, a, count);
        assert(m.is_opposite(a[found], b[found]));
        assert(m.is_opposite((m.sign)(a[found]), (m.sign)(b[found])));
        let amount = saturated(m, pull);
        assert(pull_b == pull);
        assert(m.is_opposite(
            (m.product)((m.sign)(a[found]), amount),
            (m.product)((m.sign)(b[found]), amount),
        ));
        assert forall|k: int| 0 <= k < count implies #[trigger] m.is_opposite(
            answer[k],
            answer_b[k],
        ) by {
            if k != found {
                assert(answer[k] == m.zero() && answer_b[k] == m.zero());
            }
        }
    }
}

proof fn lemma_opposite_weighed<S: Copy>(
    m: Arithmetic<S>,
    start_a: S,
    start_b: S,
    coupling: Seq<S>,
    a: Seq<S>,
    b: Seq<S>,
    count: nat,
)
    requires
        m.is_even_about_zero(),
        m.is_opposite(start_a, start_b),
        are_opposite(m, a, b),
        count <= a.len(),
    ensures
        m.is_opposite(
            weighed(m, start_a, coupling, a, count),
            weighed(m, start_b, coupling, b, count),
        ),
    decreases count,
{
    if count > 0 {
        let l = count - 1;
        lemma_opposite_weighed(m, start_a, start_b, coupling, a, b, l as nat);
        assert(m.is_opposite(a[l], b[l]));
        assert(m.is_opposite(
            (m.product)(coupling[l], a[l]),
            (m.product)(coupling[l], b[l]),
        ));
    }
}

/// Two models in which a cell has the same neighbours and the same clock signal, and
/// sees each neighbour the opposite way.
pub open spec fn sees_the_opposite<S: Copy>(
    m: Arithmetic<S>,
    a: ModelState<S>,
    b: ModelState<S>,
    index: QCACellIndex,
) -> bool {
    &&& b.neighbors(index) == a.neighbors(index)
    &&& b.components(index.layer as int) == a.components(index.layer as int)
    &&& b.clock_state(m, index) == a.clock_state(m, index)
    &&& forall|t: int|
        0 <= t < a.neighbors(index).len() ==> are_opposite(
            m,
            a.seen_polarization(m, (#[trigger] a.neighbors(index)[t]).cell_index),
            b.seen_polarization(m, a.neighbors(index)[t].cell_index),
        )
}

proof fn lemma_opposite_field<S: Copy>(
    m: Arithmetic<S>,
    a: ModelState<S>,
    b: ModelState<S>,
    index: QCACellIndex,
    component: int,
    count: nat,
)
    requires
        m.is_even_about_zero(),
        sees_the_opposite(m, a, b, index),
        count <= a.neighbors(index).len(),
    ensures
        m.is_opposite(
            a.field_component(m, index, component, count),
            b.field_component(m, index, component, count),
        ),
    decreases count,
{
    if count > 0 {
        let t = count - 1;
        let neighbor = a.neighbors(index)[t];
        let seen_a = a.seen_polarization(m, neighbor.cell_index);
        let seen_b = b.seen_polarization(m, neighbor.cell_index);
        lemma_opposite_field(m, a, b, index, component, t as nat);
        lemma_opposite_weighed(
            m,
            a.field_component(m, index, component, t as nat),
            b.field_component(m, index, component, t as nat),
            neighbor.kink_energy[component],
            seen_a,
            seen_b,
            seen_a.len(),
        );
    }
}

/// Turn all neighbours of a cell around, and it turns around: the model favours
/// neither side.
pub proof fn cell_turns_with_its_neighbors<S: Copy>(
    m: Arithmetic<S>,
    a: ModelState<S>,
    b: ModelState<S>,
    index: QCACellIndex,
)
    requires
        m.is_orderly(),
        m.is_even_about_zero(),
        m.divides_evenly((m.product)(m.num(2, 0), a.clock_state(m, index))),
        sees_the_opposite(m, a, b, index),
    ensures
        are_opposite(
            m,
            a.calculated_polarization(m, index),
            b.calculated_polarization(m, index),
        ),
{
    let clock_state = a.clock_state(m, index);
    let pulls_a = pulls(m, a.effective_field(m, index), clock_state);
    let pulls_b = pulls(m, b.effective_field(m, index), clock_state);
    assert forall|k: int| 0 <= k < pulls_a.len() implies #[trigger] m.is_opposite(
        pulls_a[k],
        pulls_b[k],
    ) by {
        lemma_opposite_field(m, a, b, index, k, a.neighbors(index).len());
    }
    response_turns_with_the_pulls(m, pulls_a, pulls_b);
}

/// In exact arithmetic a cell turns with its neighbours, where its clock signal is not
/// zero.
pub proof fn exact_cell_turns_with_its_neighbors<S: Copy>(
    m: Arithmetic<S>,
    value: spec_fn(S) -> real,
    a: ModelState<S>,
    b: ModelState<S>,
    index: QCACellIndex,
)
    requires
        m.is_exact(value),
        value(a.clock_state(m, index)) != 0real,
        sees_the_opposite(m, a, b, index),
    ensures
        are_opposite(
            m,
            a.calculated_polarization(m, index),
            b.calculated_polarization(m, index),
        ),
{
    let clock = (m.product)(m.num(2, 0), a.clock_state(m, index));
    exact_whole(m, value, 2);
    if value(clock) == 0real {
        times_is_zero(2real, value(a.clock_state(m, index)));
    }
    exact_arithmetic_is_orderly(m, value);
    exact_arithmetic_is_even_about_zero(m, value);
    exact_arithmetic_divides_evenly(m, value, clock);
    cell_turns_with_its_neighbors(m, a, b, index);
}

/// In exact arithmetic a cell keeps its charge budget.
pub proof fn exact_response_keeps_the_charge_budget<S: Copy>(
    m: Arithmetic<S>,
    value: spec_fn(S) -> real,
    pulls: Seq<S>,
)
    requires
        m.is_exact(value),
    ensures
        value(total_pull(m, response(m, pulls), pulls.len())) < 1real,
        value(total_pull(m, response(m, pulls), pulls.len())) <= value(
            total_pull(m, pulls, pulls.len()),
        ),
{
    exact_whole(m, value, 1);
    exact_arithmetic_is_orderly(m, value);
    exact_arithmetic_has_unit_signs(m, value);
    exact_arithmetic_saturates_below_one(m, value);
    response_keeps_the_charge_budget(m, pulls);
}

} // verus!
