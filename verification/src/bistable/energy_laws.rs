//! What kink energies depend on.

use vstd::prelude::*;

use super::geometry::{
    motion_keeps_distances, motion_takes_dots_along, point, scaled, scaling_scales_distances,
    scaling_takes_dots_along, Motion,
};
use super::kink::{
    dipoles, distance, dot_energy, dot_places, energy_factor, interaction, kink_energy,
    levelled_energy, pair_energy, place, raw_energy, shared_components, strongest, Site,
};
use crate::exact::{direction, direction_of_times, exact_fraction, exact_whole, exact_zero, size};
use crate::numerics::Arithmetic;
use crate::reals::{
    quotient_shrinks, times, times_associates, times_commutes, times_distributes, times_is_zero,
    times_keeps_order, times_of_negation, times_of_one,
};
use crate::rounding::exact_arithmetic_splits_magnitudes;

verus! {

/// A kink energy is not zero only where the Coulomb sum of the components is not zero,
/// unless the permittivity makes a number other than zero of zero.
pub proof fn nothing_comes_of_no_sum<S: Copy>(
    m: Arithmetic<S>,
    a: Site<S>,
    b: Site<S>,
    component: int,
    permitivity: S,
)
    requires
        m.is_zero((m.product)(energy_factor(m, permitivity), m.zero())),
        !m.is_zero(kink_energy(m, a, component, b, component, permitivity)),
    ensures
        !m.is_zero(raw_energy(m, a, component, b, component)),
{
}

/// Like components weigh alike: the kink energies of two components, each with its
/// like, have the same magnitude, whatever their own Coulomb sums, unless one of
/// these is zero.
pub proof fn like_components_weigh_alike<S: Copy>(
    m: Arithmetic<S>,
    a: Site<S>,
    b: Site<S>,
    first: int,
    second: int,
    permitivity: S,
)
    requires
        m.splits_magnitudes(),
        m.is_number(raw_energy(m, a, first, b, first)),
        m.is_number(raw_energy(m, a, second, b, second)),
        !m.is_zero(raw_energy(m, a, first, b, first)),
        !m.is_zero(raw_energy(m, a, second, b, second)),
        m.is_number(kink_energy(m, a, first, b, first, permitivity)),
        m.is_number(kink_energy(m, a, second, b, second, permitivity)),
    ensures
        (m.magnitude)(kink_energy(m, a, first, b, first, permitivity)) == (m.magnitude)(
            kink_energy(m, a, second, b, second, permitivity),
        ),
{
    let count = shared_components(a, b);
    let sign = (m.sign)(raw_energy(m, a, first, b, first));
    let other_sign = (m.sign)(raw_energy(m, a, second, b, second));
    assert((m.magnitude)((m.negation)(sign)) == (m.magnitude)((m.negation)(other_sign)));
    assert(m.is_number((m.product)((m.negation)(sign), strongest(m, a, b, count))));
    assert(m.is_number((m.product)((m.negation)(other_sign), strongest(m, a, b, count))));
}

/// In exact arithmetic, like components weigh alike without more ado.
pub proof fn exact_like_components_weigh_alike<S: Copy>(
    m: Arithmetic<S>,
    value: spec_fn(S) -> real,
    a: Site<S>,
    b: Site<S>,
    first: int,
    second: int,
    permitivity: S,
)
    requires
        m.is_exact(value),
        !m.is_zero(raw_energy(m, a, first, b, first)),
        !m.is_zero(raw_energy(m, a, second, b, second)),
    ensures
        (m.magnitude)(kink_energy(m, a, first, b, first, permitivity)) == (m.magnitude)(
            kink_energy(m, a, second, b, second, permitivity),
        ),
{
    exact_arithmetic_splits_magnitudes(m, value);
    like_components_weigh_alike(m, a, b, first, second, permitivity);
}

proof fn lemma_strongest_is_something<S: Copy>(
    m: Arithmetic<S>,
    a: Site<S>,
    b: Site<S>,
    count: nat,
    c: int,
)
    requires
        m.multiplies_signs(),
        0 <= c < count,
        m.is_number(raw_energy(m, a, c, b, c)),
        !m.is_zero(raw_energy(m, a, c, b, c)),
    ensures
        (m.exceeds)(strongest(m, a, b, count), m.zero()),
    decreases count,
{
    if c < count - 1 {
        lemma_strongest_is_something(m, a, b, (count - 1) as nat, c);
    }
}

/// A coupling of like components has the sign of its own Coulomb sum where the
/// permittivity makes the factor negative, and the opposite sign where it makes it
/// positive. No other component has a say in it.
pub proof fn coupling_takes_the_sign_of_its_sum<S: Copy>(
    m: Arithmetic<S>,
    a: Site<S>,
    b: Site<S>,
    component: int,
    permitivity: S,
)
    requires
        m.multiplies_signs(),
        0 <= component < shared_components(a, b),
        m.is_number(raw_energy(m, a, component, b, component)),
        !m.is_zero(raw_energy(m, a, component, b, component)),
        m.is_number(energy_factor(m, permitivity)),
        !m.is_zero(energy_factor(m, permitivity)),
        m.is_number(kink_energy(m, a, component, b, component, permitivity)),
    ensures
        (m.sign)(energy_factor(m, permitivity)) == m.num(-1, 0) ==> (m.sign)(
            kink_energy(m, a, component, b, component, permitivity),
        ) == (m.sign)(raw_energy(m, a, component, b, component)),
        (m.sign)(energy_factor(m, permitivity)) == m.num(1, 0) ==> (m.sign)(
            kink_energy(m, a, component, b, component, permitivity),
        ) == (m.negation)((m.sign)(raw_energy(m, a, component, b, component))),
{
    let own = raw_energy(m, a, component, b, component);
    let count = shared_components(a, b);
    let most = strongest(m, a, b, count);
    lemma_strongest_is_something(m, a, b, count, component);
    assert((m.sign)(most) == m.num(1, 0));
    let turned = (m.negation)((m.sign)(own));
    assert((m.sign)(own) == m.num(1, 0) || (m.sign)(own) == m.num(-1, 0));
    let levelled = (m.product)(turned, most);
    assert(m.is_number(levelled) && !m.is_zero(levelled));
    assert((m.sign)(turned) == turned);
    assert(m.is_number(turned));
    assert((m.sign)(levelled) == turned);
    assert(kink_energy(m, a, component, b, component, permitivity) == (m.product)(
        energy_factor(m, permitivity),
        levelled,
    ));
}

/// Two couplings of like components agree in sign exactly where their own Coulomb
/// sums do.
pub proof fn like_couplings_agree_as_their_sums_do<S: Copy>(
    m: Arithmetic<S>,
    a: Site<S>,
    b: Site<S>,
    first: int,
    second: int,
    permitivity: S,
)
    requires
        m.multiplies_signs(),
        0 <= first < shared_components(a, b),
        0 <= second < shared_components(a, b),
        m.is_number(raw_energy(m, a, first, b, first)),
        m.is_number(raw_energy(m, a, second, b, second)),
        !m.is_zero(raw_energy(m, a, first, b, first)),
        !m.is_zero(raw_energy(m, a, second, b, second)),
        m.is_number(energy_factor(m, permitivity)),
        !m.is_zero(energy_factor(m, permitivity)),
        m.is_number(kink_energy(m, a, first, b, first, permitivity)),
        m.is_number(kink_energy(m, a, second, b, second, permitivity)),
    ensures
        (m.sign)(kink_energy(m, a, first, b, first, permitivity)) == (m.sign)(
            kink_energy(m, a, second, b, second, permitivity),
        ) <==> (m.sign)(raw_energy(m, a, first, b, first)) == (m.sign)(
            raw_energy(m, a, second, b, second),
        ),
{
    coupling_takes_the_sign_of_its_sum(m, a, b, first, permitivity);
    coupling_takes_the_sign_of_its_sum(m, a, b, second, permitivity);
    assert((m.sign)(energy_factor(m, permitivity)) == m.num(1, 0) || (m.sign)(
        energy_factor(m, permitivity),
    ) == m.num(-1, 0));
    assert((m.sign)(raw_energy(m, a, first, b, first)) == m.num(1, 0) || (m.sign)(
        raw_energy(m, a, first, b, first),
    ) == m.num(-1, 0));
    assert((m.sign)(raw_energy(m, a, second, b, second)) == m.num(1, 0) || (m.sign)(
        raw_energy(m, a, second, b, second),
    ) == m.num(-1, 0));
}

pub proof fn lemma_strongest_is_not_weaker<S: Copy>(
    m: Arithmetic<S>,
    value: spec_fn(S) -> real,
    a: Site<S>,
    b: Site<S>,
    count: nat,
    c: int,
)
    requires
        m.is_exact(value),
        0 <= c < count,
    ensures
        value(strongest(m, a, b, count)) >= size(value(raw_energy(m, a, c, b, c))),
    decreases count,
{
    if c < count - 1 {
        lemma_strongest_is_not_weaker(m, value, a, b, (count - 1) as nat, c);
    }
}

/// In exact arithmetic, a coupling of like components has the sign of its own Coulomb
/// sum where the permittivity is positive, and the opposite one where it is negative,
/// be the sum zero.
pub proof fn exact_coupling_keeps_the_sign_of_its_sum<S: Copy>(
    m: Arithmetic<S>,
    value: spec_fn(S) -> real,
    a: Site<S>,
    b: Site<S>,
    component: int,
    permitivity: S,
)
    requires
        m.is_exact(value),
        0 <= component < shared_components(a, b),
    ensures
        value(permitivity) > 0real ==> direction(
            value(kink_energy(m, a, component, b, component, permitivity)),
        ) == direction(value(raw_energy(m, a, component, b, component))),
        value(permitivity) < 0real ==> direction(
            value(kink_energy(m, a, component, b, component, permitivity)),
        ) == -direction(value(raw_energy(m, a, component, b, component))),
{
    let constant = m.num(111_265_005_597_565_794_635_320_037_482, -39);
    let own = raw_energy(m, a, component, b, component);
    let count = shared_components(a, b);
    let divisor = (m.product)(constant, permitivity);
    let inverse = (m.quotient)(m.num(1, 0), divisor);
    exact_zero(m, value);
    exact_whole(m, value, 1);
    exact_fraction(m, value, 111_265_005_597_565_794_635_320_037_482, 39);
    direction_of_times(value(constant), value(permitivity));
    times_commutes(value(inverse), value(divisor));
    direction_of_times(value(divisor), value(inverse));
    lemma_strongest_is_not_weaker(m, value, a, b, count, component);
    let factor = (m.negation)((m.sign)(own));
    direction_of_times(value(factor), value(strongest(m, a, b, count)));
    direction_of_times(
        value((m.negation)(inverse)),
        value(levelled_energy(m, a, component, b, component)),
    );
}

/// In exact arithmetic, two couplings of like components agree in sign exactly where
/// their own Coulomb sums do, be one of these zero.
pub proof fn exact_like_couplings_agree_as_their_sums_do<S: Copy>(
    m: Arithmetic<S>,
    value: spec_fn(S) -> real,
    a: Site<S>,
    b: Site<S>,
    first: int,
    second: int,
    permitivity: S,
)
    requires
        m.is_exact(value),
        0 <= first < shared_components(a, b),
        0 <= second < shared_components(a, b),
        value(permitivity) != 0real,
    ensures
        direction(value(kink_energy(m, a, first, b, first, permitivity))) == direction(
            value(kink_energy(m, a, second, b, second, permitivity)),
        ) <==> direction(value(raw_energy(m, a, first, b, first))) == direction(
            value(raw_energy(m, a, second, b, second)),
        ),
{
    exact_coupling_keeps_the_sign_of_its_sum(m, value, a, b, first, permitivity);
    exact_coupling_keeps_the_sign_of_its_sum(m, value, a, b, second, permitivity);
}

/// The kink energy goes inversely with the permittivity: `factor` times the
/// permittivity, and the energy is `factor` times smaller.
pub proof fn energy_goes_inversely_with_permittivity<S: Copy>(
    m: Arithmetic<S>,
    value: spec_fn(S) -> real,
    a: Site<S>,
    component_a: int,
    b: Site<S>,
    component_b: int,
    permitivity: S,
    other: S,
    factor: real,
)
    requires
        m.is_exact(value),
        value(permitivity) != 0real,
        factor != 0real,
        value(other) == times(value(permitivity), factor),
    ensures
        value(kink_energy(m, a, component_a, b, component_b, permitivity)) == times(
            value(kink_energy(m, a, component_a, b, component_b, other)),
            factor,
        ),
{
    let constant = m.num(111_265_005_597_565_794_635_320_037_482, -39);
    let divisor = (m.product)(constant, permitivity);
    let other_divisor = (m.product)(constant, other);
    let inverse = (m.quotient)(m.num(1, 0), divisor);
    let other_inverse = (m.quotient)(m.num(1, 0), other_divisor);
    exact_fraction(m, value, 111_265_005_597_565_794_635_320_037_482, 39);
    let c = value(constant);
    let p = value(permitivity);
    times_associates(c, p, factor);
    if times(c, p) == 0real {
        times_is_zero(c, p);
    }
    if times(times(c, p), factor) == 0real {
        times_is_zero(times(c, p), factor);
    }
    quotient_shrinks(value(inverse), value(other_inverse), times(c, p), factor);
    let energy = value(levelled_energy(m, a, component_a, b, component_b));
    let x = -value(other_inverse);
    times_of_negation(value(other_inverse), factor);
    times_associates(x, factor, energy);
    times_commutes(factor, energy);
    times_associates(x, energy, factor);
}

proof fn lemma_dot_energy_by_distances<S: Copy>(
    m: Arithmetic<S>,
    start: S,
    dipole: S,
    place: (S, S),
    place2: (S, S),
    dipoles: Seq<S>,
    places: Seq<(S, S)>,
    places2: Seq<(S, S)>,
    count: nat,
)
    requires
        forall|j: int|
            0 <= j < count ==> distance(m, place, #[trigger] places[j]) == distance(
                m,
                place2,
                places2[j],
            ),
    ensures
        dot_energy(m, start, dipole, place, dipoles, places, count) == dot_energy(
            m,
            start,
            dipole,
            place2,
            dipoles,
            places2,
            count,
        ),
    decreases count,
{
    if count > 0 {
        let j = count - 1;
        lemma_dot_energy_by_distances(
            m,
            start,
            dipole,
            place,
            place2,
            dipoles,
            places,
            places2,
            j as nat,
        );
        assert(distance(m, place, places[j]) == distance(m, place2, places2[j]));
    }
}

proof fn lemma_pair_energy_by_distances<S: Copy>(
    m: Arithmetic<S>,
    dipoles_a: Seq<S>,
    places_a: Seq<(S, S)>,
    places_a2: Seq<(S, S)>,
    dipoles_b: Seq<S>,
    places_b: Seq<(S, S)>,
    places_b2: Seq<(S, S)>,
    count: nat,
)
    requires
        forall|i: int, j: int|
            0 <= i < count && 0 <= j < dipoles_b.len() ==> distance(
                m,
                #[trigger] places_a[i],
                #[trigger] places_b[j],
            ) == distance(m, places_a2[i], places_b2[j]),
    ensures
        pair_energy(m, dipoles_a, places_a, dipoles_b, places_b, count) == pair_energy(
            m,
            dipoles_a,
            places_a2,
            dipoles_b,
            places_b2,
            count,
        ),
    decreases count,
{
    if count > 0 {
        let i = count - 1;
        lemma_pair_energy_by_distances(
            m,
            dipoles_a,
            places_a,
            places_a2,
            dipoles_b,
            places_b,
            places_b2,
            i as nat,
        );
        lemma_dot_energy_by_distances(
            m,
            pair_energy(m, dipoles_a, places_a, dipoles_b, places_b, i as nat),
            dipoles_a[i],
            places_a[i],
            places_a2[i],
            dipoles_b,
            places_b,
            places_b2,
            dipoles_b.len(),
        );
    }
}

/// A rigid motion of two cells, one that moves both alike.
pub open spec fn moves_both<S: Copy>(
    m: Arithmetic<S>,
    value: spec_fn(S) -> real,
    motion: Motion,
    a: Site<S>,
    moved_a: Site<S>,
    b: Site<S>,
    moved_b: Site<S>,
) -> bool {
    &&& motion.is_rigid()
    &&& moved_a.architecture == a.architecture
    &&& moved_b.architecture == b.architecture
    &&& motion.moves(m, value, a.cell, moved_a.cell)
    &&& motion.moves(m, value, b.cell, moved_b.cell)
}

proof fn lemma_motion_keeps_sums<S: Copy>(
    m: Arithmetic<S>,
    value: spec_fn(S) -> real,
    motion: Motion,
    a: Site<S>,
    moved_a: Site<S>,
    component_a: int,
    b: Site<S>,
    moved_b: Site<S>,
    component_b: int,
)
    requires
        m.is_exact(value),
        moves_both(m, value, motion, a, moved_a, b, moved_b),
    ensures
        raw_energy(m, moved_a, component_a, moved_b, component_b) == raw_energy(
            m,
            a,
            component_a,
            b,
            component_b,
        ),
{
    let places_a = dot_places(m, a.cell, a.architecture);
    let places_b = dot_places(m, b.cell, b.architecture);
    let places_a2 = dot_places(m, moved_a.cell, a.architecture);
    let places_b2 = dot_places(m, moved_b.cell, b.architecture);
    assert forall|i: int, j: int|
        0 <= i < a.architecture.dot_count && 0 <= j < b.architecture.dot_count implies distance(
        m,
        #[trigger] places_a[i],
        #[trigger] places_b[j],
    ) == distance(m, places_a2[i], places_b2[j]) by {
        let dot_a = place(a.architecture.dot_positions[i]);
        let dot_b = place(b.architecture.dot_positions[j]);
        motion_takes_dots_along(m, value, motion, a.cell, moved_a.cell, dot_a);
        motion_takes_dots_along(m, value, motion, b.cell, moved_b.cell, dot_b);
        motion_keeps_distances(
            m,
            value,
            motion,
            places_a[i],
            places_b[j],
            places_a2[i],
            places_b2[j],
        );
    }
    lemma_pair_energy_by_distances(
        m,
        dipoles(m, a.architecture, component_a),
        places_a,
        places_a2,
        dipoles(m, b.architecture, component_b),
        places_b,
        places_b2,
        a.architecture.dot_count,
    );
}

proof fn lemma_motion_keeps_the_strongest<S: Copy>(
    m: Arithmetic<S>,
    value: spec_fn(S) -> real,
    motion: Motion,
    a: Site<S>,
    moved_a: Site<S>,
    b: Site<S>,
    moved_b: Site<S>,
    count: nat,
)
    requires
        m.is_exact(value),
        moves_both(m, value, motion, a, moved_a, b, moved_b),
    ensures
        strongest(m, moved_a, moved_b, count) == strongest(m, a, b, count),
    decreases count,
{
    if count > 0 {
        let c = count - 1;
        lemma_motion_keeps_the_strongest(m, value, motion, a, moved_a, b, moved_b, c as nat);
        lemma_motion_keeps_sums(m, value, motion, a, moved_a, c, b, moved_b, c);
    }
}

/// Where two cells stand and how they are turned does not matter, only how they
/// stand to each other: a common rigid motion leaves the kink energy as it was.
pub proof fn motion_keeps_the_energy<S: Copy>(
    m: Arithmetic<S>,
    value: spec_fn(S) -> real,
    motion: Motion,
    a: Site<S>,
    moved_a: Site<S>,
    component_a: int,
    b: Site<S>,
    moved_b: Site<S>,
    component_b: int,
    permitivity: S,
)
    requires
        m.is_exact(value),
        moves_both(m, value, motion, a, moved_a, b, moved_b),
    ensures
        kink_energy(m, moved_a, component_a, moved_b, component_b, permitivity) == kink_energy(
            m,
            a,
            component_a,
            b,
            component_b,
            permitivity,
        ),
{
    lemma_motion_keeps_sums(m, value, motion, a, moved_a, component_a, b, moved_b, component_b);
    lemma_motion_keeps_the_strongest(
        m,
        value,
        motion,
        a,
        moved_a,
        b,
        moved_b,
        shared_components(a, b),
    );
}

/// The dots of two cells that carry dipoles of the given components do not coincide.
pub open spec fn are_apart<S: Copy>(
    m: Arithmetic<S>,
    value: spec_fn(S) -> real,
    a: Site<S>,
    component_a: int,
    b: Site<S>,
    component_b: int,
) -> bool {
    let dipoles_a = dipoles(m, a.architecture, component_a);
    let dipoles_b = dipoles(m, b.architecture, component_b);
    let places_a = dot_places(m, a.cell, a.architecture);
    let places_b = dot_places(m, b.cell, b.architecture);
    forall|i: int, j: int|
        #![trigger places_a[i], places_b[j]]
        0 <= i < a.architecture.dot_count && 0 <= j < b.architecture.dot_count && !m.is_zero(
            dipoles_a[i],
        ) && !m.is_zero(dipoles_b[j]) ==> value(distance(m, places_a[i], places_b[j])) != 0real
}

/// A cell of another size: its centre and the places of its dots are all `s` times as
/// far out.
pub open spec fn is_scaled<S: Copy>(
    value: spec_fn(S) -> real,
    s: real,
    before: Site<S>,
    after: Site<S>,
) -> bool {
    &&& after.architecture.dot_count == before.architecture.dot_count
    &&& after.cell.rotation == before.cell.rotation
    &&& point(value, place(after.cell.position)) == scaled(
        point(value, place(before.cell.position)),
        s,
    )
    &&& forall|i: int|
        0 <= i < before.architecture.dot_count ==> point(
            value,
            place(#[trigger] after.architecture.dot_positions[i]),
        ) == scaled(point(value, place(before.architecture.dot_positions[i])), s)
}

proof fn lemma_scaled_interaction<S: Copy>(
    m: Arithmetic<S>,
    value: spec_fn(S) -> real,
    s: real,
    dipole_a: S,
    dipole_b: S,
    p: (S, S),
    q: (S, S),
    p2: (S, S),
    q2: (S, S),
)
    requires
        m.is_exact(value),
        s > 0real,
        value(distance(m, p, q)) != 0real,
        value(distance(m, p2, q2)) == times(value(distance(m, p, q)), s),
    ensures
        value(interaction(m, dipole_a, p, dipole_b, q)) == times(
            value(interaction(m, dipole_a, p2, dipole_b, q2)),
            s,
        ),
{
    let nano = value(m.num(1, -9));
    let d = value(distance(m, p, q));
    exact_fraction(m, value, 1, 9);
    if times(nano, d) == 0real {
        times_is_zero(nano, d);
    }
    if times(times(nano, d), s) == 0real {
        times_is_zero(times(nano, d), s);
    }
    times_associates(nano, d, s);
    quotient_shrinks(
        value(interaction(m, dipole_a, p, dipole_b, q)),
        value(interaction(m, dipole_a, p2, dipole_b, q2)),
        times(nano, d),
        s,
    );
}

proof fn lemma_scaled_dot_energy<S: Copy>(
    m: Arithmetic<S>,
    value: spec_fn(S) -> real,
    s: real,
    start: S,
    start2: S,
    dipole: S,
    place: (S, S),
    place2: (S, S),
    dipoles: Seq<S>,
    places: Seq<(S, S)>,
    places2: Seq<(S, S)>,
    count: nat,
)
    requires
        m.is_exact(value),
        s > 0real,
        value(start) == times(value(start2), s),
        forall|j: int|
            0 <= j < count ==> value(distance(m, place2, places2[j])) == times(
                value(distance(m, place, #[trigger] places[j])),
                s,
            ),
        forall|j: int|
            0 <= j < count && !m.is_zero(dipoles[j]) ==> value(
                distance(m, place, #[trigger] places[j]),
            ) != 0real,
    ensures
        value(dot_energy(m, start, dipole, place, dipoles, places, count)) == times(
            value(dot_energy(m, start2, dipole, place2, dipoles, places2, count)),
            s,
        ),
    decreases count,
{
    if count > 0 {
        let j = count - 1;
        lemma_scaled_dot_energy(
            m,
            value,
            s,
            start,
            start2,
            dipole,
            place,
            place2,
            dipoles,
            places,
            places2,
            j as nat,
        );
        assert(value(distance(m, place2, places2[j])) == times(
            value(distance(m, place, places[j])),
            s,
        ));
        if !m.is_zero(dipoles[j]) {
            lemma_scaled_interaction(
                m,
                value,
                s,
                dipole,
                dipoles[j],
                place,
                places[j],
                place2,
                places2[j],
            );
            times_distributes(
                value(dot_energy(m, start2, dipole, place2, dipoles, places2, j as nat)),
                value(interaction(m, dipole, place2, dipoles[j], places2[j])),
                s,
            );
        }
    }
}

proof fn lemma_scaled_pair_energy<S: Copy>(
    m: Arithmetic<S>,
    value: spec_fn(S) -> real,
    s: real,
    dipoles_a: Seq<S>,
    places_a: Seq<(S, S)>,
    places_a2: Seq<(S, S)>,
    dipoles_b: Seq<S>,
    places_b: Seq<(S, S)>,
    places_b2: Seq<(S, S)>,
    count: nat,
)
    requires
        m.is_exact(value),
        s > 0real,
        forall|i: int, j: int|
            #![trigger places_a[i], places_b[j]]
            0 <= i < count && 0 <= j < dipoles_b.len() ==> value(
                distance(m, places_a2[i], places_b2[j]),
            ) == times(value(distance(m, places_a[i], places_b[j])), s),
        forall|i: int, j: int|
            #![trigger places_a[i], places_b[j]]
            0 <= i < count && 0 <= j < dipoles_b.len() && !m.is_zero(dipoles_a[i]) && !m.is_zero(
                dipoles_b[j],
            ) ==> value(distance(m, places_a[i], places_b[j])) != 0real,
    ensures
        value(pair_energy(m, dipoles_a, places_a, dipoles_b, places_b, count)) == times(
            value(pair_energy(m, dipoles_a, places_a2, dipoles_b, places_b2, count)),
            s,
        ),
    decreases count,
{
    if count == 0 {
        exact_zero(m, value);
        times_commutes(0real, s);
        times_of_one(s);
    } else {
        let i = count - 1;
        lemma_scaled_pair_energy(
            m,
            value,
            s,
            dipoles_a,
            places_a,
            places_a2,
            dipoles_b,
            places_b,
            places_b2,
            i as nat,
        );
        if !m.is_zero(dipoles_a[i]) {
            lemma_scaled_dot_energy(
                m,
                value,
                s,
                pair_energy(m, dipoles_a, places_a, dipoles_b, places_b, i as nat),
                pair_energy(m, dipoles_a, places_a2, dipoles_b, places_b2, i as nat),
                dipoles_a[i],
                places_a[i],
                places_a2[i],
                dipoles_b,
                places_b,
                places_b2,
                dipoles_b.len(),
            );
        }
    }
}

/// In cells that are `s` times as large and as far apart, the Coulomb sum is `s` times
/// smaller.
pub proof fn scaling_divides_the_sum<S: Copy>(
    m: Arithmetic<S>,
    value: spec_fn(S) -> real,
    s: real,
    a: Site<S>,
    scaled_a: Site<S>,
    component_a: int,
    b: Site<S>,
    scaled_b: Site<S>,
    component_b: int,
)
    requires
        m.is_exact(value),
        s > 0real,
        is_scaled(value, s, a, scaled_a),
        is_scaled(value, s, b, scaled_b),
        are_apart(m, value, a, component_a, b, component_b),
    ensures
        value(raw_energy(m, a, component_a, b, component_b)) == times(
            value(raw_energy(m, scaled_a, component_a, scaled_b, component_b)),
            s,
        ),
{
    let places_a = dot_places(m, a.cell, a.architecture);
    let places_b = dot_places(m, b.cell, b.architecture);
    let places_a2 = dot_places(m, scaled_a.cell, scaled_a.architecture);
    let places_b2 = dot_places(m, scaled_b.cell, scaled_b.architecture);
    assert forall|i: int, j: int|
        #![trigger places_a[i], places_b[j]]
        0 <= i < a.architecture.dot_count && 0 <= j < b.architecture.dot_count implies value(
        distance(m, places_a2[i], places_b2[j]),
    ) == times(value(distance(m, places_a[i], places_b[j])), s) by {
        scaling_takes_dots_along(
            m,
            value,
            s,
            a.cell,
            scaled_a.cell,
            place(a.architecture.dot_positions[i]),
            place(scaled_a.architecture.dot_positions[i]),
        );
        scaling_takes_dots_along(
            m,
            value,
            s,
            b.cell,
            scaled_b.cell,
            place(b.architecture.dot_positions[j]),
            place(scaled_b.architecture.dot_positions[j]),
        );
        scaling_scales_distances(
            m,
            value,
            s,
            places_a[i],
            places_b[j],
            places_a2[i],
            places_b2[j],
        );
    }
    let dipoles_a = dipoles(m, a.architecture, component_a);
    let dipoles_b = dipoles(m, b.architecture, component_b);
    assert(dipoles(m, scaled_a.architecture, component_a) == dipoles_a);
    assert(dipoles(m, scaled_b.architecture, component_b) == dipoles_b);
    lemma_scaled_pair_energy(
        m,
        value,
        s,
        dipoles_a,
        places_a,
        places_a2,
        dipoles_b,
        places_b,
        places_b2,
        a.architecture.dot_count,
    );
}

proof fn lemma_scaled_strongest<S: Copy>(
    m: Arithmetic<S>,
    value: spec_fn(S) -> real,
    s: real,
    a: Site<S>,
    scaled_a: Site<S>,
    b: Site<S>,
    scaled_b: Site<S>,
    count: nat,
)
    requires
        m.is_exact(value),
        s > 0real,
        is_scaled(value, s, a, scaled_a),
        is_scaled(value, s, b, scaled_b),
        forall|c: int| 0 <= c < count ==> #[trigger] are_apart(m, value, a, c, b, c),
    ensures
        value(strongest(m, a, b, count)) == times(
            value(strongest(m, scaled_a, scaled_b, count)),
            s,
        ),
    decreases count,
{
    if count == 0 {
        exact_zero(m, value);
        times_commutes(0real, s);
        times_of_one(s);
    } else {
        let c = count - 1;
        lemma_scaled_strongest(m, value, s, a, scaled_a, b, scaled_b, c as nat);
        assert(are_apart(m, value, a, c, b, c));
        scaling_divides_the_sum(m, value, s, a, scaled_a, c, b, scaled_b, c);
        let x = value(strongest(m, scaled_a, scaled_b, c as nat));
        let own = value(raw_energy(m, scaled_a, c, scaled_b, c));
        direction_of_times(own, s);
        if x >= size(own) {
            times_keeps_order(size(own), x, s);
        } else {
            times_keeps_order(x, size(own), s);
        }
    }
}

/// In cells that are `s` times as large and as far apart, the kink energy is `s` times
/// smaller.
pub proof fn scaling_divides_the_energy<S: Copy>(
    m: Arithmetic<S>,
    value: spec_fn(S) -> real,
    s: real,
    a: Site<S>,
    scaled_a: Site<S>,
    component_a: int,
    b: Site<S>,
    scaled_b: Site<S>,
    component_b: int,
    permitivity: S,
)
    requires
        m.is_exact(value),
        s > 0real,
        is_scaled(value, s, a, scaled_a),
        is_scaled(value, s, b, scaled_b),
        are_apart(m, value, a, component_a, b, component_b),
        component_a == component_b ==> forall|c: int|
            0 <= c < shared_components(a, b) ==> #[trigger] are_apart(m, value, a, c, b, c),
    ensures
        value(kink_energy(m, a, component_a, b, component_b, permitivity)) == times(
            value(kink_energy(m, scaled_a, component_a, scaled_b, component_b, permitivity)),
            s,
        ),
{
    let own = raw_energy(m, a, component_a, b, component_b);
    let scaled_own = raw_energy(m, scaled_a, component_a, scaled_b, component_b);
    let levelled = levelled_energy(m, a, component_a, b, component_b);
    let scaled_levelled = levelled_energy(m, scaled_a, component_a, scaled_b, component_b);
    exact_zero(m, value);
    scaling_divides_the_sum(m, value, s, a, scaled_a, component_a, b, scaled_b, component_b);
    times_commutes(value(scaled_own), s);
    direction_of_times(s, value(scaled_own));
    if component_a == component_b {
        let count = shared_components(a, b);
        lemma_scaled_strongest(m, value, s, a, scaled_a, b, scaled_b, count);
        if m.is_zero(own) {
            times_commutes(0real, s);
            times_of_one(s);
        } else {
            assert(value((m.sign)(own)) == value((m.sign)(scaled_own)));
            times_associates(
                value((m.negation)((m.sign)(own))),
                value(strongest(m, scaled_a, scaled_b, count)),
                s,
            );
        }
    }
    assert(value(levelled) == times(value(scaled_levelled), s));
    times_associates(value(energy_factor(m, permitivity)), value(scaled_levelled), s);
}

} // verus!
