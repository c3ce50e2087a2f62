//! Kink energies by Coulomb's law.

use vstd::prelude::*;

use super::energy_laws::{exact_coupling_keeps_the_sign_of_its_sum, lemma_strongest_is_not_weaker};
use super::geometry::{distance_is_euclidean, squared_distance};
use super::initiate::couplings;
use super::kink::{
    dipoles, distance, dot_energy, dot_place, dot_places, energy_factor, interaction, kink_energy,
    levelled_energy, pair_energy, place, raw_energy, shared_components, strongest, Site,
};
use crate::exact::{direction, direction_of_times, exact_fraction, exact_whole, exact_zero, size};
use crate::numerics::Arithmetic;
use crate::reals::{
    square_root_is_unique, times, times_associates, times_cancels, times_commutes, times_is_zero,
    times_of_negation, times_of_one,
};
use crate::sums::{sum_of, sum_of_one, sum_of_opposites};

verus! {

/// A polarization of so many components, with one of them at `amount` and the others at
/// zero.
pub open spec fn is_pure<S>(
    value: spec_fn(S) -> real,
    polarization: Seq<S>,
    components: nat,
    component: int,
    amount: real,
) -> bool {
    &&& polarization.len() == components
    &&& forall|c: int|
        0 <= c < components ==> value(#[trigger] polarization[c]) == if c == component {
            amount
        } else {
            0real
        }
}

/// The dipole of a dot: how much more it is occupied in one of two polarizations.
pub open spec fn dipole<S: Copy>(
    m: Arithmetic<S>,
    value: spec_fn(S) -> real,
    plus: Seq<S>,
    minus: Seq<S>,
    dot: int,
) -> real {
    value((m.distribution)(plus)[dot]) - value((m.distribution)(minus)[dot])
}

/// Where a dot of a cell is: at its place in the architecture, turned counterclockwise
/// by the rotation of the cell, from the position of the cell.
pub open spec fn dot_point<S: Copy>(
    m: Arithmetic<S>,
    value: spec_fn(S) -> real,
    site: Site<S>,
    dot: int,
) -> (real, real) {
    let x = value(site.architecture.dot_positions[dot]@[0]);
    let y = value(site.architecture.dot_positions[dot]@[1]);
    let cos = value((m.cosine)(site.cell.rotation));
    let sin = value((m.sine)(site.cell.rotation));
    (
        value(site.cell.position@[0]) + times(x, cos) - times(y, sin),
        value(site.cell.position@[1]) + times(y, cos) + times(x, sin),
    )
}

/// A dot lies where the position and the rotation of its cell put it.
pub proof fn dot_lies_where_its_cell_puts_it<S: Copy>(
    m: Arithmetic<S>,
    value: spec_fn(S) -> real,
    site: Site<S>,
    dot: int,
)
    requires
        m.is_exact(value),
    ensures
        ({
            let found = dot_place(m, place(site.architecture.dot_positions[dot]), site.cell);
            (value(found.0), value(found.1)) == dot_point(m, value, site, dot)
        }),
{
}

/// By Coulomb's law, `energy` is that of two charges, `charge_a` and `charge_b` times an
/// elementary charge, with `far` nanometres between them: none where one of the charges
/// is zero, and otherwise their product over the distance in metres.
pub open spec fn is_coulomb_energy<S: Copy>(
    m: Arithmetic<S>,
    value: spec_fn(S) -> real,
    charge_a: real,
    charge_b: real,
    far: real,
    energy: real,
) -> bool {
    let elementary = value(m.num(1_602_176_634, -28));
    let nano = value(m.num(1, -9));
    if charge_a == 0real || charge_b == 0real {
        energy == 0real
    } else {
        &&& far > 0real
        &&& times(energy, times(nano, far)) == times(
            times(charge_a, charge_b),
            times(elementary, elementary),
        )
    }
}

/// What pairs of dots have to do with each other: `far(i, j)` is how far dot `i` of one
/// cell is from dot `j` of the other, and `energy(i, j)` is the Coulomb energy of the
/// dipoles at these two, for one polarization component of each cell.
pub open spec fn are_coulomb_energies<S: Copy>(
    m: Arithmetic<S>,
    value: spec_fn(S) -> real,
    a: Site<S>,
    component_a: int,
    b: Site<S>,
    component_b: int,
    far: spec_fn(int, int) -> real,
    energy: spec_fn(int, int) -> real,
) -> bool {
    &&& forall|i: int, j: int|
        0 <= i < a.architecture.dot_count && 0 <= j < b.architecture.dot_count
            ==> #[trigger] far(i, j) >= 0real && times(far(i, j), far(i, j)) == squared_distance(
            dot_point(m, value, a, i),
            dot_point(m, value, b, j),
        )
    &&& forall|
        plus_a: Seq<S>,
        minus_a: Seq<S>,
        plus_b: Seq<S>,
        minus_b: Seq<S>,
        i: int,
        j: int,
    |
        #![trigger dipole(m, value, plus_a, minus_a, i), dipole(m, value, plus_b, minus_b, j)]
        is_pure(value, plus_a, a.architecture.dot_count / 4, component_a, 1real) && is_pure(
            value,
            minus_a,
            a.architecture.dot_count / 4,
            component_a,
            -1real,
        ) && is_pure(value, plus_b, b.architecture.dot_count / 4, component_b, 1real) && is_pure(
            value,
            minus_b,
            b.architecture.dot_count / 4,
            component_b,
            -1real,
        ) && 0 <= i < a.architecture.dot_count && 0 <= j < b.architecture.dot_count
            ==> is_coulomb_energy(
            m,
            value,
            dipole(m, value, plus_a, minus_a, i),
            dipole(m, value, plus_b, minus_b, j),
            far(i, j),
            energy(i, j),
        )
}

/// The Coulomb energies of all pairs of dots together.
pub open spec fn sum_over_pairs<S>(
    a: Site<S>,
    b: Site<S>,
    energy: spec_fn(int, int) -> real,
) -> real {
    sum_of(
        |i: int| sum_of(|j: int| energy(i, j), b.architecture.dot_count),
        a.architecture.dot_count,
    )
}

proof fn lemma_interaction<S: Copy>(
    m: Arithmetic<S>,
    value: spec_fn(S) -> real,
    dipole_a: S,
    place_a: (S, S),
    dipole_b: S,
    place_b: (S, S),
    far: real,
    energy: real,
)
    requires
        m.is_exact(value),
        value(dipole_a) != 0real,
        value(dipole_b) != 0real,
        far >= 0real,
        times(far, far) == squared_distance(
            (value(place_a.0), value(place_a.1)),
            (value(place_b.0), value(place_b.1)),
        ),
        is_coulomb_energy(m, value, value(dipole_a), value(dipole_b), far, energy),
    ensures
        value(interaction(m, dipole_a, place_a, dipole_b, place_b)) == energy,
{
    let elementary = value(m.num(1_602_176_634, -28));
    let nano = value(m.num(1, -9));
    distance_is_euclidean(m, value, place_a, place_b);
    square_root_is_unique(value(distance(m, place_a, place_b)), far);
    exact_fraction(m, value, 1, 9);
    let divisor = times(nano, far);
    if divisor == 0real {
        times_is_zero(nano, far);
    }
    times_associates(times(value(dipole_a), value(dipole_b)), elementary, elementary);
    times_cancels(value(interaction(m, dipole_a, place_a, dipole_b, place_b)), energy, divisor);
}

proof fn lemma_dot_energy<S: Copy>(
    m: Arithmetic<S>,
    value: spec_fn(S) -> real,
    start: S,
    charge: S,
    at: (S, S),
    charges: Seq<S>,
    places: Seq<(S, S)>,
    far: spec_fn(int) -> real,
    energy: spec_fn(int) -> real,
    count: nat,
)
    requires
        m.is_exact(value),
        value(charge) != 0real,
        forall|j: int|
            0 <= j < count ==> {
                &&& #[trigger] far(j) >= 0real
                &&& times(far(j), far(j)) == squared_distance(
                    (value(at.0), value(at.1)),
                    (value(places[j].0), value(places[j].1)),
                )
                &&& is_coulomb_energy(
                    m,
                    value,
                    value(charge),
                    value(charges[j]),
                    far(j),
                    energy(j),
                )
            },
    ensures
        value(dot_energy(m, start, charge, at, charges, places, count)) == value(start) + sum_of(
            energy,
            count,
        ),
    decreases count,
{
    if count > 0 {
        let j = count - 1;
        exact_zero(m, value);
        lemma_dot_energy(
            m,
            value,
            start,
            charge,
            at,
            charges,
            places,
            far,
            energy,
            j as nat,
        );
        assert(far(j) >= 0real);
        if value(charges[j]) != 0real {
            lemma_interaction(m, value, charge, at, charges[j], places[j], far(j), energy(j));
        }
    }
}

proof fn lemma_pair_energy<S: Copy>(
    m: Arithmetic<S>,
    value: spec_fn(S) -> real,
    charges_a: Seq<S>,
    places_a: Seq<(S, S)>,
    charges_b: Seq<S>,
    places_b: Seq<(S, S)>,
    far: spec_fn(int, int) -> real,
    energy: spec_fn(int, int) -> real,
    count: nat,
)
    requires
        m.is_exact(value),
        forall|i: int, j: int|
            0 <= i < count && 0 <= j < charges_b.len() ==> {
                &&& #[trigger] far(i, j) >= 0real
                &&& times(far(i, j), far(i, j)) == squared_distance(
                    (value(places_a[i].0), value(places_a[i].1)),
                    (value(places_b[j].0), value(places_b[j].1)),
                )
                &&& is_coulomb_energy(
                    m,
                    value,
                    value(charges_a[i]),
                    value(charges_b[j]),
                    far(i, j),
                    energy(i, j),
                )
            },
    ensures
        value(pair_energy(m, charges_a, places_a, charges_b, places_b, count)) == sum_of(
            |i: int| sum_of(|j: int| energy(i, j), charges_b.len()),
            count,
        ),
    decreases count,
{
    exact_zero(m, value);
    if count > 0 {
        let i = count - 1;
        lemma_pair_energy(
            m,
            value,
            charges_a,
            places_a,
            charges_b,
            places_b,
            far,
            energy,
            i as nat,
        );
        let row = |j: int| energy(i, j);
        let row_far = |j: int| far(i, j);
        if value(charges_a[i]) != 0real {
            assert forall|j: int| 0 <= j < charges_b.len() implies {
                &&& #[trigger] row_far(j) >= 0real
                &&& times(row_far(j), row_far(j)) == squared_distance(
                    (value(places_a[i].0), value(places_a[i].1)),
                    (value(places_b[j].0), value(places_b[j].1)),
                )
                &&& is_coulomb_energy(
                    m,
                    value,
                    value(charges_a[i]),
                    value(charges_b[j]),
                    row_far(j),
                    row(j),
                )
            } by {
                assert(far(i, j) >= 0real);
            }
            lemma_dot_energy(
                m,
                value,
                pair_energy(m, charges_a, places_a, charges_b, places_b, i as nat),
                charges_a[i],
                places_a[i],
                charges_b,
                places_b,
                row_far,
                row,
                charges_b.len(),
            );
        } else {
            assert forall|j: int| 0 <= j < charges_b.len() implies #[trigger] row(j) == 0real by {
                assert(far(i, j) >= 0real);
            }
            sum_of_one(row, -1, charges_b.len());
        }
    }
}

proof fn lemma_pure_is_unique<S: Copy>(
    m: Arithmetic<S>,
    value: spec_fn(S) -> real,
    components: nat,
    component: int,
    amount: S,
)
    requires
        m.is_exact(value),
        0 <= component < components,
    ensures
        is_pure(
            value,
            m.zeros(components).update(component, amount),
            components,
            component,
            value(amount),
        ),
{
    exact_zero(m, value);
}

/// The Coulomb sum is the sum over every pair of dots of the Coulomb energy of their
/// dipoles.
pub proof fn coulomb_sum_takes_every_pair<S: Copy>(
    m: Arithmetic<S>,
    value: spec_fn(S) -> real,
    a: Site<S>,
    component_a: int,
    b: Site<S>,
    component_b: int,
    far: spec_fn(int, int) -> real,
    energy: spec_fn(int, int) -> real,
)
    requires
        m.is_exact(value),
        0 <= component_a < a.architecture.dot_count / 4,
        0 <= component_b < b.architecture.dot_count / 4,
        are_coulomb_energies(m, value, a, component_a, b, component_b, far, energy),
    ensures
        value(raw_energy(m, a, component_a, b, component_b)) == sum_over_pairs(a, b, energy),
{
    let one = m.num(1, 0);
    let minus_one = m.num(-1, 0);
    exact_whole(m, value, 1);
    exact_whole(m, value, -1);
    let plus_a = m.zeros(a.architecture.components()).update(component_a, one);
    let minus_a = m.zeros(a.architecture.components()).update(component_a, minus_one);
    let plus_b = m.zeros(b.architecture.components()).update(component_b, one);
    let minus_b = m.zeros(b.architecture.components()).update(component_b, minus_one);
    lemma_pure_is_unique(m, value, a.architecture.components(), component_a, one);
    lemma_pure_is_unique(m, value, a.architecture.components(), component_a, minus_one);
    lemma_pure_is_unique(m, value, b.architecture.components(), component_b, one);
    lemma_pure_is_unique(m, value, b.architecture.components(), component_b, minus_one);
    let charges_a = dipoles(m, a.architecture, component_a);
    let charges_b = dipoles(m, b.architecture, component_b);
    let places_a = dot_places(m, a.cell, a.architecture);
    let places_b = dot_places(m, b.cell, b.architecture);
    assert forall|i: int, j: int|
        0 <= i < a.architecture.dot_count && 0 <= j < charges_b.len() implies {
        &&& #[trigger] far(i, j) >= 0real
        &&& times(far(i, j), far(i, j)) == squared_distance(
            (value(places_a[i].0), value(places_a[i].1)),
            (value(places_b[j].0), value(places_b[j].1)),
        )
        &&& is_coulomb_energy(
            m,
            value,
            value(charges_a[i]),
            value(charges_b[j]),
            far(i, j),
            energy(i, j),
        )
    } by {
        dot_lies_where_its_cell_puts_it(m, value, a, i);
        dot_lies_where_its_cell_puts_it(m, value, b, j);
        assert(value(charges_a[i]) == dipole(m, value, plus_a, minus_a, i));
        assert(value(charges_b[j]) == dipole(m, value, plus_b, minus_b, j));
    }
    lemma_pair_energy(
        m,
        value,
        charges_a,
        places_a,
        charges_b,
        places_b,
        far,
        energy,
        a.architecture.dot_count,
    );
}

/// Unlike components couple by the Coulomb energies of all pairs of dots, with their
/// sign: the kink energy times the permittivity of the medium, `four_pi_epsilon` times
/// `permitivity`, is minus their sum.
pub proof fn unlike_components_couple_by_their_sum<S: Copy>(
    m: Arithmetic<S>,
    value: spec_fn(S) -> real,
    a: Site<S>,
    component_a: int,
    b: Site<S>,
    component_b: int,
    permitivity: S,
    far: spec_fn(int, int) -> real,
    energy: spec_fn(int, int) -> real,
)
    requires
        m.is_exact(value),
        component_a != component_b,
        0 <= component_a < a.architecture.dot_count / 4,
        0 <= component_b < b.architecture.dot_count / 4,
        value(permitivity) != 0real,
        are_coulomb_energies(m, value, a, component_a, b, component_b, far, energy),
    ensures
        ({
            let medium = times(
                value(m.num(111_265_005_597_565_794_635_320_037_482, -39)),
                value(permitivity),
            );
            times(
                value(kink_energy(m, a, component_a, b, component_b, permitivity)),
                medium,
            ) == -sum_over_pairs(a, b, energy)
        }),
{
    coulomb_sum_takes_every_pair(m, value, a, component_a, b, component_b, far, energy);
    lemma_factor(
        m,
        value,
        permitivity,
        value(raw_energy(m, a, component_a, b, component_b)),
    );
}

/// What the factor of the energies does to a sum.
proof fn lemma_factor<S: Copy>(
    m: Arithmetic<S>,
    value: spec_fn(S) -> real,
    permitivity: S,
    sum: real,
)
    requires
        m.is_exact(value),
        value(permitivity) != 0real,
    ensures
        ({
            let medium = times(
                value(m.num(111_265_005_597_565_794_635_320_037_482, -39)),
                value(permitivity),
            );
            times(times(value(energy_factor(m, permitivity)), sum), medium) == -sum
        }),
{
    let constant = m.num(111_265_005_597_565_794_635_320_037_482, -39);
    let divisor = (m.product)(constant, permitivity);
    let inverse = value((m.quotient)(m.num(1, 0), divisor));
    let medium = value(divisor);
    exact_whole(m, value, 1);
    exact_fraction(m, value, 111_265_005_597_565_794_635_320_037_482, 39);
    if medium == 0real {
        times_is_zero(value(constant), value(permitivity));
    }
    assert(times(inverse, medium) == 1real);
    times_of_negation(inverse, sum);
    times_of_negation(times(inverse, sum), medium);
    times_associates(inverse, sum, medium);
    times_commutes(sum, medium);
    times_associates(inverse, medium, sum);
    times_commutes(1real, sum);
    times_of_one(sum);
}

/// The kink energy of unlike components is their Coulomb sum times a factor that does
/// not depend on the cells. For a positive permittivity it points the other way than the
/// sum.
pub proof fn unlike_components_keep_the_sign_of_their_sum<S: Copy>(
    m: Arithmetic<S>,
    value: spec_fn(S) -> real,
    a: Site<S>,
    component_a: int,
    b: Site<S>,
    component_b: int,
    permitivity: S,
)
    requires
        m.is_exact(value),
        component_a != component_b,
    ensures
        value(kink_energy(m, a, component_a, b, component_b, permitivity)) == times(
            value(energy_factor(m, permitivity)),
            value(raw_energy(m, a, component_a, b, component_b)),
        ),
        value(permitivity) > 0real ==> direction(
            value(kink_energy(m, a, component_a, b, component_b, permitivity)),
        ) == -direction(value(raw_energy(m, a, component_a, b, component_b))),
{
    let sum = value(raw_energy(m, a, component_a, b, component_b));
    let kink = value(kink_energy(m, a, component_a, b, component_b, permitivity));
    let constant = value(m.num(111_265_005_597_565_794_635_320_037_482, -39));
    if value(permitivity) > 0real {
        lemma_factor(m, value, permitivity, sum);
        exact_fraction(m, value, 111_265_005_597_565_794_635_320_037_482, 39);
        let medium = times(constant, value(permitivity));
        direction_of_times(constant, value(permitivity));
        times_commutes(kink, medium);
        direction_of_times(medium, kink);
    }
}

/// Turn the dipoles of one of two unlike components around, and their kink energy turns
/// around.
pub proof fn unlike_coupling_turns_with_the_dipoles<S: Copy>(
    m: Arithmetic<S>,
    turned: Arithmetic<S>,
    value: spec_fn(S) -> real,
    a: Site<S>,
    component_a: int,
    b: Site<S>,
    component_b: int,
    permitivity: S,
    far: spec_fn(int, int) -> real,
    energy: spec_fn(int, int) -> real,
)
    requires
        m.is_exact(value),
        turned == (Arithmetic { distribution: turned.distribution, ..m }),
        component_a != component_b,
        0 <= component_a < a.architecture.dot_count / 4,
        0 <= component_b < b.architecture.dot_count / 4,
        value(permitivity) != 0real,
        are_coulomb_energies(m, value, a, component_a, b, component_b, far, energy),
        forall|plus: Seq<S>, minus: Seq<S>, i: int|
            is_pure(value, plus, a.architecture.dot_count / 4, component_a, 1real) && is_pure(
                value,
                minus,
                a.architecture.dot_count / 4,
                component_a,
                -1real,
            ) ==> #[trigger] dipole(turned, value, plus, minus, i) == -dipole(
                m,
                value,
                plus,
                minus,
                i,
            ),
        forall|plus: Seq<S>, minus: Seq<S>, j: int|
            is_pure(value, plus, b.architecture.dot_count / 4, component_b, 1real) && is_pure(
                value,
                minus,
                b.architecture.dot_count / 4,
                component_b,
                -1real,
            ) ==> #[trigger] dipole(turned, value, plus, minus, j) == dipole(
                m,
                value,
                plus,
                minus,
                j,
            ),
    ensures
        value(kink_energy(turned, a, component_a, b, component_b, permitivity)) == -value(
            kink_energy(m, a, component_a, b, component_b, permitivity),
        ),
{
    let opposite = |i: int, j: int| -energy(i, j);
    lemma_turned_is_exact(m, turned, value);
    assert forall|
        plus_a: Seq<S>,
        minus_a: Seq<S>,
        plus_b: Seq<S>,
        minus_b: Seq<S>,
        i: int,
        j: int,
    |
        #![trigger dipole(turned, value, plus_a, minus_a, i), dipole(turned, value, plus_b, minus_b, j)]
        is_pure(value, plus_a, a.architecture.dot_count / 4, component_a, 1real) && is_pure(
            value,
            minus_a,
            a.architecture.dot_count / 4,
            component_a,
            -1real,
        ) && is_pure(value, plus_b, b.architecture.dot_count / 4, component_b, 1real) && is_pure(
            value,
            minus_b,
            b.architecture.dot_count / 4,
            component_b,
            -1real,
        ) && 0 <= i < a.architecture.dot_count && 0 <= j
            < b.architecture.dot_count implies is_coulomb_energy(
        turned,
        value,
        dipole(turned, value, plus_a, minus_a, i),
        dipole(turned, value, plus_b, minus_b, j),
        far(i, j),
        opposite(i, j),
    ) by {
        let charge_a = dipole(m, value, plus_a, minus_a, i);
        let charge_b = dipole(m, value, plus_b, minus_b, j);
        assert(is_coulomb_energy(m, value, charge_a, charge_b, far(i, j), energy(i, j)));
        let elementary = value(m.num(1_602_176_634, -28));
        let nano = value(m.num(1, -9));
        times_of_negation(energy(i, j), times(nano, far(i, j)));
        times_of_negation(charge_a, charge_b);
        times_of_negation(times(charge_a, charge_b), times(elementary, elementary));
    }
    assert forall|i: int, j: int|
        0 <= i < a.architecture.dot_count && 0 <= j
            < b.architecture.dot_count implies #[trigger] far(i, j) >= 0real && times(
        far(i, j),
        far(i, j),
    ) == squared_distance(
        dot_point(turned, value, a, i),
        dot_point(turned, value, b, j),
    ) by {
        assert(dot_point(turned, value, a, i) == dot_point(m, value, a, i));
        assert(dot_point(turned, value, b, j) == dot_point(m, value, b, j));
    }
    unlike_components_couple_by_their_sum(
        m,
        value,
        a,
        component_a,
        b,
        component_b,
        permitivity,
        far,
        energy,
    );
    unlike_components_couple_by_their_sum(
        turned,
        value,
        a,
        component_a,
        b,
        component_b,
        permitivity,
        far,
        opposite,
    );
    let rows = |i: int| sum_of(|j: int| energy(i, j), b.architecture.dot_count);
    let opposite_rows = |i: int| sum_of(|j: int| opposite(i, j), b.architecture.dot_count);
    assert forall|i: int| 0 <= i < a.architecture.dot_count implies #[trigger] opposite_rows(i)
        == -rows(i) by {
        sum_of_opposites(
            |j: int| energy(i, j),
            |j: int| opposite(i, j),
            b.architecture.dot_count,
        );
    }
    sum_of_opposites(rows, opposite_rows, a.architecture.dot_count);
    let constant = value(m.num(111_265_005_597_565_794_635_320_037_482, -39));
    let medium = times(constant, value(permitivity));
    let kink = value(kink_energy(m, a, component_a, b, component_b, permitivity));
    let kink_turned = value(kink_energy(turned, a, component_a, b, component_b, permitivity));
    exact_fraction(m, value, 111_265_005_597_565_794_635_320_037_482, 39);
    if medium == 0real {
        times_is_zero(constant, value(permitivity));
    }
    times_of_negation(kink, medium);
    assert(times(kink_turned, medium) == times(-kink, medium));
    times_cancels(kink_turned, -kink, medium);
}

proof fn lemma_turned_is_exact<S: Copy>(
    m: Arithmetic<S>,
    turned: Arithmetic<S>,
    value: spec_fn(S) -> real,
)
    requires
        m.is_exact(value),
        turned == (Arithmetic { distribution: turned.distribution, ..m }),
    ensures
        turned.is_exact(value),
{
    assert(turned.num(2, 0) == m.num(2, 0));
    assert forall|x: S| value(#[trigger] (turned.power)(x, turned.num(2, 0))) == times(
        value(x),
        value(x),
    ) by {
        assert(value((m.power)(x, m.num(2, 0))) == times(value(x), value(x)));
    }
    assert forall|x: S, y: S| value(y) > 0real implies turned.is_remainder(
        value,
        x,
        y,
        #[trigger] (turned.remainder)(x, y),
    ) by {
        assert(m.is_remainder(value, x, y, (m.remainder)(x, y)));
    }
}

/// Like components couple as strongly as the strongest of them: the kink energy, times
/// the permittivity of the medium, is as large as the largest of the Coulomb sums of
/// components that the cells have in common, each with its like. For a positive
/// permittivity it points the way of its own sum, and where that is zero, it is zero.
pub proof fn like_components_couple_by_the_strongest_sum<S: Copy>(
    m: Arithmetic<S>,
    value: spec_fn(S) -> real,
    a: Site<S>,
    b: Site<S>,
    component: int,
    permitivity: S,
    far: spec_fn(int, int) -> real,
    energies: spec_fn(int) -> spec_fn(int, int) -> real,
    largest: int,
)
    requires
        m.is_exact(value),
        value(permitivity) > 0real,
        0 <= component < a.architecture.dot_count / 4,
        0 <= component < b.architecture.dot_count / 4,
        0 <= largest < a.architecture.dot_count / 4,
        0 <= largest < b.architecture.dot_count / 4,
        forall|c: int|
            0 <= c < a.architecture.dot_count / 4 && 0 <= c < b.architecture.dot_count / 4 ==> {
                &&& are_coulomb_energies(m, value, a, c, b, c, far, #[trigger] energies(c))
                &&& size(sum_over_pairs(a, b, energies(c))) <= size(
                    sum_over_pairs(a, b, energies(largest)),
                )
            },
    ensures
        ({
            let medium = times(
                value(m.num(111_265_005_597_565_794_635_320_037_482, -39)),
                value(permitivity),
            );
            let own = sum_over_pairs(a, b, energies(component));
            let kink = value(kink_energy(m, a, component, b, component, permitivity));
            &&& direction(kink) == direction(own)
            &&& own != 0real ==> times(size(kink), medium) == size(
                sum_over_pairs(a, b, energies(largest)),
            )
        }),
{
    let constant = value(m.num(111_265_005_597_565_794_635_320_037_482, -39));
    let medium = times(constant, value(permitivity));
    let count = shared_components(a, b);
    let own = raw_energy(m, a, component, b, component);
    let most = strongest(m, a, b, count);
    let kink = value(kink_energy(m, a, component, b, component, permitivity));
    exact_zero(m, value);
    assert forall|c: int| 0 <= c < count implies value(#[trigger] raw_energy(m, a, c, b, c))
        == sum_over_pairs(a, b, energies(c)) by {
        assert(are_coulomb_energies(m, value, a, c, b, c, far, energies(c)));
        coulomb_sum_takes_every_pair(m, value, a, c, b, c, far, energies(c));
    }
    assert(value(raw_energy(m, a, component, b, component)) == sum_over_pairs(
        a,
        b,
        energies(component),
    ));
    exact_coupling_keeps_the_sign_of_its_sum(m, value, a, b, component, permitivity);
    lemma_strongest_is_largest(m, value, a, b, energies, largest, count);
    if value(own) != 0real {
        let levelled = value(levelled_energy(m, a, component, b, component));
        lemma_factor(m, value, permitivity, levelled);
        exact_fraction(m, value, 111_265_005_597_565_794_635_320_037_482, 39);
        direction_of_times(constant, value(permitivity));
        direction_of_times(kink, medium);
        let sign = value((m.negation)((m.sign)(own)));
        direction_of_times(sign, value(most));
        times_commutes(1real, size(value(most)));
        times_of_one(size(value(most)));
        assert(size(levelled) == size(value(most)));
    }
}

proof fn lemma_strongest_is_largest<S: Copy>(
    m: Arithmetic<S>,
    value: spec_fn(S) -> real,
    a: Site<S>,
    b: Site<S>,
    energies: spec_fn(int) -> spec_fn(int, int) -> real,
    largest: int,
    count: nat,
)
    requires
        m.is_exact(value),
        forall|c: int|
            0 <= c < count ==> value(#[trigger] raw_energy(m, a, c, b, c)) == sum_over_pairs(
                a,
                b,
                energies(c),
            ),
        forall|c: int|
            0 <= c < count ==> size(sum_over_pairs(a, b, #[trigger] energies(c))) <= size(
                sum_over_pairs(a, b, energies(largest)),
            ),
        0 <= largest < count,
    ensures
        value(strongest(m, a, b, count)) == size(sum_over_pairs(a, b, energies(largest))),
{
    lemma_strongest_is_not_weaker(m, value, a, b, count, largest);
    assert(value(raw_energy(m, a, largest, b, largest)) == sum_over_pairs(
        a,
        b,
        energies(largest),
    ));
    lemma_strongest_is_bounded(
        m,
        value,
        a,
        b,
        size(sum_over_pairs(a, b, energies(largest))),
        count,
    );
}

proof fn lemma_strongest_is_bounded<S: Copy>(
    m: Arithmetic<S>,
    value: spec_fn(S) -> real,
    a: Site<S>,
    b: Site<S>,
    bound: real,
    count: nat,
)
    requires
        m.is_exact(value),
        bound >= 0real,
        forall|c: int|
            0 <= c < count ==> size(value(#[trigger] raw_energy(m, a, c, b, c))) <= bound,
    ensures
        value(strongest(m, a, b, count)) <= bound,
    decreases count,
{
    exact_zero(m, value);
    if count > 0 {
        lemma_strongest_is_bounded(m, value, a, b, bound, (count - 1) as nat);
        let c = count - 1;
        assert(size(value(raw_energy(m, a, c, b, c))) <= bound);
    }
}

/// The table of couplings has a row for each component of the first cell, and in each
/// row the kink energy with each component of the second.
pub proof fn couplings_are_kink_energies<S: Copy>(
    m: Arithmetic<S>,
    a: Site<S>,
    b: Site<S>,
    permitivity: S,
    k: int,
    l: int,
)
    requires
        0 <= k < a.architecture.dot_count / 4,
        0 <= l < b.architecture.dot_count / 4,
    ensures
        couplings(m, a, b, permitivity).len() == a.architecture.dot_count / 4,
        couplings(m, a, b, permitivity)[k].len() == b.architecture.dot_count / 4,
        couplings(m, a, b, permitivity)[k][l] == kink_energy(m, a, k, b, l, permitivity),
{
}

/// In whatever arithmetic, unlike components couple by their Coulomb sum times a factor
/// that does not depend on the cells: two pairs of components with the same sum have the
/// same kink energy.
pub proof fn unlike_components_with_the_same_sum_couple_alike<S: Copy>(
    m: Arithmetic<S>,
    a: Site<S>,
    component_a: int,
    b: Site<S>,
    component_b: int,
    c: Site<S>,
    component_c: int,
    d: Site<S>,
    component_d: int,
    permitivity: S,
)
    requires
        component_a != component_b,
        component_c != component_d,
        raw_energy(m, a, component_a, b, component_b) == raw_energy(
            m,
            c,
            component_c,
            d,
            component_d,
        ),
    ensures
        kink_energy(m, a, component_a, b, component_b, permitivity) == (m.product)(
            energy_factor(m, permitivity),
            raw_energy(m, a, component_a, b, component_b),
        ),
        kink_energy(m, a, component_a, b, component_b, permitivity) == kink_energy(
            m,
            c,
            component_c,
            d,
            component_d,
            permitivity,
        ),
{
}

/// Dots that coincide are not left out: their interaction is what the arithmetic makes of
/// a quotient by a distance of zero.
pub proof fn coinciding_dots_are_not_left_out<S: Copy>(
    m: Arithmetic<S>,
    dipole_a: S,
    dipole_b: S,
    at: (S, S),
)
    requires
        m.measures_lengths(),
        (m.difference)(at.0, at.0) == m.zero(),
        (m.difference)(at.1, at.1) == m.zero(),
    ensures
        ({
            let charge = m.num(1_602_176_634, -28);
            interaction(m, dipole_a, at, dipole_b, at) == (m.quotient)(
                (m.product)((m.product)((m.product)(dipole_a, dipole_b), charge), charge),
                (m.product)(m.num(1, -9), m.zero()),
            )
        }),
{
}

} // verus!
