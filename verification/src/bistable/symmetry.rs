//! Two cells act on each other alike.

use vstd::prelude::*;

use super::kink::{
    dipoles, distance, dot_energy, dot_places, interaction, kink_energy, pair_energy, raw_energy,
    shared_components, strongest, Site,
};
use crate::exact::exact_zero;
use crate::numerics::Arithmetic;
use crate::reals::{times_commutes, times_of_negation};

verus! {

impl<S: Copy> Arithmetic<S> {
    /// Products come out the same either way round, and so does the square of a
    /// difference.
    pub open spec fn is_even_handed(self) -> bool {
        &&& forall|x: S, y: S| #[trigger] (self.product)(x, y) == (self.product)(y, x)
        &&& forall|x: S, y: S|
            (#[trigger] (self.power)((self.difference)(x, y), self.num(2, 0))) == (self.power)(
                (self.difference)(y, x),
                self.num(2, 0),
            )
    }

    /// Besides, sums come out the same in whatever order they are taken.
    ///
    /// Arithmetic that rounds its sums is not of this kind.
    pub open spec fn is_order_free(self) -> bool {
        &&& self.is_even_handed()
        &&& forall|x: S, y: S| #[trigger] (self.sum)(x, y) == (self.sum)(y, x)
        &&& forall|x: S, y: S, z: S|
            #![trigger (self.sum)((self.sum)(x, y), z)]
            #![trigger (self.sum)(x, (self.sum)(y, z))]
            (self.sum)((self.sum)(x, y), z) == (self.sum)(x, (self.sum)(y, z))
        &&& forall|x: S| #[trigger] (self.sum)(x, self.zero()) == x
    }
}

/// The sum of `f(0)`, `f(1)` and so on, `count` terms in all.
spec fn total<S: Copy>(m: Arithmetic<S>, f: spec_fn(int) -> S, count: nat) -> S
    decreases count,
{
    if count == 0 {
        m.zero()
    } else {
        (m.sum)(total(m, f, (count - 1) as nat), f(count - 1))
    }
}

proof fn lemma_total_of_equals<S: Copy>(
    m: Arithmetic<S>,
    f: spec_fn(int) -> S,
    g: spec_fn(int) -> S,
    count: nat,
)
    requires
        forall|i: int| 0 <= i < count ==> #[trigger] f(i) == g(i),
    ensures
        total(m, f, count) == total(m, g, count),
    decreases count,
{
    if count > 0 {
        lemma_total_of_equals(m, f, g, (count - 1) as nat);
        assert(f(count - 1) == g(count - 1));
    }
}

proof fn lemma_total_of_zeros<S: Copy>(m: Arithmetic<S>, f: spec_fn(int) -> S, count: nat)
    requires
        m.is_order_free(),
        forall|i: int| 0 <= i < count ==> #[trigger] f(i) == m.zero(),
    ensures
        total(m, f, count) == m.zero(),
    decreases count,
{
    if count > 0 {
        lemma_total_of_zeros(m, f, (count - 1) as nat);
        assert(f(count - 1) == m.zero());
    }
}

proof fn lemma_total_of_sums<S: Copy>(
    m: Arithmetic<S>,
    f: spec_fn(int) -> S,
    g: spec_fn(int) -> S,
    count: nat,
)
    requires
        m.is_order_free(),
    ensures
        total(m, |i: int| (m.sum)(f(i), g(i)), count) == (m.sum)(
            total(m, f, count),
            total(m, g, count),
        ),
    decreases count,
{
    let h = |i: int| (m.sum)(f(i), g(i));
    if count > 0 {
        let i = count - 1;
        lemma_total_of_sums(m, f, g, i as nat);
        let p = total(m, f, i as nat);
        let q = total(m, g, i as nat);
        let x = f(i);
        let y = g(i);
        assert(h(i) == (m.sum)(x, y));
        assert((m.sum)((m.sum)(p, q), (m.sum)(x, y)) == (m.sum)(p, (m.sum)(q, (m.sum)(x, y))));
        assert((m.sum)(q, (m.sum)(x, y)) == (m.sum)((m.sum)(x, y), q));
        assert((m.sum)((m.sum)(x, y), q) == (m.sum)(x, (m.sum)(y, q)));
        assert((m.sum)(y, q) == (m.sum)(q, y));
        assert((m.sum)(p, (m.sum)(x, (m.sum)(q, y))) == (m.sum)((m.sum)(p, x), (m.sum)(q, y)));
    }
}

/// A double sum may be taken row by row or column by column.
proof fn lemma_total_of_totals<S: Copy>(
    m: Arithmetic<S>,
    g: spec_fn(int, int) -> S,
    rows: nat,
    columns: nat,
)
    requires
        m.is_order_free(),
    ensures
        total(m, |i: int| total(m, |j: int| g(i, j), columns), rows) == total(
            m,
            |j: int| total(m, |i: int| g(i, j), rows),
            columns,
        ),
    decreases rows,
{
    let by_column = |j: int| total(m, |i: int| g(i, j), rows);
    if rows == 0 {
        lemma_total_of_zeros(m, by_column, columns);
    } else {
        let last = rows - 1;
        let fewer = |j: int| total(m, |i: int| g(i, j), last as nat);
        let last_row = |j: int| g(last, j);
        lemma_total_of_totals(m, g, last as nat, columns);
        lemma_total_of_sums(m, fewer, last_row, columns);
        lemma_total_of_equals(
            m,
            by_column,
            |j: int| (m.sum)(fewer(j), last_row(j)),
            columns,
        );
    }
}

/// The interaction of two dots, which is nothing where a dipole is zero.
spec fn share<S: Copy>(
    m: Arithmetic<S>,
    dipoles_a: Seq<S>,
    places_a: Seq<(S, S)>,
    dipoles_b: Seq<S>,
    places_b: Seq<(S, S)>,
    i: int,
    j: int,
) -> S {
    if m.is_zero(dipoles_a[i]) || m.is_zero(dipoles_b[j]) {
        m.zero()
    } else {
        interaction(m, dipoles_a[i], places_a[i], dipoles_b[j], places_b[j])
    }
}

proof fn lemma_dot_energy_is_total<S: Copy>(
    m: Arithmetic<S>,
    start: S,
    dipoles_a: Seq<S>,
    places_a: Seq<(S, S)>,
    dipoles_b: Seq<S>,
    places_b: Seq<(S, S)>,
    i: int,
    count: nat,
)
    requires
        m.is_order_free(),
        !m.is_zero(dipoles_a[i]),
    ensures
        dot_energy(m, start, dipoles_a[i], places_a[i], dipoles_b, places_b, count) == (m.sum)(
            start,
            total(m, |j: int| share(m, dipoles_a, places_a, dipoles_b, places_b, i, j), count),
        ),
    decreases count,
{
    let row = |j: int| share(m, dipoles_a, places_a, dipoles_b, places_b, i, j);
    if count > 0 {
        let j = count - 1;
        lemma_dot_energy_is_total(
            m,
            start,
            dipoles_a,
            places_a,
            dipoles_b,
            places_b,
            i,
            j as nat,
        );
        assert((m.sum)((m.sum)(start, total(m, row, j as nat)), row(j)) == (m.sum)(
            start,
            (m.sum)(total(m, row, j as nat), row(j)),
        ));
        assert((m.sum)(total(m, row, j as nat), m.zero()) == total(m, row, j as nat));
    }
}

proof fn lemma_pair_energy_is_total<S: Copy>(
    m: Arithmetic<S>,
    dipoles_a: Seq<S>,
    places_a: Seq<(S, S)>,
    dipoles_b: Seq<S>,
    places_b: Seq<(S, S)>,
    count: nat,
)
    requires
        m.is_order_free(),
    ensures
        pair_energy(m, dipoles_a, places_a, dipoles_b, places_b, count) == total(
            m,
            |i: int|
                total(
                    m,
                    |j: int| share(m, dipoles_a, places_a, dipoles_b, places_b, i, j),
                    dipoles_b.len(),
                ),
            count,
        ),
    decreases count,
{
    if count > 0 {
        let i = count - 1;
        let row = |j: int| share(m, dipoles_a, places_a, dipoles_b, places_b, i, j);
        lemma_pair_energy_is_total(m, dipoles_a, places_a, dipoles_b, places_b, i as nat);
        let before = pair_energy(m, dipoles_a, places_a, dipoles_b, places_b, i as nat);
        if m.is_zero(dipoles_a[i]) {
            lemma_total_of_zeros(m, row, dipoles_b.len());
            assert((m.sum)(before, m.zero()) == before);
        } else {
            lemma_dot_energy_is_total(
                m,
                before,
                dipoles_a,
                places_a,
                dipoles_b,
                places_b,
                i,
                dipoles_b.len(),
            );
        }
    }
}

/// The distance between two places is the same either way.
pub proof fn distance_is_symmetric<S: Copy>(m: Arithmetic<S>, p: (S, S), q: (S, S))
    requires
        m.is_even_handed(),
    ensures
        distance(m, p, q) == distance(m, q, p),
{
}

/// Two dots act on each other alike.
pub proof fn interaction_is_symmetric<S: Copy>(
    m: Arithmetic<S>,
    dipole_a: S,
    place_a: (S, S),
    dipole_b: S,
    place_b: (S, S),
)
    requires
        m.is_even_handed(),
    ensures
        interaction(m, dipole_a, place_a, dipole_b, place_b) == interaction(
            m,
            dipole_b,
            place_b,
            dipole_a,
            place_a,
        ),
{
    distance_is_symmetric(m, place_a, place_b);
    assert((m.product)(dipole_a, dipole_b) == (m.product)(dipole_b, dipole_a));
}

proof fn lemma_raw_energy_is_symmetric<S: Copy>(
    m: Arithmetic<S>,
    a: Site<S>,
    component_a: int,
    b: Site<S>,
    component_b: int,
)
    requires
        m.is_order_free(),
    ensures
        raw_energy(m, a, component_a, b, component_b) == raw_energy(
            m,
            b,
            component_b,
            a,
            component_a,
        ),
{
    let dipoles_a = dipoles(m, a.architecture, component_a);
    let dipoles_b = dipoles(m, b.architecture, component_b);
    let places_a = dot_places(m, a.cell, a.architecture);
    let places_b = dot_places(m, b.cell, b.architecture);
    let n_a = a.architecture.dot_count;
    let n_b = b.architecture.dot_count;
    let ab = |i: int, j: int| share(m, dipoles_a, places_a, dipoles_b, places_b, i, j);
    let ba = |j: int, i: int| share(m, dipoles_b, places_b, dipoles_a, places_a, j, i);
    assert forall|i: int, j: int| #[trigger] ab(i, j) == ba(j, i) by {
        interaction_is_symmetric(m, dipoles_a[i], places_a[i], dipoles_b[j], places_b[j]);
    }
    lemma_pair_energy_is_total(m, dipoles_a, places_a, dipoles_b, places_b, n_a);
    lemma_pair_energy_is_total(m, dipoles_b, places_b, dipoles_a, places_a, n_b);
    lemma_total_of_totals(m, ab, n_a, n_b);
    let columns_of_ab = |j: int| total(m, |i: int| ab(i, j), n_a);
    let rows_of_ba = |j: int| total(m, |i: int| ba(j, i), n_a);
    assert forall|j: int| 0 <= j < n_b implies #[trigger] columns_of_ab(j) == rows_of_ba(j) by {
        lemma_total_of_equals(m, |i: int| ab(i, j), |i: int| ba(j, i), n_a);
    }
    lemma_total_of_equals(m, columns_of_ab, rows_of_ba, n_b);
    let rows_of_ab = |i: int| total(m, |j: int| ab(i, j), n_b);
    let plain_rows_of_ab = |i: int|
        total(m, |j: int| share(m, dipoles_a, places_a, dipoles_b, places_b, i, j), n_b);
    assert forall|i: int| 0 <= i < n_a implies #[trigger] rows_of_ab(i) == plain_rows_of_ab(i) by {
        lemma_total_of_equals(
            m,
            |j: int| ab(i, j),
            |j: int| share(m, dipoles_a, places_a, dipoles_b, places_b, i, j),
            n_b,
        );
    }
    lemma_total_of_equals(m, rows_of_ab, plain_rows_of_ab, n_a);
    let plain_rows_of_ba = |j: int|
        total(m, |i: int| share(m, dipoles_b, places_b, dipoles_a, places_a, j, i), n_a);
    assert forall|j: int| 0 <= j < n_b implies #[trigger] rows_of_ba(j) == plain_rows_of_ba(j) by {
        lemma_total_of_equals(
            m,
            |i: int| ba(j, i),
            |i: int| share(m, dipoles_b, places_b, dipoles_a, places_a, j, i),
            n_a,
        );
    }
    lemma_total_of_equals(m, rows_of_ba, plain_rows_of_ba, n_b);
}

proof fn lemma_strongest_is_symmetric<S: Copy>(
    m: Arithmetic<S>,
    a: Site<S>,
    b: Site<S>,
    count: nat,
)
    requires
        m.is_order_free(),
    ensures
        strongest(m, a, b, count) == strongest(m, b, a, count),
    decreases count,
{
    if count > 0 {
        lemma_strongest_is_symmetric(m, a, b, (count - 1) as nat);
        lemma_raw_energy_is_symmetric(m, a, count - 1, b, count - 1);
    }
}

/// The coupling of two cells is the same seen from either cell: the kink energy
/// does not depend on which of them is named first.
pub proof fn kink_energy_is_symmetric<S: Copy>(
    m: Arithmetic<S>,
    a: Site<S>,
    component_a: int,
    b: Site<S>,
    component_b: int,
    permitivity: S,
)
    requires
        m.is_order_free(),
    ensures
        kink_energy(m, a, component_a, b, component_b, permitivity) == kink_energy(
            m,
            b,
            component_b,
            a,
            component_a,
            permitivity,
        ),
{
    lemma_raw_energy_is_symmetric(m, a, component_a, b, component_b);
    assert(shared_components(a, b) == shared_components(b, a));
    lemma_strongest_is_symmetric(m, a, b, shared_components(a, b));
}

/// Arithmetic that does not round takes sums in any order.
pub proof fn exact_arithmetic_is_order_free<S: Copy>(m: Arithmetic<S>, value: spec_fn(S) -> real)
    requires
        m.is_exact(value),
    ensures
        m.is_order_free(),
{
    exact_zero(m, value);
    assert forall|x: S, y: S| #[trigger] (m.product)(x, y) == (m.product)(y, x) by {
        times_commutes(value(x), value(y));
        assert(value((m.product)(x, y)) == value((m.product)(y, x)));
    }
    assert forall|x: S, y: S|
        (#[trigger] (m.power)((m.difference)(x, y), m.num(2, 0))) == (m.power)(
            (m.difference)(y, x),
            m.num(2, 0),
        ) by {
        let d = value(x) - value(y);
        times_of_negation(d, d);
        times_of_negation(d, -d);
        assert(value((m.difference)(y, x)) == -d);
        assert(value((m.power)((m.difference)(x, y), m.num(2, 0))) == value(
            (m.power)((m.difference)(y, x), m.num(2, 0)),
        ));
    }
    assert forall|x: S, y: S| #[trigger] (m.sum)(x, y) == (m.sum)(y, x) by {
        assert(value((m.sum)(x, y)) == value((m.sum)(y, x)));
    }
    assert forall|x: S, y: S, z: S|
        #![trigger (m.sum)((m.sum)(x, y), z)]
        #![trigger (m.sum)(x, (m.sum)(y, z))]
        (m.sum)((m.sum)(x, y), z) == (m.sum)(x, (m.sum)(y, z)) by {
        assert(value((m.sum)((m.sum)(x, y), z)) == value((m.sum)(x, (m.sum)(y, z))));
    }
    assert forall|x: S| #[trigger] (m.sum)(x, m.zero()) == x by {
        assert(value((m.sum)(x, m.zero())) == value(x));
    }
}

} // verus!
