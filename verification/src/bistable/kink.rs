//! Kink energies: how strongly the polarization components of two cells act on
//! each other.

use vstd::prelude::*;

use super::geometry::{distance_is_euclidean, squared_distance};
use super::BistableModel;
use crate::numerics::{four_dots_per_component, zero_numbers, Arithmetic, Decimal, Numerics};
use crate::objects::{ArchitectureView, CellView, QCACell, QCACellArchitecture};
use crate::reals::times;

verus! {

/// A place in the plane.
pub open spec fn place<S>(position: [S; 2]) -> (S, S) {
    (position@[0], position@[1])
}

/// How far apart two places are.
pub open spec fn distance<S: Copy>(m: Arithmetic<S>, p: (S, S), q: (S, S)) -> S {
    (m.square_root)(
        (m.sum)(
            (m.power)((m.difference)(p.0, q.0), m.num(2, 0)),
            (m.power)((m.difference)(p.1, q.1), m.num(2, 0)),
        ),
    )
}

/// Where a dot of `cell` lies, if `dot` is its place in an unrotated cell.
pub open spec fn dot_place<S: Copy>(m: Arithmetic<S>, dot: (S, S), cell: CellView<S>) -> (S, S) {
    let cos = (m.cosine)(cell.rotation);
    let sin = (m.sine)(cell.rotation);
    let centre = place(cell.position);
    (
        (m.difference)((m.sum)(centre.0, (m.product)(dot.0, cos)), (m.product)(dot.1, sin)),
        (m.sum)((m.sum)(centre.1, (m.product)(dot.1, cos)), (m.product)(dot.0, sin)),
    )
}

/// Where the dots of `cell` lie.
pub open spec fn dot_places<S: Copy>(
    m: Arithmetic<S>,
    cell: CellView<S>,
    architecture: ArchitectureView<S>,
) -> Seq<(S, S)> {
    Seq::new(
        architecture.dot_count,
        |i: int| dot_place(m, place(architecture.dot_positions[i]), cell),
    )
}

/// The dot occupations of a cell with a single polarized component.
pub open spec fn occupation<S: Copy>(
    m: Arithmetic<S>,
    components: nat,
    component: int,
    polarization: S,
) -> Seq<S> {
    (m.distribution)(m.zeros(components).update(component, polarization))
}

/// The charge dipole of each dot: how its occupation differs between a component
/// that is fully positive and one that is fully negative.
pub open spec fn dipoles<S: Copy>(
    m: Arithmetic<S>,
    architecture: ArchitectureView<S>,
    component: int,
) -> Seq<S> {
    let positive = occupation(m, architecture.components(), component, m.num(1, 0));
    let negative = occupation(m, architecture.components(), component, m.num(-1, 0));
    Seq::new(architecture.dot_count, |i: int| (m.difference)(positive[i], negative[i]))
}

/// The interaction of two dipoles, with distances in nanometres.
pub open spec fn interaction<S: Copy>(
    m: Arithmetic<S>,
    dipole_a: S,
    place_a: (S, S),
    dipole_b: S,
    place_b: (S, S),
) -> S {
    let charge = m.num(1_602_176_634, -28);
    (m.quotient)(
        (m.product)((m.product)((m.product)(dipole_a, dipole_b), charge), charge),
        (m.product)(m.num(1, -9), distance(m, place_a, place_b)),
    )
}

/// `start`, and the interactions of one dipole with the first `count` dipoles of
/// a cell that are not zero.
pub open spec fn dot_energy<S: Copy>(
    m: Arithmetic<S>,
    start: S,
    dipole: S,
    place: (S, S),
    dipoles: Seq<S>,
    places: Seq<(S, S)>,
    count: nat,
) -> S
    decreases count,
{
    if count == 0 {
        start
    } else {
        let j = count - 1;
        let before = dot_energy(m, start, dipole, place, dipoles, places, j as nat);
        if m.is_zero(dipoles[j]) {
            before
        } else {
            (m.sum)(before, interaction(m, dipole, place, dipoles[j], places[j]))
        }
    }
}

/// The interactions of the first `count` dipoles of one cell that are not zero
/// with the dipoles of another cell.
pub open spec fn pair_energy<S: Copy>(
    m: Arithmetic<S>,
    dipoles_a: Seq<S>,
    places_a: Seq<(S, S)>,
    dipoles_b: Seq<S>,
    places_b: Seq<(S, S)>,
    count: nat,
) -> S
    decreases count,
{
    if count == 0 {
        m.zero()
    } else {
        let i = count - 1;
        let before = pair_energy(m, dipoles_a, places_a, dipoles_b, places_b, i as nat);
        if m.is_zero(dipoles_a[i]) {
            before
        } else {
            dot_energy(m, before, dipoles_a[i], places_a[i], dipoles_b, places_b, dipoles_b.len())
        }
    }
}

/// A cell and its architecture.
pub struct Site<S> {
    pub cell: CellView<S>,
    pub architecture: ArchitectureView<S>,
}

/// The Coulomb sum over every pair of dots of two cells, for one polarization
/// component of each.
pub open spec fn raw_energy<S: Copy>(
    m: Arithmetic<S>,
    a: Site<S>,
    component_a: int,
    b: Site<S>,
    component_b: int,
) -> S {
    pair_energy(
        m,
        dipoles(m, a.architecture, component_a),
        dot_places(m, a.cell, a.architecture),
        dipoles(m, b.architecture, component_b),
        dot_places(m, b.cell, b.architecture),
        a.architecture.dot_count,
    )
}

/// The largest magnitude among the Coulomb sums of the first `count` components,
/// each with its like.
pub open spec fn strongest<S: Copy>(m: Arithmetic<S>, a: Site<S>, b: Site<S>, count: nat) -> S
    decreases count,
{
    if count == 0 {
        m.zero()
    } else {
        let c = count - 1;
        (m.larger)(strongest(m, a, b, c as nat), (m.magnitude)(raw_energy(m, a, c, b, c)))
    }
}

/// How many components two cells have in common.
pub open spec fn shared_components<S>(a: Site<S>, b: Site<S>) -> nat {
    if a.architecture.components() <= b.architecture.components() {
        a.architecture.components()
    } else {
        b.architecture.components()
    }
}

/// The Coulomb sum, where like components all count as much as the strongest:
/// they keep their own sign, turned around.
pub open spec fn levelled_energy<S: Copy>(
    m: Arithmetic<S>,
    a: Site<S>,
    component_a: int,
    b: Site<S>,
    component_b: int,
) -> S {
    let own = raw_energy(m, a, component_a, b, component_b);
    if component_a != component_b {
        own
    } else if m.is_zero(own) {
        m.zero()
    } else {
        (m.product)((m.negation)((m.sign)(own)), strongest(m, a, b, shared_components(a, b)))
    }
}

/// What Coulomb sums are multiplied by in a medium of this permittivity.
pub open spec fn energy_factor<S: Copy>(m: Arithmetic<S>, permitivity: S) -> S {
    let four_pi_epsilon = m.num(111_265_005_597_565_794_635_320_037_482, -39);
    (m.negation)((m.quotient)(m.num(1, 0), (m.product)(four_pi_epsilon, permitivity)))
}

/// The kink energy between one polarization component of each of two cells.
pub open spec fn kink_energy<S: Copy>(
    m: Arithmetic<S>,
    a: Site<S>,
    component_a: int,
    b: Site<S>,
    component_b: int,
    permitivity: S,
) -> S {
    (m.product)(
        energy_factor(m, permitivity),
        levelled_energy(m, a, component_a, b, component_b),
    )
}

impl<N: Numerics> BistableModel<N> {
    /// How far apart the centres of two cells are.
    pub fn cell_distance(
        n: &N,
        cell_a: &QCACell<N::Scalar>,
        cell_b: &QCACell<N::Scalar>,
    ) -> (far: N::Scalar)
        ensures
            forall|m: Arithmetic<N::Scalar>| #[trigger]
                m.describes(*n) ==> far == distance(
                    m,
                    place(cell_a@.position),
                    place(cell_b@.position),
                ),
            forall|m: Arithmetic<N::Scalar>, value: spec_fn(N::Scalar) -> real|
                m.describes(*n) && #[trigger] m.is_exact(value) ==> value(far) >= 0real && times(
                    value(far),
                    value(far),
                ) == squared_distance(
                    (value(cell_a.position@[0]), value(cell_a.position@[1])),
                    (value(cell_b.position@[0]), value(cell_b.position@[1])),
                ),
    {
        Self::dot_distance(n, &cell_a.position, &cell_b.position)
    }

    /// Where a single dot of `cell` lies, in the coordinates of `cell.position`.
    pub fn get_dot_position(
        n: &N,
        dot_index: usize,
        cell: &QCACell<N::Scalar>,
        architecture: &QCACellArchitecture<N::Scalar>,
    ) -> (position: [N::Scalar; 2])
        requires
            dot_index < architecture@.dot_positions.len(),
        ensures
            forall|m: Arithmetic<N::Scalar>| #[trigger]
                m.describes(*n) ==> place(position) == dot_place(
                    m,
                    place(architecture@.dot_positions[dot_index as int]),
                    cell@,
                ),
            forall|m: Arithmetic<N::Scalar>, value: spec_fn(N::Scalar) -> real|
                m.describes(*n) && #[trigger] m.is_exact(value) ==> {
                    let x = value(architecture.dot_positions@[dot_index as int]@[0]);
                    let y = value(architecture.dot_positions@[dot_index as int]@[1]);
                    let cos = value((m.cosine)(cell.rotation));
                    let sin = value((m.sine)(cell.rotation));
                    &&& value(position@[0]) == value(cell.position@[0]) + times(x, cos) - times(
                        y,
                        sin,
                    )
                    &&& value(position@[1]) == value(cell.position@[1]) + times(y, cos) + times(
                        x,
                        sin,
                    )
                },
    {
        let x = architecture.dot_positions[dot_index][0];
        let y = architecture.dot_positions[dot_index][1];
        let cos = n.cosine(cell.rotation);
        let sin = n.sine(cell.rotation);
        [
            n.difference(n.sum(cell.position[0], n.product(x, cos)), n.product(y, sin)),
            n.sum(n.sum(cell.position[1], n.product(y, cos)), n.product(x, sin)),
        ]
    }

    /// How far apart two places are.
    pub fn dot_distance(n: &N, a: &[N::Scalar; 2], b: &[N::Scalar; 2]) -> (far: N::Scalar)
        ensures
            forall|m: Arithmetic<N::Scalar>| #[trigger]
                m.describes(*n) ==> far == distance(m, place(*a), place(*b)),
            forall|m: Arithmetic<N::Scalar>, value: spec_fn(N::Scalar) -> real|
                m.describes(*n) && #[trigger] m.is_exact(value) ==> value(far) >= 0real && times(
                    value(far),
                    value(far),
                ) == squared_distance((value(a@[0]), value(a@[1])), (value(b@[0]), value(b@[1]))),
    {
        let two = n.decimal(Decimal::new(2, 0));
        let dx = n.power(n.difference(a[0], b[0]), two);
        let dy = n.power(n.difference(a[1], b[1]), two);
        let far = n.square_root(n.sum(dx, dy));
        assert forall|m: Arithmetic<N::Scalar>, value: spec_fn(N::Scalar) -> real|
            m.describes(*n) && #[trigger] m.is_exact(value) implies value(far) >= 0real && times(
            value(far),
            value(far),
        ) == squared_distance((value(a@[0]), value(a@[1])), (value(b@[0]), value(b@[1]))) by {
            distance_is_euclidean(m, value, place(*a), place(*b));
        }
        far
    }

    /// The dot occupations of a cell with a single polarized component.
    fn occupation(
        n: &N,
        num_components: usize,
        component: usize,
        polarization: N::Scalar,
    ) -> (dots: Vec<N::Scalar>)
        requires
            four_dots_per_component(*n),
            component < num_components,
        ensures
            dots@.len() == 4 * num_components,
            forall|m: Arithmetic<N::Scalar>| #[trigger]
                m.describes(*n) ==> dots@ == occupation(
                    m,
                    num_components as nat,
                    component as int,
                    polarization,
                ),
    {
        let mut components = zero_numbers(n, num_components);
        components.set(component, polarization);
        n.polarization_to_dot_probability_distribution(&components)
    }

    /// The charge dipole of each dot, for one polarization component.
    fn dipoles(
        n: &N,
        architecture: &QCACellArchitecture<N::Scalar>,
        component: usize,
    ) -> (found: Vec<N::Scalar>)
        requires
            four_dots_per_component(*n),
            architecture@.wf(),
            component < architecture@.components(),
        ensures
            found@.len() == architecture@.dot_count,
            forall|m: Arithmetic<N::Scalar>| #[trigger]
                m.describes(*n) ==> found@ == dipoles(m, architecture@, component as int),
    {
        let num_components = architecture.num_components();
        let one = n.decimal(Decimal::new(1, 0));
        let minus_one = n.decimal(Decimal::new(-1, 0));
        let positive = Self::occupation(n, num_components, component, one);
        let negative = Self::occupation(n, num_components, component, minus_one);
        let count = architecture.dot_count as usize;
        let mut found: Vec<N::Scalar> = Vec::new();
        for i in 0..count
            invariant
                count == 4 * num_components,
                positive@.len() == 4 * num_components,
                negative@.len() == 4 * num_components,
                found@.len() == i,
                forall|m: Arithmetic<N::Scalar>| #[trigger]
                    m.describes(*n) ==> forall|j: int|
                        0 <= j < i ==> found@[j] == (m.difference)(positive@[j], negative@[j]),
        {
            found.push(n.difference(positive[i], negative[i]));
        }
        assert forall|m: Arithmetic<N::Scalar>| #[trigger] m.describes(*n) implies found@
            == dipoles(m, architecture@, component as int) by {
            assert(found@ =~= dipoles(m, architecture@, component as int));
        }
        found
    }

    /// The interaction of two dipoles.
    fn interaction(
        n: &N,
        dipole_a: N::Scalar,
        place_a: &[N::Scalar; 2],
        dipole_b: N::Scalar,
        place_b: &[N::Scalar; 2],
    ) -> (energy: N::Scalar)
        ensures
            forall|m: Arithmetic<N::Scalar>| #[trigger]
                m.describes(*n) ==> energy == interaction(
                    m,
                    dipole_a,
                    place(*place_a),
                    dipole_b,
                    place(*place_b),
                ),
    {
        let charge = n.decimal(Decimal::new(1_602_176_634, -28));
        let far = n.product(n.decimal(Decimal::new(1, -9)), Self::dot_distance(n, place_a, place_b));
        n.quotient(n.product(n.product(n.product(dipole_a, dipole_b), charge), charge), far)
    }

    /// The Coulomb sum over every pair of dots of two cells, for one polarization
    /// component of each.
    fn raw_energy(
        n: &N,
        cell_a: &QCACell<N::Scalar>,
        arch_a: &QCACellArchitecture<N::Scalar>,
        component_a: usize,
        cell_b: &QCACell<N::Scalar>,
        arch_b: &QCACellArchitecture<N::Scalar>,
        component_b: usize,
    ) -> (energy: N::Scalar)
        requires
            four_dots_per_component(*n),
            arch_a@.wf(),
            arch_b@.wf(),
            component_a < arch_a@.components(),
            component_b < arch_b@.components(),
        ensures
            forall|m: Arithmetic<N::Scalar>| #[trigger]
                m.describes(*n) ==> energy == raw_energy(
                    m,
                    Site { cell: cell_a@, architecture: arch_a@ },
                    component_a as int,
                    Site { cell: cell_b@, architecture: arch_b@ },
                    component_b as int,
                ),
    {
        let n_a = arch_a.dot_count as usize;
        let n_b = arch_b.dot_count as usize;
        let dipoles_a = Self::dipoles(n, arch_a, component_a);
        let dipoles_b = Self::dipoles(n, arch_b, component_b);
        let zero = n.decimal(Decimal::new(0, 0));
        let mut energy = zero;
        for i in 0..n_a
            invariant
                n_a == arch_a@.dot_count,
                n_b == arch_b@.dot_count,
                arch_a@.wf(),
                arch_b@.wf(),
                dipoles_a@.len() == n_a,
                dipoles_b@.len() == n_b,
                forall|m: Arithmetic<N::Scalar>| #[trigger]
                    m.describes(*n) ==> zero == m.zero() && energy == pair_energy(
                        m,
                        dipoles_a@,
                        dot_places(m, cell_a@, arch_a@),
                        dipoles_b@,
                        dot_places(m, cell_b@, arch_b@),
                        i as nat,
                    ),
        {
            if !n.same(dipoles_a[i], zero) {
                let place_a = Self::get_dot_position(n, i, cell_a, arch_a);
                let ghost before = energy;
                for j in 0..n_b
                    invariant
                        n_b == arch_b@.dot_count,
                        arch_b@.wf(),
                        dipoles_a@.len() == n_a,
                        dipoles_b@.len() == n_b,
                        i < n_a,
                        forall|m: Arithmetic<N::Scalar>| #[trigger]
                            m.describes(*n) ==> zero == m.zero() && energy == dot_energy(
                                m,
                                before,
                                dipoles_a@[i as int],
                                place(place_a),
                                dipoles_b@,
                                dot_places(m, cell_b@, arch_b@),
                                j as nat,
                            ),
                {
                    if !n.same(dipoles_b[j], zero) {
                        let place_b = Self::get_dot_position(n, j, cell_b, arch_b);
                        let share = Self::interaction(
                            n,
                            dipoles_a[i],
                            &place_a,
                            dipoles_b[j],
                            &place_b,
                        );
                        energy = n.sum(energy, share);
                    }
                }
            }
        }
        energy
    }

    /// The kink energy between polarization component `component_a` of `cell_a` and
    /// polarization component `component_b` of `cell_b`.
    ///
    /// The dipole of a dot is the difference between its occupation when the
    /// component is fully positive and when it is fully negative, in both cells
    /// alike: the coupling has to be the same seen from either cell. Like
    /// components are levelled to the strongest of them, so that a vote cast on one
    /// component weighs as much as a vote cast on another; each keeps its own sign,
    /// for which way round a component prefers its like is a property of where its
    /// dots lie.
    pub fn determine_kink_energy(
        n: &N,
        cell_a: &QCACell<N::Scalar>,
        arch_a: &QCACellArchitecture<N::Scalar>,
        component_a: usize,
        cell_b: &QCACell<N::Scalar>,
        arch_b: &QCACellArchitecture<N::Scalar>,
        component_b: usize,
        permitivity: N::Scalar,
    ) -> (energy: N::Scalar)
        requires
            four_dots_per_component(*n),
            arch_a@.wf(),
            arch_b@.wf(),
            component_a < arch_a@.components(),
            component_b < arch_b@.components(),
        ensures
            forall|m: Arithmetic<N::Scalar>| #[trigger]
                m.describes(*n) ==> energy == kink_energy(
                    m,
                    Site { cell: cell_a@, architecture: arch_a@ },
                    component_a as int,
                    Site { cell: cell_b@, architecture: arch_b@ },
                    component_b as int,
                    permitivity,
                ),
    {
        let ghost a = Site { cell: cell_a@, architecture: arch_a@ };
        let ghost b = Site { cell: cell_b@, architecture: arch_b@ };
        let zero = n.decimal(Decimal::new(0, 0));
        let own = Self::raw_energy(n, cell_a, arch_a, component_a, cell_b, arch_b, component_b);
        let energy = if component_a != component_b {
            own
        } else {
            let components_a = arch_a.num_components();
            let components_b = arch_b.num_components();
            let shared = if components_a <= components_b {
                components_a
            } else {
                components_b
            };
            let mut max_magnitude = zero;
            for c in 0..shared
                invariant
                    four_dots_per_component(*n),
                    arch_a@.wf(),
                    arch_b@.wf(),
                    shared <= arch_a@.components(),
                    shared <= arch_b@.components(),
                    a == (Site { cell: cell_a@, architecture: arch_a@ }),
                    b == (Site { cell: cell_b@, architecture: arch_b@ }),
                    forall|m: Arithmetic<N::Scalar>| #[trigger]
                        m.describes(*n) ==> max_magnitude == strongest(m, a, b, c as nat),
            {
                let like = Self::raw_energy(n, cell_a, arch_a, c, cell_b, arch_b, c);
                max_magnitude = n.larger(max_magnitude, n.magnitude(like));
            }
            if n.same(own, zero) {
                zero
            } else {
                n.product(n.negation(n.sign(own)), max_magnitude)
            }
        };
        let four_pi_epsilon = n.decimal(
            Decimal::new(111_265_005_597_565_794_635_320_037_482, -39),
        );
        let one = n.decimal(Decimal::new(1, 0));
        let scale = n.negation(n.quotient(one, n.product(four_pi_epsilon, permitivity)));
        n.product(scale, energy)
    }
}

} // verus!
