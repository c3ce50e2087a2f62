//! Computing the next state of a cell.

use vstd::prelude::*;

use super::field_laws::{field_sums_up_the_neighbors, one_moving_dot_unsettles, polarization_seen};
use super::{BistableModel, BistableNeighbor, ModelState};
use crate::numerics::{four_dots_per_component, zero_numbers, Arithmetic, Decimal, Numerics};
use crate::objects::{CellView, QCACell, QCACellIndex};
use crate::reals::times;
use crate::sums::sum_of;

verus! {

/// `start`, and the first `count` polarization components of a neighbour, each
/// weighed by its coupling.
pub open spec fn weighed<S: Copy>(
    m: Arithmetic<S>,
    start: S,
    coupling: Seq<S>,
    polarization: Seq<S>,
    count: nat,
) -> S
    decreases count,
{
    if count == 0 {
        start
    } else {
        let l = count - 1;
        (m.sum)(
            weighed(m, start, coupling, polarization, l as nat),
            (m.product)(coupling[l], polarization[l]),
        )
    }
}

/// Which of the four clock signals drives a cell with this phase shift.
pub open spec fn clock_index<S: Copy>(m: Arithmetic<S>, phase_shift: S) -> nat {
    (m.index)((m.quotient)((m.remainder)(phase_shift, m.num(360, 0)), m.num(90, 0)))
}

/// How strongly the field pulls at each component, against the clock.
pub open spec fn pulls<S: Copy>(m: Arithmetic<S>, field: Seq<S>, clock_state: S) -> Seq<S> {
    let clock = (m.product)(m.num(2, 0), clock_state);
    Seq::new(field.len(), |k: int| (m.quotient)(field[k], clock))
}

/// The magnitudes of the first `count` pulls together.
pub open spec fn total_pull<S: Copy>(m: Arithmetic<S>, pulls: Seq<S>, count: nat) -> S
    decreases count,
{
    if count == 0 {
        m.zero()
    } else {
        let k = count - 1;
        (m.sum)(total_pull(m, pulls, k as nat), (m.magnitude)(pulls[k]))
    }
}

/// The polarization that a total pull leads to: the pull itself where it is small,
/// just below one where it is large, and a smooth curve in between.
pub open spec fn saturated<S: Copy>(m: Arithmetic<S>, pull: S) -> S {
    if (m.exceeds)(pull, m.num(1000, 0)) {
        (m.difference)(m.num(1, 0), m.num(1, -9))
    } else if (m.exceeds)(m.num(1, -3), pull) {
        pull
    } else {
        (m.quotient)(pull, (m.square_root)((m.sum)(m.num(1, 0), (m.product)(pull, pull))))
    }
}

/// The component with the strongest of the first `count` pulls; the last one, where
/// several are as strong.
pub open spec fn dominant<S: Copy>(m: Arithmetic<S>, pulls: Seq<S>, count: nat) -> int
    decreases count,
{
    if count <= 1 {
        0
    } else {
        let k = count - 1;
        let before = dominant(m, pulls, k as nat);
        if (m.exceeds)((m.magnitude)(pulls[before]), (m.magnitude)(pulls[k])) {
            before
        } else {
            k
        }
    }
}

/// The polarization that a cell takes on: all of it goes to the component with the
/// strongest pull.
pub open spec fn response<S: Copy>(m: Arithmetic<S>, pulls: Seq<S>) -> Seq<S> {
    let pull = total_pull(m, pulls, pulls.len());
    let strongest = dominant(m, pulls, pulls.len());
    if pulls.len() > 0 && (m.exceeds)(pull, m.zero()) {
        m.zeros(pulls.len()).update(
            strongest,
            (m.product)((m.sign)(pulls[strongest]), saturated(m, pull)),
        )
    } else {
        m.zeros(pulls.len())
    }
}

/// No dot moved further than the tolerance.
pub open spec fn settled<S: Copy>(
    m: Arithmetic<S>,
    before: Seq<S>,
    after: Seq<S>,
    tolerance: S,
) -> bool {
    forall|i: int|
        0 <= i < after.len() ==> !(m.exceeds)(
            (m.magnitude)((m.difference)(#[trigger] after[i], before[i])),
            tolerance,
        )
}

impl<S: Copy> ModelState<S> {
    /// The neighbours of a cell have no more dots than their polarization components
    /// account for.
    pub open spec fn can_read_neighbors(self, index: QCACellIndex) -> bool {
        self.components(index.layer as int) > 0 ==> forall|t: int|
            0 <= t < self.neighbors(index).len() ==> self.can_read(
                (#[trigger] self.neighbors(index)[t]).cell_index,
            )
    }

    /// A cell has no more dots than its polarization components account for.
    pub open spec fn can_read(self, index: QCACellIndex) -> bool {
        self.seen_cell(index).dots.len() / 4 <= self.components(index.layer as int)
    }

    /// A cell that follows its neighbours can read them, and has a dot for each
    /// occupation that a calculation gives it.
    pub open spec fn can_calculate(self, index: QCACellIndex) -> bool {
        self.write_cells.contains_key(index) ==> {
            &&& self.can_read_neighbors(index)
            &&& 4 * self.components(index.layer as int) <= self.write_cells[index].dots.len()
        }
    }

    /// The polarization of a cell as its neighbours see it.
    pub open spec fn seen_polarization(self, m: Arithmetic<S>, index: QCACellIndex) -> Seq<S> {
        (m.polarization)(self.seen_cell(index).dots)
    }

    /// The field on one component of a cell, from its first `count` neighbours.
    pub open spec fn field_component(
        self,
        m: Arithmetic<S>,
        index: QCACellIndex,
        component: int,
        count: nat,
    ) -> S
        decreases count,
    {
        if count == 0 {
            m.zero()
        } else {
            let t = count - 1;
            let neighbor = self.neighbors(index)[t];
            let polarization = self.seen_polarization(m, neighbor.cell_index);
            weighed(
                m,
                self.field_component(m, index, component, t as nat),
                neighbor.kink_energy[component],
                polarization,
                polarization.len(),
            )
        }
    }

    /// The field on each component of a cell.
    pub open spec fn effective_field(self, m: Arithmetic<S>, index: QCACellIndex) -> Seq<S> {
        Seq::new(
            self.components(index.layer as int),
            |k: int| self.field_component(m, index, k, self.neighbors(index).len()),
        )
    }

    /// Which clock signal drives a cell that follows its neighbours.
    pub open spec fn clock_index(self, m: Arithmetic<S>, index: QCACellIndex) -> nat {
        clock_index(m, self.write_cells[index].clock_phase_shift)
    }

    /// The state of that clock signal.
    pub open spec fn clock_state(self, m: Arithmetic<S>, index: QCACellIndex) -> S {
        self.clock_states[self.clock_index(m, index) as int]
    }

    /// The polarization of a cell, once it has followed its neighbours.
    pub open spec fn calculated_polarization(
        self,
        m: Arithmetic<S>,
        index: QCACellIndex,
    ) -> Seq<S> {
        response(m, pulls(m, self.effective_field(m, index), self.clock_state(m, index)))
    }

    /// The dots of a cell, once it has followed its neighbours.
    pub open spec fn calculated_dots(self, m: Arithmetic<S>, index: QCACellIndex) -> Seq<S> {
        (m.distribution)(self.calculated_polarization(m, index))
    }

    /// The state in which the model is, once a cell has followed its neighbours.
    pub open spec fn calculated(self, m: Arithmetic<S>, index: QCACellIndex) -> ModelState<S> {
        let cell = CellView { dots: self.calculated_dots(m, index), ..self.write_cells[index] };
        ModelState { write_cells: self.write_cells.insert(index, cell), ..self }
    }

    /// A cell that follows its neighbours stays where it is, within the tolerance.
    pub open spec fn is_stable(self, m: Arithmetic<S>, index: QCACellIndex) -> bool {
        settled(
            m,
            self.write_cells[index].dots,
            self.calculated_dots(m, index),
            self.model_settings.convergence_tolerance,
        )
    }
}

impl<N: Numerics> BistableModel<N> {
    /// The polarization that a total pull leads to.
    pub fn saturate(n: &N, pull: N::Scalar) -> (polarization: N::Scalar)
        ensures
            forall|m: Arithmetic<N::Scalar>| #[trigger]
                m.describes(*n) ==> polarization == saturated(m, pull),
    {
        let one = n.decimal(Decimal::new(1, 0));
        if n.exceeds(pull, n.decimal(Decimal::new(1000, 0))) {
            n.difference(one, n.decimal(Decimal::new(1, -9)))
        } else if n.exceeds(n.decimal(Decimal::new(1, -3)), pull) {
            pull
        } else {
            n.quotient(pull, n.square_root(n.sum(one, n.product(pull, pull))))
        }
    }

    /// The component with the strongest pull.
    pub fn dominant_component(n: &N, pulls: &Vec<N::Scalar>) -> (strongest: usize)
        requires
            pulls@.len() > 0,
        ensures
            strongest < pulls@.len(),
            forall|m: Arithmetic<N::Scalar>| #[trigger]
                m.describes(*n) ==> strongest == dominant(m, pulls@, pulls@.len()),
    {
        let mut strongest: usize = 0;
        for k in 1..pulls.len()
            invariant
                pulls@.len() > 0,
                strongest < k,
                forall|m: Arithmetic<N::Scalar>| #[trigger]
                    m.describes(*n) ==> strongest == dominant(m, pulls@, k as nat),
        {
            if !n.exceeds(n.magnitude(pulls[strongest]), n.magnitude(pulls[k])) {
                strongest = k;
            }
        }
        strongest
    }

    /// The polarization that a field leads to, against a clock signal.
    ///
    /// Each component and sign is a state of its own, and a cell settles in one of
    /// them. Where neighbours pull at different components the cell commits to the
    /// one with the strongest net pull, for a blend could not come to a majority
    /// decision. How far it is polarized goes by all the pulls together, so that a
    /// field close to a tie polarizes it weakly.
    pub fn respond(
        n: &N,
        field: &Vec<N::Scalar>,
        clock_state: N::Scalar,
    ) -> (polarization: Vec<N::Scalar>)
        ensures
            polarization@.len() == field@.len(),
            forall|m: Arithmetic<N::Scalar>| #[trigger]
                m.describes(*n) ==> polarization@ == response(m, pulls(m, field@, clock_state)),
    {
        let clock = n.product(n.decimal(Decimal::new(2, 0)), clock_state);
        let zero = n.decimal(Decimal::new(0, 0));
        let count = field.len();
        let mut pull_list: Vec<N::Scalar> = Vec::new();
        let mut pull = zero;
        for k in 0..count
            invariant
                count == field@.len(),
                pull_list@.len() == k,
                forall|m: Arithmetic<N::Scalar>| #[trigger]
                    m.describes(*n) ==> {
                        &&& clock == (m.product)(m.num(2, 0), clock_state)
                        &&& pull_list@ == pulls(m, field@, clock_state).take(k as int)
                        &&& pull == total_pull(m, pulls(m, field@, clock_state), k as nat)
                    },
        {
            let next = n.quotient(field[k], clock);
            pull_list.push(next);
            pull = n.sum(pull, n.magnitude(next));
            assert forall|m: Arithmetic<N::Scalar>| #[trigger]
                m.describes(*n) implies pull_list@ == pulls(m, field@, clock_state).take(
                k + 1,
            ) by {
                let all = pulls(m, field@, clock_state);
                assert(all.take(k + 1) == all.take(k as int).push(all[k as int]));
            }
        }
        assert forall|m: Arithmetic<N::Scalar>| #[trigger] m.describes(*n) implies pull_list@
            == pulls(m, field@, clock_state) by {
            let all = pulls(m, field@, clock_state);
            assert(all.take(count as int) == all);
        }
        let mut polarization = zero_numbers(n, count);
        if n.exceeds(pull, zero) && count > 0 {
            let strongest = Self::dominant_component(n, &pull_list);
            let amount = n.product(n.sign(pull_list[strongest]), Self::saturate(n, pull));
            polarization.set(strongest, amount);
        }
        polarization
    }

    /// No dot moved further than the tolerance.
    pub fn settled(
        n: &N,
        before: &Vec<N::Scalar>,
        after: &Vec<N::Scalar>,
        tolerance: N::Scalar,
    ) -> (stable: bool)
        requires
            after@.len() <= before@.len(),
        ensures
            forall|m: Arithmetic<N::Scalar>| #[trigger]
                m.describes(*n) ==> stable == settled(m, before@, after@, tolerance),
            forall|m: Arithmetic<N::Scalar>| #[trigger]
                m.describes(*n) ==> (!stable <==> exists|i: int|
                    #![trigger after@[i]]
                    0 <= i < after@.len() && (m.exceeds)(
                        (m.magnitude)((m.difference)(after@[i], before@[i])),
                        tolerance,
                    )),
    {
        let mut stable = true;
        for i in 0..after.len()
            invariant
                after@.len() <= before@.len(),
                forall|m: Arithmetic<N::Scalar>| #[trigger]
                    m.describes(*n) ==> stable == settled(
                        m,
                        before@,
                        after@.take(i as int),
                        tolerance,
                    ),
        {
            let ghost was_stable = stable;
            let moved = n.magnitude(n.difference(after[i], before[i]));
            if n.exceeds(moved, tolerance) {
                stable = false;
            }
            assert forall|m: Arithmetic<N::Scalar>| #[trigger] m.describes(*n) implies stable
                == settled(m, before@, after@.take(i + 1), tolerance) by {
                let fewer = after@.take(i as int);
                let more = after@.take(i + 1);
                assert(more[i as int] == after@[i as int]);
                assert(was_stable == settled(m, before@, fewer, tolerance));
                if settled(m, before@, more, tolerance) {
                    assert forall|j: int| 0 <= j < fewer.len() implies !(m.exceeds)(
                        (m.magnitude)((m.difference)(#[trigger] fewer[j], before@[j])),
                        tolerance,
                    ) by {
                        assert(more[j] == fewer[j]);
                    }
                }
                if stable {
                    assert forall|j: int| 0 <= j < more.len() implies !(m.exceeds)(
                        (m.magnitude)((m.difference)(#[trigger] more[j], before@[j])),
                        tolerance,
                    ) by {
                        if j < i {
                            assert(more[j] == fewer[j]);
                        }
                    }
                }
            }
        }
        assert(after@.take(after@.len() as int) == after@);
        assert forall|m: Arithmetic<N::Scalar>| #[trigger] m.describes(*n) implies (
        !stable <==> exists|i: int|
            #![trigger after@[i]]
            0 <= i < after@.len() && (m.exceeds)(
                (m.magnitude)((m.difference)(after@[i], before@[i])),
                tolerance,
            )) by {
            one_moving_dot_unsettles(m, before@, after@, tolerance);
        }
        stable
    }

    /// Adds what one neighbour contributes to the field on a cell.
    fn add_neighbor(
        n: &N,
        field: &mut Vec<N::Scalar>,
        neighbor: &BistableNeighbor<N::Scalar>,
        polarization: &Vec<N::Scalar>,
    )
        requires
            neighbor@.kink_energy.len() == old(field)@.len(),
            forall|k: int|
                0 <= k < neighbor@.kink_energy.len() ==> polarization@.len() <= (
                #[trigger] neighbor@.kink_energy[k]).len(),
        ensures
            final(field)@.len() == old(field)@.len(),
            forall|m: Arithmetic<N::Scalar>| #[trigger]
                m.describes(*n) ==> forall|k: int|
                    0 <= k < final(field)@.len() ==> (#[trigger] final(field)@[k]) == weighed(
                        m,
                        old(field)@[k],
                        neighbor@.kink_energy[k],
                        polarization@,
                        polarization@.len(),
                    ),
    {
        let ghost before = field@;
        let num_components = field.len();
        let count = polarization.len();
        for k in 0..num_components
            invariant
                before == old(field)@,
                num_components == before.len(),
                count == polarization@.len(),
                field@.len() == num_components,
                neighbor@.kink_energy.len() == num_components,
                forall|j: int|
                    0 <= j < num_components ==> count <= (
                    #[trigger] neighbor@.kink_energy[j]).len(),
                forall|j: int| k <= j < num_components ==> (#[trigger] field@[j]) == before[j],
                forall|m: Arithmetic<N::Scalar>| #[trigger]
                    m.describes(*n) ==> forall|j: int|
                        0 <= j < k ==> (#[trigger] field@[j]) == weighed(
                            m,
                            before[j],
                            neighbor@.kink_energy[j],
                            polarization@,
                            count as nat,
                        ),
        {
            let ghost coupling = neighbor@.kink_energy[k as int];
            let mut component = field[k];
            for l in 0..count
                invariant
                    k < num_components,
                    count == polarization@.len(),
                    neighbor@.kink_energy.len() == num_components,
                    coupling == neighbor@.kink_energy[k as int],
                    count <= coupling.len(),
                    forall|m: Arithmetic<N::Scalar>| #[trigger]
                        m.describes(*n) ==> component == weighed(
                            m,
                            before[k as int],
                            coupling,
                            polarization@,
                            l as nat,
                        ),
            {
                let share = n.product(neighbor.kink_energy[k][l], polarization[l]);
                component = n.sum(component, share);
            }
            field.set(k, component);
        }
    }

    /// The field on each component of a cell, from all its neighbours.
    pub fn effective_field(&self, cell_ind: QCACellIndex) -> (field: Vec<N::Scalar>)
        requires
            self.wf(),
            four_dots_per_component(self.numerics()),
            self@.has_cell(cell_ind),
            self@.can_read_neighbors(cell_ind),
        ensures
            field@.len() == self@.components(cell_ind.layer as int),
            forall|m: Arithmetic<N::Scalar>| #[trigger]
                m.describes(self.numerics()) ==> field@ == self@.effective_field(m, cell_ind),
            forall|m: Arithmetic<N::Scalar>, value: spec_fn(N::Scalar) -> real, k: int|
                #![trigger m.describes(self.numerics()), m.is_exact(value), field@[k]]
                m.describes(self.numerics()) && m.is_exact(value) && 0 <= k < field@.len()
                    && self@.neighborhoods.contains_key(cell_ind) ==> value(field@[k]) == sum_of(
                    |t: int|
                        {
                            let near = self@.neighborhoods[cell_ind][t];
                            let seen = polarization_seen(m, self@, near.cell_index);
                            sum_of(
                                |l: int| times(value(near.kink_energy[k][l]), value(seen[l])),
                                seen.len(),
                            )
                        },
                    self@.neighborhoods[cell_ind].len(),
                ),
    {
        let n = &self.numerics;
        let num_components = self.num_components(cell_ind.layer);
        let mut field = zero_numbers(n, num_components);
        if let Some(neighborhood) = self.neighborhoods.get(cell_ind) {
            let count = neighborhood.neighbors.len();
            for t in 0..count
                invariant
                    self.wf(),
                    *n == self.numerics,
                    four_dots_per_component(*n),
                    self@.neighborhoods.contains_key(cell_ind),
                    self@.can_read_neighbors(cell_ind),
                    neighborhood@ == self@.neighborhoods[cell_ind],
                    count == neighborhood@.len(),
                    field@.len() == num_components,
                    num_components == self@.components(cell_ind.layer as int),
                    forall|m: Arithmetic<N::Scalar>| #[trigger]
                        m.describes(*n) ==> forall|k: int|
                            0 <= k < num_components ==> (#[trigger] field@[k])
                                == self@.field_component(m, cell_ind, k, t as nat),
            {
                let neighbor = &neighborhood.neighbors[t];
                assert(neighbor@ == self@.neighborhoods[cell_ind][t as int]);
                assert(neighbor@ == self@.neighbors(cell_ind)[t as int]);
                assert(self@.neighbor_fits(cell_ind, neighbor@));
                let cell = self.seen_cell(neighbor.cell_index);
                let polarization = n.dot_probability_distribution_to_polarization(
                    &cell.dot_probability_distribution,
                );
                Self::add_neighbor(n, &mut field, neighbor, &polarization);
                assert forall|m: Arithmetic<N::Scalar>| #[trigger]
                    m.describes(*n) implies forall|k: int|
                    0 <= k < num_components ==> (#[trigger] field@[k]) == self@.field_component(
                        m,
                        cell_ind,
                        k,
                        (t + 1) as nat,
                    ) by {
                    assert(polarization@ == self@.seen_polarization(m, neighbor@.cell_index));
                }
            }
        }
        assert forall|m: Arithmetic<N::Scalar>| #[trigger]
            m.describes(self.numerics()) implies field@ == self@.effective_field(m, cell_ind) by {
            assert(field@ =~= self@.effective_field(m, cell_ind));
        }
        assert forall|m: Arithmetic<N::Scalar>, value: spec_fn(N::Scalar) -> real, k: int|
            #![trigger m.describes(self.numerics()), m.is_exact(value), field@[k]]
            m.describes(self.numerics()) && m.is_exact(value) && 0 <= k < field@.len()
                && self@.neighborhoods.contains_key(cell_ind) implies value(field@[k]) == sum_of(
            |t: int|
                {
                    let near = self@.neighborhoods[cell_ind][t];
                    let seen = polarization_seen(m, self@, near.cell_index);
                    sum_of(
                        |l: int| times(value(near.kink_energy[k][l]), value(seen[l])),
                        seen.len(),
                    )
                },
            self@.neighborhoods[cell_ind].len(),
        ) by {
            field_sums_up_the_neighbors(m, value, self@, cell_ind, k);
        }
        field
    }

    /// The cell as its neighbours see it.
    pub(super) fn seen_cell(&self, index: QCACellIndex) -> (cell: &QCACell<N::Scalar>)
        requires
            self.wf(),
            self@.has_cell(index),
        ensures
            cell@ == self@.seen_cell(index),
    {
        if let Some(cell) = self.read_cells.get(index) {
            cell
        } else {
            self.static_cells.get(index).unwrap()
        }
    }

    /// Lets a cell follow its neighbours, and tells whether it stayed where it was,
    /// within the tolerance. A cell that holds its state stays where it is.
    ///
    /// There is no answer, and nothing changes, where the phase shift of the cell
    /// leads past the four clock signals.
    pub fn calculate(&mut self, cell_ind: QCACellIndex) -> (stable: Option<bool>)
        requires
            old(self).wf(),
            four_dots_per_component(old(self).numerics()),
            old(self)@.can_calculate(cell_ind),
        ensures
            final(self).wf(),
            final(self).numerics() == old(self).numerics(),
            final(self)@ == (ModelState {
                write_cells: final(self)@.write_cells,
                ..old(self)@
            }),
            !old(self)@.write_cells.contains_key(cell_ind) ==> {
                &&& stable == Some(true)
                &&& final(self)@ == old(self)@
            },
            stable is None ==> final(self)@ == old(self)@,
            old(self)@.write_cells.contains_key(cell_ind) && stable is Some ==> {
                let before = old(self)@.write_cells[cell_ind];
                let after = final(self)@.write_cells[cell_ind];
                &&& final(self)@.write_cells == old(self)@.write_cells.insert(cell_ind, after)
                &&& after == (CellView { dots: after.dots, ..before })
                &&& after.dots.len() == 4 * old(self)@.components(cell_ind.layer as int)
            },
            forall|m: Arithmetic<N::Scalar>| #[trigger]
                m.describes(old(self).numerics()) && old(self)@.write_cells.contains_key(cell_ind)
                    ==> if old(self)@.clock_index(m, cell_ind) < 4 {
                    &&& stable == Some(old(self)@.is_stable(m, cell_ind))
                    &&& final(self)@ == old(self)@.calculated(m, cell_ind)
                } else {
                    stable is None
                },
            forall|m: Arithmetic<N::Scalar>| #[trigger]
                m.describes(old(self).numerics()) && old(self)@.write_cells.contains_key(cell_ind)
                    && stable is Some ==> {
                    let before = old(self)@.write_cells[cell_ind].dots;
                    let after = final(self)@.write_cells[cell_ind].dots;
                    stable == Some(false) <==> exists|i: int|
                        #![trigger after[i]]
                        0 <= i < after.len() && (m.exceeds)(
                            (m.magnitude)((m.difference)(after[i], before[i])),
                            old(self)@.model_settings.convergence_tolerance,
                        )
                },
    {
        let (phase_shift, tolerance) = match self.write_cells.get(cell_ind) {
            None => {
                return Some(true);
            },
            Some(cell) => (cell.clock_phase_shift, self.model_settings.convergence_tolerance),
        };
        assert(self@.read_cells.contains_key(cell_ind));
        let field = self.effective_field(cell_ind);
        let n = &self.numerics;
        let phase = n.remainder(phase_shift, n.decimal(Decimal::new(360, 0)));
        let clock_index = n.index(n.quotient(phase, n.decimal(Decimal::new(90, 0))));
        if clock_index >= 4 {
            return None;
        }
        let polarization = Self::respond(n, &field, self.clock_states[clock_index]);
        let dots = n.polarization_to_dot_probability_distribution(&polarization);
        let cell = self.write_cells.get(cell_ind).unwrap();
        let stable = Self::settled(n, &cell.dot_probability_distribution, &dots, tolerance);
        let moved = cell.with_dots(dots);
        self.write_cells.insert(cell_ind, moved);
        assert(self@.read_cells.dom() =~= self@.write_cells.dom());
        Some(stable)
    }
}

} // verus!
