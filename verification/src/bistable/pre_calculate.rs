//! Starting an iteration.

use vstd::prelude::*;

use super::{duplicate_cells, BistableModel, ModelState};
use crate::numerics::{copy_numbers, four_dots_per_component, Arithmetic, Numerics};
use crate::objects::{CellType, CellView, QCACellIndex};

verus! {

impl<S: Copy> ModelState<S> {
    /// Where the states of an input cell start in the list of input states.
    pub open spec fn input_start(self, index: QCACellIndex) -> int {
        self.components(index.layer as int) * self.cell_inputs[index]
    }

    /// Where the states of an input cell end in the list of input states.
    pub open spec fn input_end(self, index: QCACellIndex) -> int {
        self.input_start(index) + self.components(index.layer as int)
    }

    /// The list of input states covers every input cell.
    pub open spec fn feeds_all_inputs(self, input_states: Seq<S>) -> bool {
        forall|index: QCACellIndex| #[trigger]
            self.static_cells.contains_key(index) && self.static_cells[index].typ is Input
                ==> self.input_end(index) <= input_states.len()
    }

    /// A cell that holds its state, once it is fed: an input cell takes its share of
    /// the input states, a fixed cell stays as it is.
    pub open spec fn fed_cell(
        self,
        m: Arithmetic<S>,
        index: QCACellIndex,
        input_states: Seq<S>,
    ) -> CellView<S> {
        let cell = self.static_cells[index];
        if cell.typ is Input {
            CellView {
                dots: (m.distribution)(
                    input_states.subrange(self.input_start(index), self.input_end(index)),
                ),
                ..cell
            }
        } else {
            cell
        }
    }

    /// The state in which an iteration starts: what the last one wrote is read, and
    /// the input cells are fed.
    pub open spec fn pre_calculated(
        self,
        m: Arithmetic<S>,
        clock_states: Seq<S>,
        input_states: Seq<S>,
    ) -> ModelState<S> {
        ModelState {
            clock_states,
            input_states,
            read_cells: self.write_cells,
            static_cells: self.static_cells.map_entries(
                |index: QCACellIndex, cell: CellView<S>| self.fed_cell(m, index, input_states),
            ),
            ..self
        }
    }
}

impl<N: Numerics> BistableModel<N> {
    /// Starts an iteration with these clock and input states.
    pub fn pre_calculate(
        &mut self,
        clock_states: &[N::Scalar; 4],
        input_states: &Vec<N::Scalar>,
    )
        requires
            old(self).wf(),
            four_dots_per_component(old(self).numerics()),
            old(self)@.feeds_all_inputs(input_states@),
        ensures
            final(self).wf(),
            final(self).numerics() == old(self).numerics(),
            final(self)@ == (ModelState {
                clock_states: clock_states@,
                input_states: input_states@,
                read_cells: old(self)@.write_cells,
                static_cells: final(self)@.static_cells,
                ..old(self)@
            }),
            final(self)@.static_cells.dom() == old(self)@.static_cells.dom(),
            forall|index: QCACellIndex| #[trigger]
                old(self)@.static_cells.contains_key(index) ==> {
                    let before = old(self)@.static_cells[index];
                    let after = final(self)@.static_cells[index];
                    if before.typ is Input {
                        &&& after == (CellView { dots: after.dots, ..before })
                        &&& after.dots.len() == 4 * old(self)@.components(index.layer as int)
                    } else {
                        after == before
                    }
                },
            forall|m: Arithmetic<N::Scalar>| #[trigger]
                m.describes(old(self).numerics()) ==> final(self)@ == old(self)@.pre_calculated(
                    m,
                    clock_states@,
                    input_states@,
                ),
    {
        self.clock_states = *clock_states;
        self.input_states = copy_numbers(input_states);
        std::mem::swap(&mut self.read_cells, &mut self.write_cells);
        self.write_cells = duplicate_cells(&self.read_cells);

        let ghost start = old(self)@;
        let available = input_states.len();
        let count = self.static_cells.len();
        for p in 0..count
            invariant
                start == old(self)@,
                start.wf(),
                old(self).maps_wf(),
                start.feeds_all_inputs(input_states@),
                available == input_states@.len(),
                four_dots_per_component(self.numerics),
                self.numerics == old(self).numerics,
                count == self.static_cells.order().len(),
                self.static_cells.order() == old(self).static_cells.order(),
                self.maps_wf(),
                self@ == (ModelState {
                    clock_states: clock_states@,
                    input_states: input_states@,
                    read_cells: start.write_cells,
                    static_cells: self@.static_cells,
                    ..start
                }),
                self@.static_cells.dom() == start.static_cells.dom(),
                forall|q: int|
                    p <= q < count ==> self@.static_cells[#[trigger] self.static_cells.order()[q]]
                        == start.static_cells[self.static_cells.order()[q]],
                forall|q: int|
                    0 <= q < p ==> {
                        let index = #[trigger] self.static_cells.order()[q];
                        let before = start.static_cells[index];
                        let after = self@.static_cells[index];
                        if before.typ is Input {
                            &&& after == (CellView { dots: after.dots, ..before })
                            &&& after.dots.len() == 4 * start.components(index.layer as int)
                        } else {
                            after == before
                        }
                    },
                forall|m: Arithmetic<N::Scalar>| #[trigger]
                    m.describes(self.numerics) ==> forall|q: int|
                        0 <= q < p ==> self@.static_cells[#[trigger] self.static_cells.order()[q]]
                            == start.fed_cell(m, self.static_cells.order()[q], input_states@),
        {
            let index = self.static_cells.index_at(p);
            assert(self.static_cells.order().contains(index));
            assert(start.static_cells.contains_key(index));
            assert(self@.static_cells.contains_key(index));
            if let Some(cell) = self.static_cells.get(index) {
                if cell.typ == CellType::Input {
                    let num_components = self.num_components(index.layer);
                    if let Some(input_index) = self.cell_inputs.get(index) {
                        proof {
                            let number = *input_index as int;
                            assert(number == start.cell_inputs[index]);
                            assert(num_components * number >= 0) by (nonlinear_arith)
                                requires
                                    num_components >= 0,
                                    number >= 0,
                            ;
                            assert(num_components * number + num_components <= available);
                        }
                        let from = num_components * *input_index;
                        let mut input: Vec<N::Scalar> = Vec::new();
                        for k in 0..num_components
                            invariant
                                from + num_components <= available,
                                available == input_states@.len(),
                                input@ == input_states@.subrange(from as int, from + k),
                        {
                            input.push(input_states[from + k]);
                            assert(input_states@.subrange(from as int, from + k + 1)
                                == input_states@.subrange(from as int, from + k).push(
                                input_states@[from + k],
                            ));
                        }
                        let dots = self.numerics.polarization_to_dot_probability_distribution(
                            &input,
                        );
                        let fed = cell.with_dots(dots);
                        self.static_cells.insert(index, fed);
                    }
                }
            }
            assert(self@.static_cells.dom() =~= start.static_cells.dom());
        }
        proof {
            assert forall|index: QCACellIndex| #[trigger]
                start.static_cells.contains_key(index) implies exists|q: int|
                0 <= q < count && self.static_cells.order()[q] == index by {
                assert(old(self).static_cells.order().contains(index));
            }
            assert forall|m: Arithmetic<N::Scalar>| #[trigger]
                m.describes(old(self).numerics()) implies self@ == start.pre_calculated(
                m,
                clock_states@,
                input_states@,
            ) by {
                assert(self@.static_cells =~= start.pre_calculated(
                    m,
                    clock_states@,
                    input_states@,
                ).static_cells);
            }
        }
    }
}

} // verus!
