//! Telling beforehand whether a model can do what it is asked for.

use vstd::prelude::*;

use super::BistableModel;
use crate::numerics::Numerics;
use crate::objects::QCACellIndex;

verus! {

impl<N: Numerics> BistableModel<N> {
    /// Whether the list of input states covers every input cell.
    pub fn accepts_inputs(&self, input_states: &Vec<N::Scalar>) -> (accepted: bool)
        requires
            self.wf(),
        ensures
            accepted == self@.feeds_all_inputs(input_states@),
    {
        let available = input_states.len();
        let count = self.static_cells.len();
        for p in 0..count
            invariant
                self.wf(),
                available == input_states@.len(),
                count == self.static_cells.order().len(),
                forall|q: int|
                    0 <= q < p ==> {
                        let index = #[trigger] self.static_cells.order()[q];
                        self@.static_cells[index].typ is Input ==> self@.input_end(index)
                            <= available
                    },
        {
            let index = self.static_cells.index_at(p);
            assert(self.static_cells.order().contains(index));
            assert(self@.static_cells.contains_key(index));
            if let Some(number) = self.cell_inputs.get(index) {
                let components = self.num_components(index.layer) as u128;
                proof {
                    let n = components as int;
                    let c = *number as int;
                    assert(0 <= n * c + n <= 0x1_0000_0000_0000_0000 * 0x1_0000_0000) by (nonlinear_arith)
                        requires
                            0 <= n <= 0xff,
                            0 <= c < 0x1_0000_0000_0000_0000,
                    ;
                    assert(0 <= n * c) by (nonlinear_arith)
                        requires
                            0 <= n,
                            0 <= c,
                    ;
                }
                if components * (*number as u128) + components > available as u128 {
                    assert(self@.static_cells.contains_key(index));
                    assert(self@.static_cells[index].typ is Input);
                    return false;
                }
            }
        }
        assert forall|index: QCACellIndex| #[trigger]
            self@.static_cells.contains_key(index)
                && self@.static_cells[index].typ is Input implies self@.input_end(index)
            <= available by {
            assert(self.static_cells.order().contains(index));
            let q = self.static_cells.order().index_of(index);
            assert(self.static_cells.order()[q] == index);
        }
        true
    }

    /// Whether the model has a cell with this index.
    pub fn has_cell(&self, index: QCACellIndex) -> (found: bool)
        ensures
            found == self@.has_cell(index),
    {
        self.static_cells.get(index).is_some() || self.read_cells.get(index).is_some()
    }

    /// Whether the cell can be calculated.
    pub fn can_calculate(&self, index: QCACellIndex) -> (able: bool)
        requires
            self.wf(),
        ensures
            able == self@.can_calculate(index),
    {
        let room = match self.write_cells.get(index) {
            None => {
                return true;
            },
            Some(cell) => cell.dot_probability_distribution.len(),
        };
        assert(self@.read_cells.contains_key(index));
        let components = self.num_components(index.layer);
        if 4 * components > room {
            return false;
        }
        if components == 0 {
            return true;
        }
        if let Some(neighborhood) = self.neighborhoods.get(index) {
            let count = neighborhood.neighbors.len();
            for t in 0..count
                invariant
                    self.wf(),
                    components > 0,
                    components == self@.components(index.layer as int),
                    self@.write_cells.contains_key(index),
                    self@.neighborhoods.contains_key(index),
                    neighborhood@ == self@.neighborhoods[index],
                    count == neighborhood@.len(),
                    forall|s: int|
                        0 <= s < t ==> self@.can_read(
                            (#[trigger] self@.neighbors(index)[s]).cell_index,
                        ),
            {
                let other = neighborhood.neighbors[t].cell_index;
                assert(neighborhood@[t as int].cell_index == other);
                assert(self@.neighbor_fits(index, self@.neighborhoods[index][t as int]));
                assert(self@.neighbors(index)[t as int].cell_index == other);
                let dots = self.seen_cell(other).dot_probability_distribution.len();
                if dots / 4 > self.num_components(other.layer) {
                    assert(!self@.can_read(self@.neighbors(index)[t as int].cell_index));
                    return false;
                }
            }
        }
        true
    }
}

} // verus!
