//! What a design is made of: cells, layers of cells, and cell architectures.

use vstd::hash_map::StringHashMap;
use vstd::prelude::*;

use crate::numerics::copy_numbers;

verus! {

/// The part a cell plays in a circuit.
#[derive(Clone, Copy, Debug, PartialEq, Eq, Structural)]
pub enum CellType {
    /// Follows its neighbours.
    Normal,
    /// Holds the state that the simulation feeds it.
    Input,
    /// Follows its neighbours, and is observed.
    Output,
    /// Holds one state for good.
    Fixed,
}

impl CellType {
    /// The cell does not follow its neighbours.
    pub open spec fn holds_its_state(self) -> bool {
        self is Input || self is Fixed
    }
}

/// Where a cell is: the number of its layer, and its number in that layer.
#[derive(Clone, Copy, Debug, PartialEq, Eq, Structural)]
pub struct QCACellIndex {
    pub layer: usize,
    pub cell: usize,
}

impl QCACellIndex {
    pub fn new(layer: usize, cell: usize) -> (index: QCACellIndex)
        ensures
            index.layer == layer,
            index.cell == cell,
    {
        QCACellIndex { layer, cell }
    }
}

/// A cell of a design.
#[derive(Debug)]
pub struct QCACell<S> {
    pub position: [S; 2],
    /// In radians.
    pub rotation: S,
    pub typ: CellType,
    /// In degrees.
    pub clock_phase_shift: S,
    /// How likely each dot of the cell is occupied.
    pub dot_probability_distribution: Vec<S>,
}

/// The mathematical content of a [`QCACell`].
pub struct CellView<S> {
    pub position: [S; 2],
    pub rotation: S,
    pub typ: CellType,
    pub clock_phase_shift: S,
    pub dots: Seq<S>,
}

impl<S> View for QCACell<S> {
    type V = CellView<S>;

    open spec fn view(&self) -> CellView<S> {
        CellView {
            position: self.position,
            rotation: self.rotation,
            typ: self.typ,
            clock_phase_shift: self.clock_phase_shift,
            dots: self.dot_probability_distribution@,
        }
    }
}

impl<S: Copy> QCACell<S> {
    /// This cell, with other dot occupations.
    pub fn with_dots(&self, dots: Vec<S>) -> (cell: QCACell<S>)
        ensures
            cell@ == (CellView { dots: dots@, ..self@ }),
    {
        QCACell {
            position: self.position,
            rotation: self.rotation,
            typ: self.typ,
            clock_phase_shift: self.clock_phase_shift,
            dot_probability_distribution: dots,
        }
    }

    /// A copy of this cell.
    pub fn duplicate(&self) -> (cell: QCACell<S>)
        ensures
            cell@ == self@,
    {
        self.with_dots(copy_numbers(&self.dot_probability_distribution))
    }
}

/// The dots that each cell of a layer has.
#[derive(Debug)]
pub struct QCACellArchitecture<S> {
    pub dot_count: u8,
    /// Where each dot lies, seen from the centre of a cell that is not rotated.
    pub dot_positions: Vec<[S; 2]>,
}

/// The mathematical content of a [`QCACellArchitecture`].
pub struct ArchitectureView<S> {
    pub dot_count: nat,
    pub dot_positions: Seq<[S; 2]>,
}

impl<S> ArchitectureView<S> {
    /// How many polarization components a cell has: one for four dots.
    pub open spec fn components(self) -> nat {
        self.dot_count / 4
    }

    /// The dots come in fours, and each has its place.
    pub open spec fn wf(self) -> bool {
        &&& self.dot_count % 4 == 0
        &&& self.dot_count <= self.dot_positions.len()
    }
}

impl<S> View for QCACellArchitecture<S> {
    type V = ArchitectureView<S>;

    open spec fn view(&self) -> ArchitectureView<S> {
        ArchitectureView { dot_count: self.dot_count as nat, dot_positions: self.dot_positions@ }
    }
}

impl<S> QCACellArchitecture<S> {
    /// How many polarization components a cell has.
    pub fn num_components(&self) -> (count: usize)
        ensures
            count == self@.components(),
            count < 64,
    {
        self.dot_count as usize / 4
    }

    /// Whether the dots come in fours, and each has its place.
    pub fn is_wf(&self) -> (wf: bool)
        ensures
            wf == self@.wf(),
    {
        self.dot_count % 4 == 0 && self.dot_count as usize <= self.dot_positions.len()
    }
}

/// A layer of cells that share an architecture.
#[derive(Debug)]
pub struct QCALayer<S> {
    pub cell_architecture_id: String,
    pub cells: Vec<QCACell<S>>,
}

/// The mathematical content of a [`QCALayer`].
pub struct LayerView<S> {
    pub cell_architecture_id: Seq<char>,
    pub cells: Seq<CellView<S>>,
}

impl<S> View for QCALayer<S> {
    type V = LayerView<S>;

    open spec fn view(&self) -> LayerView<S> {
        LayerView {
            cell_architecture_id: self.cell_architecture_id@,
            cells: Seq::new(self.cells@.len(), |j: int| self.cells@[j]@),
        }
    }
}

/// The mathematical content of a list of layers.
pub open spec fn layer_views<S>(layers: Seq<QCALayer<S>>) -> Seq<LayerView<S>> {
    Seq::new(layers.len(), |i: int| layers[i]@)
}

/// The architectures of a design, by their ids.
#[verifier::reject_recursive_types(S)]
pub struct ArchitectureMap<S> {
    by_id: StringHashMap<QCACellArchitecture<S>>,
}

impl<S> View for ArchitectureMap<S> {
    type V = Map<Seq<char>, ArchitectureView<S>>;

    closed spec fn view(&self) -> Map<Seq<char>, ArchitectureView<S>> {
        self.by_id@.map_values(|architecture: QCACellArchitecture<S>| architecture@)
    }
}

impl<S> ArchitectureMap<S> {
    /// No architectures.
    pub fn new() -> (map: ArchitectureMap<S>)
        ensures
            map@ == Map::<Seq<char>, ArchitectureView<S>>::empty(),
    {
        let map = ArchitectureMap { by_id: StringHashMap::new() };
        assert(map@ =~= Map::<Seq<char>, ArchitectureView<S>>::empty());
        map
    }

    /// Gives the id to this architecture, in place of any that had it.
    pub fn insert(&mut self, id: String, architecture: QCACellArchitecture<S>)
        ensures
            final(self)@ == old(self)@.insert(id@, architecture@),
    {
        self.by_id.insert(id, architecture);
        assert(self@ =~= old(self)@.insert(id@, architecture@));
    }

    /// The architecture with this id.
    pub fn get(&self, id: &str) -> (architecture: Option<&QCACellArchitecture<S>>)
        ensures
            match architecture {
                Some(found) => self@.contains_key(id@) && found@ == self@[id@],
                None => !self@.contains_key(id@),
            },
    {
        self.by_id.get(id)
    }
}

} // verus!
