//! The bistable simulation model.

pub mod calculate;
pub mod checks;
pub mod coulomb_laws;
pub mod design_laws;
pub mod energy_laws;
pub mod field_laws;
pub mod geometry;
pub mod initiate;
pub mod kink;
pub mod laws;
pub mod persistence;
pub mod placement_laws;
pub mod pre_calculate;
pub mod response_laws;
pub mod symmetry;

use vstd::prelude::*;

use crate::cell_map::CellMap;
use crate::numerics::{copy_numbers, Arithmetic, Decimal, Numerics};
use crate::objects::{
    layer_views, ArchitectureMap, ArchitectureView, CellView, LayerView, QCACell, QCACellIndex,
    QCALayer,
};
use crate::settings::{
    default_clock_settings, default_model_settings, BistableClockGeneratorSettings,
    BistableModelSettings,
};

verus! {

/// A cell near another one, and how strongly it acts on it.
pub struct BistableNeighbor<S> {
    pub cell_index: QCACellIndex,
    /// `kink_energy[k][l]` is the coupling between polarization component `k` of
    /// the cell and polarization component `l` of the neighbour.
    pub kink_energy: Vec<Vec<S>>,
}

/// The mathematical content of a [`BistableNeighbor`].
pub struct NeighborView<S> {
    pub cell_index: QCACellIndex,
    pub kink_energy: Seq<Seq<S>>,
}

impl<S> View for BistableNeighbor<S> {
    type V = NeighborView<S>;

    open spec fn view(&self) -> NeighborView<S> {
        NeighborView {
            cell_index: self.cell_index,
            kink_energy: Seq::new(self.kink_energy@.len(), |k: int| self.kink_energy@[k]@),
        }
    }
}

/// All the neighbours of a cell.
pub struct Neighborhood<S> {
    pub neighbors: Vec<BistableNeighbor<S>>,
}

impl<S> View for Neighborhood<S> {
    type V = Seq<NeighborView<S>>;

    open spec fn view(&self) -> Seq<NeighborView<S>> {
        Seq::new(self.neighbors@.len(), |t: int| self.neighbors@[t]@)
    }
}

/// A bistable simulation: the cells of a design, and the states they are in.
///
/// Cells that hold their state are kept apart from those that follow their
/// neighbours. The latter have two states each: the one that the current iteration
/// reads, and the one that it writes.
pub struct BistableModel<N: Numerics> {
    numerics: N,
    clock_states: [N::Scalar; 4],
    input_states: Vec<N::Scalar>,
    static_cells: CellMap<QCACell<N::Scalar>>,
    read_cells: CellMap<QCACell<N::Scalar>>,
    write_cells: CellMap<QCACell<N::Scalar>>,
    cell_inputs: CellMap<usize>,
    layers: Vec<QCALayer<N::Scalar>>,
    architectures: ArchitectureMap<N::Scalar>,
    neighborhoods: CellMap<Neighborhood<N::Scalar>>,
    model_settings: BistableModelSettings<N::Scalar>,
    clock_settings: BistableClockGeneratorSettings<N::Scalar>,
}

/// The mathematical content of a [`BistableModel`], but for its numerics.
pub struct ModelState<S> {
    /// The amplitudes of the four clock signals.
    pub clock_states: Seq<S>,
    pub input_states: Seq<S>,
    /// The cells that hold their state.
    pub static_cells: Map<QCACellIndex, CellView<S>>,
    /// The other cells, as the current iteration finds them.
    pub read_cells: Map<QCACellIndex, CellView<S>>,
    /// The other cells, as the current iteration leaves them.
    pub write_cells: Map<QCACellIndex, CellView<S>>,
    /// The number of each input cell.
    pub cell_inputs: Map<QCACellIndex, usize>,
    pub layers: Seq<LayerView<S>>,
    pub architectures: Map<Seq<char>, ArchitectureView<S>>,
    /// The neighbours of each cell that has any.
    pub neighborhoods: Map<QCACellIndex, Seq<NeighborView<S>>>,
    pub model_settings: BistableModelSettings<S>,
    pub clock_settings: BistableClockGeneratorSettings<S>,
}

impl<S> ModelState<S> {
    /// The architecture of the cells in a layer.
    pub open spec fn architecture(self, layer: int) -> ArchitectureView<S> {
        self.architectures[self.layers[layer].cell_architecture_id]
    }

    /// How many polarization components each cell in a layer has.
    pub open spec fn components(self, layer: int) -> nat {
        self.architecture(layer).components()
    }

    /// The model has a cell with this index.
    pub open spec fn has_cell(self, index: QCACellIndex) -> bool {
        self.static_cells.contains_key(index) || self.read_cells.contains_key(index)
    }

    /// The cell as its neighbours see it.
    pub open spec fn seen_cell(self, index: QCACellIndex) -> CellView<S> {
        if self.read_cells.contains_key(index) {
            self.read_cells[index]
        } else {
            self.static_cells[index]
        }
    }

    /// The cell as it stands: as the current iteration leaves it, if it follows its
    /// neighbours.
    pub open spec fn shown_cell(self, index: QCACellIndex) -> CellView<S> {
        if self.write_cells.contains_key(index) {
            self.write_cells[index]
        } else {
            self.static_cells[index]
        }
    }

    /// The neighbours of a cell.
    pub open spec fn neighbors(self, index: QCACellIndex) -> Seq<NeighborView<S>> {
        if self.neighborhoods.contains_key(index) {
            self.neighborhoods[index]
        } else {
            Seq::empty()
        }
    }

    /// The layer is there, and its architecture is known.
    pub open spec fn knows_layer(self, layer: int) -> bool {
        &&& 0 <= layer < self.layers.len()
        &&& self.architectures.contains_key(self.layers[layer].cell_architecture_id)
    }

    /// The neighbour is a cell of the model, and there is a coupling for each pair
    /// of components.
    pub open spec fn neighbor_fits(self, index: QCACellIndex, neighbor: NeighborView<S>) -> bool {
        &&& self.has_cell(neighbor.cell_index)
        &&& neighbor.kink_energy.len() == self.components(index.layer as int)
        &&& forall|k: int|
            0 <= k < neighbor.kink_energy.len() ==> (#[trigger] neighbor.kink_energy[k]).len()
                == self.components(neighbor.cell_index.layer as int)
    }

    /// What every operation on a model keeps.
    pub open spec fn wf(self) -> bool {
        &&& self.clock_states.len() == 4
        &&& self.read_cells.dom() =~= self.write_cells.dom()
        &&& self.static_cells.dom().disjoint(self.read_cells.dom())
        &&& forall|index: QCACellIndex| #[trigger]
            self.static_cells.contains_key(index) ==> {
                &&& self.knows_layer(index.layer as int)
                &&& self.static_cells[index].typ.holds_its_state()
                &&& self.static_cells[index].typ is Input <==> self.cell_inputs.contains_key(index)
            }
        &&& forall|index: QCACellIndex| #[trigger]
            self.read_cells.contains_key(index) ==> self.knows_layer(index.layer as int)
        &&& forall|index: QCACellIndex, t: int|
            self.neighborhoods.contains_key(index) && 0 <= t < self.neighborhoods[index].len()
                ==> self.neighbor_fits(index, #[trigger] self.neighborhoods[index][t])
    }
}

/// A copy of these cells.
fn duplicate_cells<S: Copy>(cells: &CellMap<QCACell<S>>) -> (copy: CellMap<QCACell<S>>)
    requires
        cells.wf(),
    ensures
        copy.wf(),
        copy@ == cells@,
        copy.order() == cells.order(),
{
    let mut copy: CellMap<QCACell<S>> = CellMap::new();
    let count = cells.len();
    for p in 0..count
        invariant
            cells.wf(),
            count == cells.order().len(),
            copy.wf(),
            copy.order() == cells.order().take(p as int),
            forall|index: QCACellIndex| #[trigger]
                copy@.contains_key(index) ==> copy@[index] == cells@[index],
    {
        let index = cells.index_at(p);
        assert(cells.order().contains(index));
        assert(cells@.contains_key(index));
        assert(cells.order().take(p + 1) == cells.order().take(p as int).push(index));
        assert(!copy@.contains_key(index)) by {
            if copy.order().contains(index) {
                let q = copy.order().index_of(index);
                assert(cells.order()[q] == cells.order()[p as int]);
            }
        }
        if let Some(cell) = cells.get(index) {
            copy.insert(index, cell.duplicate());
        }
    }
    assert(cells.order().take(cells.order().len() as int) == cells.order());
    assert(copy@ =~= cells@) by {
        assert(forall|index: QCACellIndex|
            copy@.contains_key(index) == #[trigger] cells@.contains_key(index));
    }
    copy
}

/// The state of a model that has no cells yet.
pub open spec fn empty_state<S: Copy>(m: Arithmetic<S>) -> ModelState<S> {
    ModelState {
        clock_states: m.zeros(4),
        input_states: Seq::empty(),
        static_cells: Map::empty(),
        read_cells: Map::empty(),
        write_cells: Map::empty(),
        cell_inputs: Map::empty(),
        layers: Seq::empty(),
        architectures: Map::empty(),
        neighborhoods: Map::empty(),
        model_settings: default_model_settings(m),
        clock_settings: default_clock_settings(m),
    }
}

impl<N: Numerics> View for BistableModel<N> {
    type V = ModelState<N::Scalar>;

    closed spec fn view(&self) -> ModelState<N::Scalar> {
        ModelState {
            clock_states: self.clock_states@,
            input_states: self.input_states@,
            static_cells: self.static_cells@,
            read_cells: self.read_cells@,
            write_cells: self.write_cells@,
            cell_inputs: self.cell_inputs@,
            layers: layer_views(self.layers@),
            architectures: self.architectures@,
            neighborhoods: self.neighborhoods@,
            model_settings: self.model_settings,
            clock_settings: self.clock_settings,
        }
    }
}

impl<N: Numerics> BistableModel<N> {
    /// The numerics that the model computes with.
    pub closed spec fn numerics(&self) -> N {
        self.numerics
    }

    /// What every operation on a model keeps.
    pub open spec fn wf(&self) -> bool {
        &&& self@.wf()
        &&& self.maps_wf()
    }

    /// The maps of the model know their own order.
    pub closed spec fn maps_wf(&self) -> bool {
        &&& self.static_cells.wf()
        &&& self.read_cells.wf()
        &&& self.write_cells.wf()
    }

    /// A model without cells, with the default settings.
    pub fn new(numerics: N) -> (model: BistableModel<N>)
        ensures
            model.wf(),
            model.numerics() == numerics,
            model@ == (ModelState {
                clock_states: model@.clock_states,
                input_states: Seq::empty(),
                static_cells: Map::empty(),
                read_cells: Map::empty(),
                write_cells: Map::empty(),
                cell_inputs: Map::empty(),
                layers: Seq::empty(),
                architectures: Map::empty(),
                neighborhoods: Map::empty(),
                model_settings: model@.model_settings,
                clock_settings: model@.clock_settings,
            }),
            model@.model_settings.max_iterations == 1000,
            model@.clock_settings.num_cycles == 1,
            model@.clock_settings.extra_periods == 0,
            model@.clock_settings.samples_per_input == 20,
            forall|m: Arithmetic<N::Scalar>| #[trigger]
                m.describes(numerics) ==> model@ == empty_state(m),
    {
        let zero = numerics.decimal(Decimal::new(0, 0));
        let model_settings = BistableModelSettings::new(&numerics);
        let clock_settings = BistableClockGeneratorSettings::new(&numerics);
        let model = BistableModel {
            numerics,
            clock_states: [zero, zero, zero, zero],
            input_states: Vec::new(),
            static_cells: CellMap::new(),
            read_cells: CellMap::new(),
            write_cells: CellMap::new(),
            cell_inputs: CellMap::new(),
            layers: Vec::new(),
            architectures: ArchitectureMap::new(),
            neighborhoods: CellMap::new(),
            model_settings,
            clock_settings,
        };
        assert(layer_views(model.layers@) =~= Seq::empty());
        assert forall|m: Arithmetic<N::Scalar>| #[trigger] m.describes(numerics) implies model@
            == empty_state(m) by {
            assert(model@.clock_states =~= m.zeros(4));
        }
        model
    }

    /// How many polarization components each cell in a layer has.
    fn num_components(&self, layer: usize) -> (count: usize)
        requires
            self@.knows_layer(layer as int),
        ensures
            count == self@.components(layer as int),
            count < 64,
    {
        let id: &str = self.layers[layer].cell_architecture_id.as_str();
        match self.architectures.get(id) {
            Some(architecture) => architecture.num_components(),
            None => {
                assert(false);
                0
            },
        }
    }

    /// How likely each dot of a cell is occupied.
    pub fn get_states(&self, cell_ind: &QCACellIndex) -> (dots: Vec<N::Scalar>)
        requires
            self.wf(),
            self@.has_cell(*cell_ind),
        ensures
            dots@ == self@.shown_cell(*cell_ind).dots,
    {
        if let Some(cell) = self.write_cells.get(*cell_ind) {
            return copy_numbers(&cell.dot_probability_distribution);
        }
        if let Some(cell) = self.read_cells.get(*cell_ind) {
            return copy_numbers(&cell.dot_probability_distribution);
        }
        let cell = self.static_cells.get(*cell_ind).unwrap();
        copy_numbers(&cell.dot_probability_distribution)
    }

    /// What the model is called.
    pub fn get_name(&self) -> (name: String)
        ensures
            name@ == "Bistable"@,
    {
        "Bistable".to_string()
    }

    /// What tells the model from others.
    pub fn get_unique_id(&self) -> (id: String)
        ensures
            id@ == "bistable"@,
    {
        "bistable".to_string()
    }

    pub fn get_model_settings(&self) -> (settings: BistableModelSettings<N::Scalar>)
        ensures
            settings == self@.model_settings,
    {
        self.model_settings
    }

    pub fn get_clock_generator_settings(&self) -> (settings: BistableClockGeneratorSettings<
        N::Scalar,
    >)
        ensures
            settings == self@.clock_settings,
    {
        self.clock_settings
    }
}

} // verus!
