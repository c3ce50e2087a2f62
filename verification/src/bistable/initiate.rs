//! Taking over a design.

use vstd::prelude::*;

use super::design_laws::vectors_are_addressable;
use super::geometry::squared_distance;
use super::kink::{distance, kink_energy, place, Site};
use super::placement_laws::{centre, is_placed, lists, neighbors_lie_within_the_radius};
use super::{
    duplicate_cells, BistableModel, BistableNeighbor, ModelState, NeighborView, Neighborhood,
};
use crate::cell_map::CellMap;
use crate::numerics::{four_dots_per_component, Arithmetic, Numerics};
use crate::objects::{
    layer_views, ArchitectureMap, ArchitectureView, CellType, CellView, LayerView, QCACell,
    QCACellArchitecture, QCACellIndex, QCALayer,
};
use crate::reals::times;
use crate::settings::BistableModelSettings;

verus! {

/// The layers and cell architectures of a design.
pub struct Design<S> {
    pub layers: Seq<LayerView<S>>,
    pub architectures: Map<Seq<char>, ArchitectureView<S>>,
}

/// The design made of these layers and architectures.
pub open spec fn design_of<S>(
    layers: Seq<QCALayer<S>>,
    architectures: ArchitectureMap<S>,
) -> Design<S> {
    Design { layers: layer_views(layers), architectures: architectures@ }
}

impl<S> Design<S> {
    pub open spec fn has_cell(self, index: QCACellIndex) -> bool {
        &&& index.layer < self.layers.len()
        &&& index.cell < self.layers[index.layer as int].cells.len()
    }

    pub open spec fn cell(self, index: QCACellIndex) -> CellView<S> {
        self.layers[index.layer as int].cells[index.cell as int]
    }

    pub open spec fn architecture(self, index: QCACellIndex) -> ArchitectureView<S> {
        self.architectures[self.layers[index.layer as int].cell_architecture_id]
    }

    /// A cell and its architecture.
    pub open spec fn site(self, index: QCACellIndex) -> Site<S> {
        Site { cell: self.cell(index), architecture: self.architecture(index) }
    }

    /// Every cell lies in a layer whose architecture is known.
    pub open spec fn knows_architectures(self) -> bool {
        forall|index: QCACellIndex| #[trigger]
            self.has_cell(index) ==> self.architectures.contains_key(
                self.layers[index.layer as int].cell_architecture_id,
            )
    }

    /// The neighbour is another cell of the design, and there is a coupling for each
    /// pair of components.
    pub open spec fn neighbor_fits(self, index: QCACellIndex, neighbor: NeighborView<S>) -> bool {
        &&& self.has_cell(neighbor.cell_index)
        &&& neighbor.cell_index != index
        &&& neighbor.kink_energy.len() == self.architecture(index).components()
        &&& forall|k: int|
            0 <= k < neighbor.kink_energy.len() ==> (#[trigger] neighbor.kink_energy[k]).len()
                == self.architecture(neighbor.cell_index).components()
    }

    /// The cells that hold their state, or those that do not.
    pub open spec fn cells(self, holding: bool) -> Map<QCACellIndex, CellView<S>> {
        Map::new(
            |index: QCACellIndex|
                self.has_cell(index) && self.cell(index).typ.holds_its_state() == holding,
            |index: QCACellIndex| self.cell(index),
        )
    }

    /// Which of the first `count` cells of a layer hold their state, or do not.
    pub open spec fn layer_order(self, layer: int, holding: bool, count: nat) -> Seq<QCACellIndex>
        decreases count,
    {
        if count == 0 {
            Seq::empty()
        } else {
            let j = count - 1;
            let before = self.layer_order(layer, holding, j as nat);
            if self.layers[layer].cells[j].typ.holds_its_state() == holding {
                before.push(QCACellIndex { layer: layer as usize, cell: j as usize })
            } else {
                before
            }
        }
    }

    /// Which cells of the first `count` layers hold their state, or do not, layer by
    /// layer.
    pub open spec fn layers_order(self, holding: bool, count: nat) -> Seq<QCACellIndex>
        decreases count,
    {
        if count == 0 {
            Seq::empty()
        } else {
            let i = count - 1;
            self.layers_order(holding, i as nat) + self.layer_order(
                i,
                holding,
                self.layers[i].cells.len(),
            )
        }
    }

    /// All the cells: first those that hold their state, then the others.
    pub open spec fn order(self) -> Seq<QCACellIndex> {
        self.layers_order(true, self.layers.len()) + self.layers_order(false, self.layers.len())
    }

    /// How many of the first `count` cells of a layer are inputs.
    pub open spec fn layer_inputs(self, layer: int, count: nat) -> nat
        decreases count,
    {
        if count == 0 {
            0
        } else {
            let j = count - 1;
            self.layer_inputs(layer, j as nat) + if self.layers[layer].cells[j].typ is Input {
                1nat
            } else {
                0
            }
        }
    }

    /// How many cells of the first `count` layers are inputs.
    pub open spec fn layers_inputs(self, count: nat) -> nat
        decreases count,
    {
        if count == 0 {
            0
        } else {
            let i = count - 1;
            self.layers_inputs(i as nat) + self.layer_inputs(i, self.layers[i].cells.len())
        }
    }

    /// How many inputs come before a cell, layer by layer.
    pub open spec fn inputs_before(self, index: QCACellIndex) -> nat {
        self.layers_inputs(index.layer as nat) + self.layer_inputs(
            index.layer as int,
            index.cell as nat,
        )
    }

    /// The number of each input cell: how many inputs come before it.
    pub open spec fn input_numbers(self) -> Map<QCACellIndex, usize> {
        Map::new(
            |index: QCACellIndex| self.has_cell(index) && self.cell(index).typ is Input,
            |index: QCACellIndex| self.inputs_before(index) as usize,
        )
    }
}

/// There is a kink energy for each pair of components of two cells.
pub open spec fn can_couple<S>(a: Site<S>, b: Site<S>) -> bool {
    a.architecture.components() > 0 && b.architecture.components() > 0 ==> {
        &&& a.architecture.wf()
        &&& b.architecture.wf()
    }
}

/// The kink energies between each component of one cell and each component of
/// another.
pub open spec fn couplings<S: Copy>(
    m: Arithmetic<S>,
    a: Site<S>,
    b: Site<S>,
    permitivity: S,
) -> Seq<Seq<S>> {
    Seq::new(
        a.architecture.components(),
        |k: int|
            Seq::new(
                b.architecture.components(),
                |l: int| kink_energy(m, a, k, b, l, permitivity),
            ),
    )
}

impl<S: Copy> Design<S> {
    /// Two different cells are close enough to act on each other.
    pub open spec fn are_near(
        self,
        m: Arithmetic<S>,
        settings: BistableModelSettings<S>,
        a: QCACellIndex,
        b: QCACellIndex,
    ) -> bool {
        a != b && !(m.exceeds)(
            distance(m, place(self.cell(a).position), place(self.cell(b).position)),
            settings.neighborhood_radius,
        )
    }

    /// The cell can be coupled with each of its neighbours among the first `count`
    /// cells of the design.
    pub open spec fn can_couple_neighbors(
        self,
        m: Arithmetic<S>,
        settings: BistableModelSettings<S>,
        index: QCACellIndex,
        count: nat,
    ) -> bool {
        forall|q: int|
            0 <= q < count && self.are_near(m, settings, index, #[trigger] self.order()[q])
                ==> can_couple(self.site(index), self.site(self.order()[q]))
    }

    /// A model can take over the design: it knows the architecture of each cell, and
    /// can couple the cells that are near each other.
    pub open spec fn can_be_simulated(
        self,
        m: Arithmetic<S>,
        settings: BistableModelSettings<S>,
    ) -> bool {
        &&& self.knows_architectures()
        &&& forall|a: QCACellIndex, b: QCACellIndex|
            self.has_cell(a) && self.has_cell(b) && #[trigger] self.are_near(m, settings, a, b)
                ==> can_couple(self.site(a), self.site(b))
    }

    /// How cell `b` acts on cell `a`.
    pub open spec fn neighbor(
        self,
        m: Arithmetic<S>,
        settings: BistableModelSettings<S>,
        a: QCACellIndex,
        b: QCACellIndex,
    ) -> NeighborView<S> {
        NeighborView {
            cell_index: b,
            kink_energy: couplings(m, self.site(a), self.site(b), settings.relative_permitivity),
        }
    }

    /// The neighbours of a cell among the first `count` cells of the design.
    pub open spec fn neighbors(
        self,
        m: Arithmetic<S>,
        settings: BistableModelSettings<S>,
        index: QCACellIndex,
        count: nat,
    ) -> Seq<NeighborView<S>>
        decreases count,
    {
        if count == 0 {
            Seq::empty()
        } else {
            let q = count - 1;
            let other = self.order()[q];
            let before = self.neighbors(m, settings, index, q as nat);
            if self.are_near(m, settings, index, other) {
                before.push(self.neighbor(m, settings, index, other))
            } else {
                before
            }
        }
    }

    /// The neighbours of each cell that has any.
    pub open spec fn neighborhoods(
        self,
        m: Arithmetic<S>,
        settings: BistableModelSettings<S>,
    ) -> Map<QCACellIndex, Seq<NeighborView<S>>> {
        Map::new(
            |index: QCACellIndex|
                self.has_cell(index) && self.neighbors(
                    m,
                    settings,
                    index,
                    self.order().len(),
                ).len() > 0,
            |index: QCACellIndex| self.neighbors(m, settings, index, self.order().len()),
        )
    }
}

impl<S: Copy> ModelState<S> {
    /// The state of a model that took over a design.
    pub open spec fn initiated(self, m: Arithmetic<S>, design: Design<S>) -> ModelState<S> {
        ModelState {
            static_cells: design.cells(true),
            read_cells: design.cells(false),
            write_cells: design.cells(false),
            cell_inputs: design.input_numbers(),
            layers: design.layers,
            architectures: design.architectures,
            neighborhoods: design.neighborhoods(m, self.model_settings),
            ..self
        }
    }
}

impl<N: Numerics> BistableModel<N> {
    /// The kink energies between each component of one cell and each component of
    /// another.
    pub fn couplings(
        n: &N,
        cell_a: &QCACell<N::Scalar>,
        arch_a: &QCACellArchitecture<N::Scalar>,
        cell_b: &QCACell<N::Scalar>,
        arch_b: &QCACellArchitecture<N::Scalar>,
        permitivity: N::Scalar,
    ) -> (table: Vec<Vec<N::Scalar>>)
        requires
            four_dots_per_component(*n),
            can_couple(
                Site { cell: cell_a@, architecture: arch_a@ },
                Site { cell: cell_b@, architecture: arch_b@ },
            ),
        ensures
            table@.len() == arch_a@.components(),
            forall|k: int|
                0 <= k < table@.len() ==> (#[trigger] table@[k])@.len() == arch_b@.components(),
            forall|m: Arithmetic<N::Scalar>| #[trigger]
                m.describes(*n) ==> Seq::new(table@.len(), |k: int| table@[k]@) == couplings(
                    m,
                    Site { cell: cell_a@, architecture: arch_a@ },
                    Site { cell: cell_b@, architecture: arch_b@ },
                    permitivity,
                ),
    {
        let ghost a = Site { cell: cell_a@, architecture: arch_a@ };
        let ghost b = Site { cell: cell_b@, architecture: arch_b@ };
        let components_a = arch_a.num_components();
        let components_b = arch_b.num_components();
        let mut table: Vec<Vec<N::Scalar>> = Vec::new();
        for k in 0..components_a
            invariant
                four_dots_per_component(*n),
                can_couple(a, b),
                a == (Site { cell: cell_a@, architecture: arch_a@ }),
                b == (Site { cell: cell_b@, architecture: arch_b@ }),
                components_a == arch_a@.components(),
                components_b == arch_b@.components(),
                table@.len() == k,
                forall|i: int| 0 <= i < k ==> (#[trigger] table@[i])@.len() == components_b,
                forall|m: Arithmetic<N::Scalar>| #[trigger]
                    m.describes(*n) ==> forall|i: int|
                        0 <= i < k ==> (#[trigger] table@[i])@ == couplings(
                            m,
                            a,
                            b,
                            permitivity,
                        )[i],
        {
            let mut row: Vec<N::Scalar> = Vec::new();
            for l in 0..components_b
                invariant
                    four_dots_per_component(*n),
                    can_couple(a, b),
                    a == (Site { cell: cell_a@, architecture: arch_a@ }),
                    b == (Site { cell: cell_b@, architecture: arch_b@ }),
                    k < components_a,
                    components_a == arch_a@.components(),
                    components_b == arch_b@.components(),
                    row@.len() == l,
                    forall|m: Arithmetic<N::Scalar>| #[trigger]
                        m.describes(*n) ==> forall|i: int|
                            0 <= i < l ==> (#[trigger] row@[i]) == kink_energy(
                                m,
                                a,
                                k as int,
                                b,
                                i,
                                permitivity,
                            ),
            {
                row.push(
                    Self::determine_kink_energy(
                        n,
                        cell_a,
                        arch_a,
                        k,
                        cell_b,
                        arch_b,
                        l,
                        permitivity,
                    ),
                );
            }
            assert forall|m: Arithmetic<N::Scalar>| #[trigger] m.describes(*n) implies row@
                == couplings(m, a, b, permitivity)[k as int] by {
                assert(row@ =~= couplings(m, a, b, permitivity)[k as int]);
            }
            table.push(row);
        }
        assert forall|m: Arithmetic<N::Scalar>| #[trigger] m.describes(*n) implies Seq::new(
            table@.len(),
            |k: int| table@[k]@,
        ) == couplings(m, a, b, permitivity) by {
            assert(Seq::new(table@.len(), |k: int| table@[k]@) =~= couplings(m, a, b, permitivity));
        }
        table
    }

    /// The cells that hold their state, the other cells, and the number of each
    /// input cell.
    fn sort_cells(
        layers: &Vec<QCALayer<N::Scalar>>,
        architectures: &ArchitectureMap<N::Scalar>,
    ) -> (sorted: (CellMap<QCACell<N::Scalar>>, CellMap<QCACell<N::Scalar>>, CellMap<usize>))
        ensures
            sorted.0.wf(),
            sorted.1.wf(),
            sorted.0@ == design_of(layers@, *architectures).cells(true),
            sorted.1@ == design_of(layers@, *architectures).cells(false),
            sorted.0.order() == design_of(layers@, *architectures).layers_order(
                true,
                layers@.len(),
            ),
            sorted.1.order() == design_of(layers@, *architectures).layers_order(
                false,
                layers@.len(),
            ),
            sorted.2@ == design_of(layers@, *architectures).input_numbers(),
            design_of(layers@, *architectures).layers_inputs(layers@.len()) <= usize::MAX,
    {
        let ghost design = design_of(layers@, *architectures);
        let mut holding: CellMap<QCACell<N::Scalar>> = CellMap::new();
        let mut following: CellMap<QCACell<N::Scalar>> = CellMap::new();
        let mut inputs: CellMap<usize> = CellMap::new();
        for i in 0..layers.len()
            invariant
                design == design_of(layers@, *architectures),
                holding.wf(),
                following.wf(),
                inputs.wf(),
                holding.order() == design.layers_order(true, i as nat),
                following.order() == design.layers_order(false, i as nat),
                inputs.order().len() == design.layers_inputs(i as nat),
                forall|index: QCACellIndex| #[trigger]
                    holding@.contains_key(index) <==> index.layer < i && design.cells(
                        true,
                    ).contains_key(index),
                forall|index: QCACellIndex| #[trigger]
                    following@.contains_key(index) <==> index.layer < i && design.cells(
                        false,
                    ).contains_key(index),
                forall|index: QCACellIndex| #[trigger]
                    inputs@.contains_key(index) <==> index.layer < i
                        && design.input_numbers().contains_key(index),
                forall|index: QCACellIndex| #[trigger]
                    holding@.contains_key(index) ==> holding@[index] == design.cell(index),
                forall|index: QCACellIndex| #[trigger]
                    following@.contains_key(index) ==> following@[index] == design.cell(index),
                forall|index: QCACellIndex| #[trigger]
                    inputs@.contains_key(index) ==> inputs@[index] == design.inputs_before(index),
        {
            let layer = &layers[i];
            assert(layer@ == design.layers[i as int]);
            let count = layer.cells.len();
            for j in 0..count
                invariant
                    design == design_of(layers@, *architectures),
                    i < layers@.len(),
                    layer@ == design.layers[i as int],
                    count == layer@.cells.len(),
                    holding.wf(),
                    following.wf(),
                    inputs.wf(),
                    holding.order() == design.layers_order(true, i as nat) + design.layer_order(
                        i as int,
                        true,
                        j as nat,
                    ),
                    following.order() == design.layers_order(false, i as nat) + design.layer_order(
                        i as int,
                        false,
                        j as nat,
                    ),
                    inputs.order().len() == design.layers_inputs(i as nat) + design.layer_inputs(
                        i as int,
                        j as nat,
                    ),
                    forall|index: QCACellIndex| #[trigger]
                        holding@.contains_key(index) <==> (index.layer < i || index.layer == i
                            && index.cell < j) && design.cells(true).contains_key(index),
                    forall|index: QCACellIndex| #[trigger]
                        following@.contains_key(index) <==> (index.layer < i || index.layer == i
                            && index.cell < j) && design.cells(false).contains_key(index),
                    forall|index: QCACellIndex| #[trigger]
                        inputs@.contains_key(index) <==> (index.layer < i || index.layer == i
                            && index.cell < j) && design.input_numbers().contains_key(index),
                    forall|index: QCACellIndex| #[trigger]
                        holding@.contains_key(index) ==> holding@[index] == design.cell(index),
                    forall|index: QCACellIndex| #[trigger]
                        following@.contains_key(index) ==> following@[index] == design.cell(index),
                    forall|index: QCACellIndex| #[trigger]
                        inputs@.contains_key(index) ==> inputs@[index] == design.inputs_before(
                            index,
                        ),
            {
                let cell = &layer.cells[j];
                let index = QCACellIndex::new(i, j);
                assert(cell@ == design.cell(index));
                assert(design.has_cell(index));
                match cell.typ {
                    CellType::Input | CellType::Fixed => {
                        holding.insert(index, cell.duplicate());
                        if cell.typ == CellType::Input {
                            let number = inputs.len();
                            inputs.insert(index, number);
                        }
                    },
                    CellType::Normal | CellType::Output => {
                        following.insert(index, cell.duplicate());
                    },
                }
            }
        }
        assert(holding@ =~= design.cells(true));
        assert(following@ =~= design.cells(false));
        assert(inputs@ =~= design.input_numbers());
        proof {
            inputs.order_fits();
        }
        (holding, following, inputs)
    }

    /// The neighbours of a cell, unless it cannot be coupled with one of them.
    fn near_cells(
        n: &N,
        layers: &Vec<QCALayer<N::Scalar>>,
        architectures: &ArchitectureMap<N::Scalar>,
        settings: &BistableModelSettings<N::Scalar>,
        order: &Vec<QCACellIndex>,
        index: QCACellIndex,
    ) -> (near: Option<Neighborhood<N::Scalar>>)
        requires
            four_dots_per_component(*n),
            design_of(layers@, *architectures).knows_architectures(),
            design_of(layers@, *architectures).has_cell(index),
            order@ == design_of(layers@, *architectures).order(),
            forall|q: int|
                0 <= q < order@.len() ==> design_of(layers@, *architectures).has_cell(
                    #[trigger] order@[q],
                ),
        ensures
            near matches Some(found) ==> forall|t: int|
                0 <= t < found@.len() ==> design_of(layers@, *architectures).neighbor_fits(
                    index,
                    #[trigger] found@[t],
                ),
            near is None ==> exists|q: int|
                0 <= q < order@.len() && !can_couple(
                    design_of(layers@, *architectures).site(index),
                    design_of(layers@, *architectures).site(#[trigger] order@[q]),
                ),
            forall|m: Arithmetic<N::Scalar>| #[trigger]
                m.describes(*n) ==> {
                    let design = design_of(layers@, *architectures);
                    &&& near is Some <==> design.can_couple_neighbors(
                        m,
                        *settings,
                        index,
                        order@.len(),
                    )
                    &&& near matches Some(found) ==> found@ == design.neighbors(
                        m,
                        *settings,
                        index,
                        order@.len(),
                    )
                },
    {
        let ghost design = design_of(layers@, *architectures);
        let cell = &layers[index.layer].cells[index.cell];
        assert(cell@ == design.cell(index));
        let architecture = architectures.get(
            layers[index.layer].cell_architecture_id.as_str(),
        ).unwrap();
        let mut near = Neighborhood { neighbors: Vec::new() };
        assert(near@ =~= Seq::empty());
        for q in 0..order.len()
            invariant
                design == design_of(layers@, *architectures),
                four_dots_per_component(*n),
                design.knows_architectures(),
                design.has_cell(index),
                cell@ == design.cell(index),
                architecture@ == design.architecture(index),
                order@ == design.order(),
                forall|p: int|
                    0 <= p < order@.len() ==> design.has_cell(#[trigger] order@[p]),
                forall|t: int|
                    0 <= t < near@.len() ==> design.neighbor_fits(index, #[trigger] near@[t]),
                forall|m: Arithmetic<N::Scalar>| #[trigger]
                    m.describes(*n) ==> {
                        &&& design.can_couple_neighbors(m, *settings, index, q as nat)
                        &&& near@ == design.neighbors(m, *settings, index, q as nat)
                    },
        {
            let other = order[q];
            assert(design.has_cell(order@[q as int]));
            if index != other {
                let other_cell = &layers[other.layer].cells[other.cell];
                assert(other_cell@ == design.cell(other));
                let far = Self::cell_distance(n, cell, other_cell);
                if !n.exceeds(far, settings.neighborhood_radius) {
                    let other_architecture = architectures.get(
                        layers[other.layer].cell_architecture_id.as_str(),
                    ).unwrap();
                    let coupled = architecture.num_components() > 0
                        && other_architecture.num_components() > 0;
                    if coupled && !(architecture.is_wf() && other_architecture.is_wf()) {
                        assert(!can_couple(design.site(index), design.site(order@[q as int])));
                        return None;
                    }
                    let kink_energy = Self::couplings(
                        n,
                        cell,
                        architecture,
                        other_cell,
                        other_architecture,
                        settings.relative_permitivity,
                    );
                    let neighbor = BistableNeighbor { cell_index: other, kink_energy };
                    let ghost before = near@;
                    near.neighbors.push(neighbor);
                    assert(near@ =~= before.push(neighbor@));
                    assert(design.neighbor_fits(index, neighbor@));
                }
            }
        }
        Some(near)
    }

    /// Whether the architecture of each cell is known. A layer without cells may name
    /// one that is not.
    pub fn knows_architectures(
        layers: &Vec<QCALayer<N::Scalar>>,
        architectures: &ArchitectureMap<N::Scalar>,
    ) -> (known: bool)
        ensures
            known == design_of(layers@, *architectures).knows_architectures(),
    {
        let ghost design = design_of(layers@, *architectures);
        for i in 0..layers.len()
            invariant
                design == design_of(layers@, *architectures),
                forall|index: QCACellIndex| #[trigger]
                    design.has_cell(index) && index.layer < i ==> design.architectures.contains_key(
                        design.layers[index.layer as int].cell_architecture_id,
                    ),
        {
            let layer = &layers[i];
            assert(layer@ == design.layers[i as int]);
            if layer.cells.len() > 0 && architectures.get(
                layer.cell_architecture_id.as_str(),
            ).is_none() {
                assert(design.has_cell(QCACellIndex { layer: i, cell: 0 }));
                return false;
            }
        }
        true
    }

    /// Takes over a design: its cells replace those of the model, and so do their
    /// neighbourhoods. A cell lists those of its neighbours that hold their state
    /// before the others.
    ///
    /// Nothing changes, and the answer is no, where two cells near each other cannot be
    /// coupled.
    pub fn initiate(
        &mut self,
        layers: Box<Vec<QCALayer<N::Scalar>>>,
        qca_architetures_map: ArchitectureMap<N::Scalar>,
    ) -> (taken: bool)
        requires
            old(self).wf(),
            four_dots_per_component(old(self).numerics()),
            design_of(layers@, qca_architetures_map).knows_architectures(),
        ensures
            final(self).wf(),
            final(self).numerics() == old(self).numerics(),
            !taken ==> final(self)@ == old(self)@,
            ({
                let design = design_of(layers@, qca_architetures_map);
                (forall|a: QCACellIndex, b: QCACellIndex|
                    #![trigger design.site(a), design.site(b)]
                    design.has_cell(a) && design.has_cell(b) ==> can_couple(
                        design.site(a),
                        design.site(b),
                    )) ==> taken
            }),
            taken ==> {
                let design = design_of(layers@, qca_architetures_map);
                let after = final(self)@;
                &&& after == (ModelState {
                    static_cells: design.cells(true),
                    read_cells: design.cells(false),
                    write_cells: design.cells(false),
                    cell_inputs: design.input_numbers(),
                    layers: design.layers,
                    architectures: design.architectures,
                    neighborhoods: after.neighborhoods,
                    ..old(self)@
                })
                &&& design.layers_inputs(design.layers.len()) <= usize::MAX
                &&& forall|index: QCACellIndex| #[trigger]
                    after.neighborhoods.contains_key(index) ==> design.has_cell(index)
                        && after.neighborhoods[index].len() > 0
                &&& forall|index: QCACellIndex, t: int|
                    after.neighborhoods.contains_key(index) && 0 <= t
                        < after.neighborhoods[index].len() ==> design.neighbor_fits(
                        index,
                        #[trigger] after.neighborhoods[index][t],
                    )
            },
            forall|m: Arithmetic<N::Scalar>| #[trigger]
                m.describes(old(self).numerics()) ==> {
                    let design = design_of(layers@, qca_architetures_map);
                    &&& taken == design.can_be_simulated(m, old(self)@.model_settings)
                    &&& taken ==> final(self)@ == old(self)@.initiated(m, design)
                },
            forall|
                m: Arithmetic<N::Scalar>,
                value: spec_fn(N::Scalar) -> real,
                a: QCACellIndex,
                b: QCACellIndex,
            |
                #![trigger m.describes(old(self).numerics()), m.is_exact(value), lists(
                    final(self)@,
                    a,
                    b,
                )]
                taken && m.describes(old(self).numerics()) && m.is_exact(value) ==> {
                    let design = design_of(layers@, qca_architetures_map);
                    let radius = value(old(self)@.model_settings.neighborhood_radius);
                    is_placed(design, a) && is_placed(design, b) ==> (lists(final(self)@, a, b)
                        <==> {
                        &&& a != b
                        &&& radius >= 0real
                        &&& squared_distance(
                            centre(value, design, a),
                            centre(value, design, b),
                        ) <= times(radius, radius)
                    })
                },
    {
        let ghost design = design_of(layers@, qca_architetures_map);
        proof {
            vectors_are_addressable(*layers, qca_architetures_map);
        }
        let (holding, following, inputs) = Self::sort_cells(&layers, &qca_architetures_map);

        let mut order: Vec<QCACellIndex> = Vec::new();
        let held = holding.len();
        for p in 0..held
            invariant
                held == holding.order().len(),
                order@ == holding.order().take(p as int),
        {
            order.push(holding.index_at(p));
            assert(holding.order().take(p + 1) == holding.order().take(p as int).push(
                holding.order()[p as int],
            ));
        }
        assert(order@ == holding.order());
        let followed = following.len();
        for p in 0..followed
            invariant
                followed == following.order().len(),
                order@ == holding.order() + following.order().take(p as int),
        {
            order.push(following.index_at(p));
            assert(holding.order() + following.order().take(p + 1) == (holding.order()
                + following.order().take(p as int)).push(following.order()[p as int]));
        }
        assert(order@ =~= design.order());
        proof {
            assert forall|q: int| 0 <= q < order@.len() implies design.has_cell(
                #[trigger] order@[q],
            ) by {
                if q < held {
                    assert(holding.order().contains(order@[q]));
                    assert(holding@.contains_key(order@[q]));
                } else {
                    assert(order@[q] == following.order()[q - held]);
                    assert(following.order().contains(order@[q]));
                    assert(following@.contains_key(order@[q]));
                }
            }
            assert forall|p: int, q: int|
                0 <= p < order@.len() && 0 <= q < order@.len() && p != q implies order@[p]
                != order@[q] by {
                if p < held && held <= q {
                    assert(holding.order().contains(order@[p]));
                    assert(following.order().contains(following.order()[q - held]));
                    assert(holding@.contains_key(order@[p]));
                    assert(following@.contains_key(order@[q]));
                }
                if q < held && held <= p {
                    assert(holding.order().contains(order@[q]));
                    assert(following.order().contains(following.order()[p - held]));
                    assert(holding@.contains_key(order@[q]));
                    assert(following@.contains_key(order@[p]));
                }
            }
            assert forall|index: QCACellIndex| #[trigger] design.has_cell(index) implies exists|
                q: int,
            | 0 <= q < order@.len() && #[trigger] order@[q] == index by {
                if design.cell(index).typ.holds_its_state() {
                    assert(holding@.contains_key(index));
                    let q = holding.order().index_of(index);
                    assert(order@[q] == index);
                } else {
                    assert(following@.contains_key(index));
                    let q = following.order().index_of(index);
                    assert(order@[held + q] == index);
                }
            }
        }

        let mut neighborhoods: CellMap<Neighborhood<N::Scalar>> = CellMap::new();
        for p in 0..order.len()
            invariant
                *self == *old(self),
                self.wf(),
                design == design_of(layers@, qca_architetures_map),
                design.knows_architectures(),
                four_dots_per_component(self.numerics),
                order@ == design.order(),
                order@.no_duplicates(),
                forall|q: int|
                    0 <= q < order@.len() ==> design.has_cell(#[trigger] order@[q]),
                neighborhoods.wf(),
                forall|index: QCACellIndex| #[trigger]
                    neighborhoods@.contains_key(index) ==> {
                        &&& design.has_cell(index)
                        &&& neighborhoods@[index].len() > 0
                        &&& exists|q: int| 0 <= q < p && #[trigger] order@[q] == index
                    },
                forall|index: QCACellIndex, t: int|
                    neighborhoods@.contains_key(index) && 0 <= t < neighborhoods@[index].len()
                        ==> design.neighbor_fits(index, #[trigger] neighborhoods@[index][t]),
                forall|m: Arithmetic<N::Scalar>| #[trigger]
                    m.describes(self.numerics) ==> forall|q: int|
                        0 <= q < p ==> {
                            let index = #[trigger] order@[q];
                            let near = design.neighbors(
                                m,
                                self.model_settings,
                                index,
                                order@.len(),
                            );
                            &&& design.can_couple_neighbors(
                                m,
                                self.model_settings,
                                index,
                                order@.len(),
                            )
                            &&& neighborhoods@.contains_key(index) <==> near.len() > 0
                            &&& neighborhoods@.contains_key(index) ==> neighborhoods@[index] == near
                        },
        {
            let index = order[p];
            assert(design.has_cell(order@[p as int]));
            let near = Self::near_cells(
                &self.numerics,
                &layers,
                &qca_architetures_map,
                &self.model_settings,
                &order,
                index,
            );
            assert(!neighborhoods@.contains_key(index));
            match near {
                None => {
                    proof {
                        let q = choose|q: int|
                            0 <= q < order@.len() && !can_couple(
                                design.site(index),
                                design.site(#[trigger] order@[q]),
                            );
                        assert(design.has_cell(order@[q]));
                        assert forall|m: Arithmetic<N::Scalar>| #[trigger]
                            m.describes(old(self).numerics()) implies !design.can_be_simulated(
                            m,
                            old(self)@.model_settings,
                        ) by {
                            assert(!design.can_couple_neighbors(
                                m,
                                self.model_settings,
                                index,
                                order@.len(),
                            ));
                        }
                    }
                    return false;
                },
                Some(near) => {
                    if near.neighbors.len() > 0 {
                        neighborhoods.insert(index, near);
                    }
                },
            }
        }

        self.write_cells = duplicate_cells(&following);
        self.read_cells = following;
        self.static_cells = holding;
        self.cell_inputs = inputs;
        self.layers = *layers;
        self.architectures = qca_architetures_map;
        self.neighborhoods = neighborhoods;
        proof {
            assert forall|m: Arithmetic<N::Scalar>| #[trigger]
                m.describes(old(self).numerics()) implies design.can_be_simulated(
                m,
                old(self)@.model_settings,
            ) && self@ == old(self)@.initiated(m, design) by {
                assert forall|a: QCACellIndex, b: QCACellIndex|
                    design.has_cell(a) && design.has_cell(b) && #[trigger] design.are_near(
                        m,
                        self.model_settings,
                        a,
                        b,
                    ) implies can_couple(design.site(a), design.site(b)) by {
                    let p = choose|p: int| 0 <= p < order@.len() && #[trigger] order@[p] == a;
                    let q = choose|q: int| 0 <= q < order@.len() && #[trigger] order@[q] == b;
                    assert(design.can_couple_neighbors(
                        m,
                        self.model_settings,
                        order@[p],
                        order@.len(),
                    ));
                    assert(design.order()[q] == b);
                }
                assert(self@.neighborhoods =~= design.neighborhoods(m, self.model_settings));
            }
            assert forall|
                m: Arithmetic<N::Scalar>,
                value: spec_fn(N::Scalar) -> real,
                a: QCACellIndex,
                b: QCACellIndex,
            |
                #![trigger m.describes(old(self).numerics()), m.is_exact(value), lists(self@, a, b)]
                m.describes(old(self).numerics()) && m.is_exact(value) && is_placed(design, a)
                    && is_placed(design, b) implies (lists(self@, a, b) <==> {
                let radius = value(old(self)@.model_settings.neighborhood_radius);
                &&& a != b
                &&& radius >= 0real
                &&& squared_distance(centre(value, design, a), centre(value, design, b)) <= times(
                    radius,
                    radius,
                )
            }) by {
                neighbors_lie_within_the_radius(m, value, old(self)@, design, a, b);
            }
        }
        true
    }
}

} // verus!
