//! What holds of every design that a model takes over.

use vstd::prelude::*;

use super::initiate::{design_of, Design};
use super::kink::place;
use super::symmetry::{distance_is_symmetric, kink_energy_is_symmetric};
use super::ModelState;
use crate::numerics::Arithmetic;
use crate::objects::{ArchitectureMap, QCACellIndex, QCALayer};
use crate::settings::BistableModelSettings;

verus! {

impl<S> Design<S> {
    /// Every cell has an index.
    pub open spec fn is_addressable(self) -> bool {
        &&& self.layers.len() <= usize::MAX
        &&& forall|i: int|
            0 <= i < self.layers.len() ==> (#[trigger] self.layers[i]).cells.len() <= usize::MAX
    }

    /// Cell `a` comes before cell `b`, layer by layer.
    pub open spec fn comes_before(self, a: QCACellIndex, b: QCACellIndex) -> bool {
        a.layer < b.layer || a.layer == b.layer && a.cell < b.cell
    }
}

/// A design made of vectors is addressable.
pub proof fn vectors_are_addressable<S>(
    layers: Vec<QCALayer<S>>,
    architectures: ArchitectureMap<S>,
)
    ensures
        design_of(layers@, architectures).is_addressable(),
{
    assert(layers@.len() == layers.len());
    assert forall|i: int| 0 <= i < layers@.len() implies (#[trigger] design_of(
        layers@,
        architectures,
    ).layers[i]).cells.len() <= usize::MAX by {
        assert(layers@[i].cells@.len() == layers@[i].cells.len());
    }
}

proof fn lemma_layer_order<S>(
    design: Design<S>,
    layer: int,
    holding: bool,
    count: nat,
    index: QCACellIndex,
)
    requires
        0 <= layer < design.layers.len() <= usize::MAX,
        count <= design.layers[layer].cells.len() <= usize::MAX,
    ensures
        design.layer_order(layer, holding, count).contains(index) <==> index.layer == layer
            && index.cell < count && design.cell(index).typ.holds_its_state() == holding,
    decreases count,
{
    let order = design.layer_order(layer, holding, count);
    if count > 0 {
        let j = count - 1;
        let before = design.layer_order(layer, holding, j as nat);
        let last = QCACellIndex { layer: layer as usize, cell: j as usize };
        lemma_layer_order(design, layer, holding, j as nat, index);
        if design.layers[layer].cells[j].typ.holds_its_state() == holding {
            assert(order == before.push(last));
            if before.contains(index) {
                let q = before.index_of(index);
                assert(order[q] == index);
            }
            if index == last {
                assert(order[before.len() as int] == index);
            }
            if order.contains(index) && index != last {
                let q = order.index_of(index);
                assert(before[q] == index);
            }
        }
    }
}

proof fn lemma_layers_order<S>(
    design: Design<S>,
    holding: bool,
    count: nat,
    index: QCACellIndex,
)
    requires
        design.is_addressable(),
        count <= design.layers.len(),
    ensures
        design.layers_order(holding, count).contains(index) <==> index.layer < count
            && design.has_cell(index) && design.cell(index).typ.holds_its_state() == holding,
    decreases count,
{
    if count > 0 {
        let i = count - 1;
        let before = design.layers_order(holding, i as nat);
        let last = design.layer_order(i, holding, design.layers[i].cells.len());
        lemma_layers_order(design, holding, i as nat, index);
        lemma_layer_order(design, i, holding, design.layers[i].cells.len(), index);
        lemma_contains_of_concatenation(before, last, index);
    }
}

proof fn lemma_contains_of_concatenation(
    a: Seq<QCACellIndex>,
    b: Seq<QCACellIndex>,
    index: QCACellIndex,
)
    ensures
        (a + b).contains(index) <==> a.contains(index) || b.contains(index),
{
    if a.contains(index) {
        let q = a.index_of(index);
        assert((a + b)[q] == index);
    }
    if b.contains(index) {
        let q = b.index_of(index);
        assert((a + b)[a.len() + q] == index);
    }
    if (a + b).contains(index) {
        let q = (a + b).index_of(index);
        if q < a.len() {
            assert(a[q] == index);
        } else {
            assert(b[q - a.len()] == index);
        }
    }
}

/// The order of a design lists every cell, and nothing else.
pub proof fn order_lists_every_cell<S>(design: Design<S>, index: QCACellIndex)
    requires
        design.is_addressable(),
    ensures
        design.order().contains(index) <==> design.has_cell(index),
{
    let held = design.layers_order(true, design.layers.len());
    let followed = design.layers_order(false, design.layers.len());
    lemma_layers_order(design, true, design.layers.len(), index);
    lemma_layers_order(design, false, design.layers.len(), index);
    lemma_contains_of_concatenation(held, followed, index);
}

proof fn lemma_layer_order_has_no_duplicates<S>(
    design: Design<S>,
    layer: int,
    holding: bool,
    count: nat,
)
    requires
        0 <= layer < design.layers.len() <= usize::MAX,
        count <= design.layers[layer].cells.len() <= usize::MAX,
    ensures
        design.layer_order(layer, holding, count).no_duplicates(),
    decreases count,
{
    if count > 0 {
        let j = count - 1;
        let before = design.layer_order(layer, holding, j as nat);
        let last = QCACellIndex { layer: layer as usize, cell: j as usize };
        lemma_layer_order_has_no_duplicates(design, layer, holding, j as nat);
        lemma_layer_order(design, layer, holding, j as nat, last);
        assert(!before.contains(last));
    }
}

proof fn lemma_concatenation_has_no_duplicates(a: Seq<QCACellIndex>, b: Seq<QCACellIndex>)
    requires
        a.no_duplicates(),
        b.no_duplicates(),
        forall|index: QCACellIndex| !(#[trigger] a.contains(index) && b.contains(index)),
    ensures
        (a + b).no_duplicates(),
{
    let all = a + b;
    assert forall|p: int, q: int| 0 <= p < q < all.len() implies all[p] != all[q] by {
        if p < a.len() && a.len() <= q {
            assert(a.contains(a[p]));
            assert(b.contains(b[q - a.len()]));
        }
    }
}

proof fn lemma_layers_order_has_no_duplicates<S>(design: Design<S>, holding: bool, count: nat)
    requires
        design.is_addressable(),
        count <= design.layers.len(),
    ensures
        design.layers_order(holding, count).no_duplicates(),
    decreases count,
{
    if count > 0 {
        let i = count - 1;
        let before = design.layers_order(holding, i as nat);
        let last = design.layer_order(i, holding, design.layers[i].cells.len());
        lemma_layers_order_has_no_duplicates(design, holding, i as nat);
        lemma_layer_order_has_no_duplicates(design, i, holding, design.layers[i].cells.len());
        assert forall|index: QCACellIndex| !(#[trigger] before.contains(index) && last.contains(
            index,
        )) by {
            lemma_layers_order(design, holding, i as nat, index);
            lemma_layer_order(design, i, holding, design.layers[i].cells.len(), index);
        }
        lemma_concatenation_has_no_duplicates(before, last);
    }
}

/// The order of a design lists no cell twice.
pub proof fn order_lists_no_cell_twice<S>(design: Design<S>)
    requires
        design.is_addressable(),
    ensures
        design.order().no_duplicates(),
{
    let held = design.layers_order(true, design.layers.len());
    let followed = design.layers_order(false, design.layers.len());
    lemma_layers_order_has_no_duplicates(design, true, design.layers.len());
    lemma_layers_order_has_no_duplicates(design, false, design.layers.len());
    assert forall|index: QCACellIndex| !(#[trigger] held.contains(index) && followed.contains(
        index,
    )) by {
        lemma_layers_order(design, true, design.layers.len(), index);
        lemma_layers_order(design, false, design.layers.len(), index);
    }
    lemma_concatenation_has_no_duplicates(held, followed);
}

proof fn lemma_neighbors_come_from_the_order<S: Copy>(
    design: Design<S>,
    m: Arithmetic<S>,
    settings: BistableModelSettings<S>,
    index: QCACellIndex,
    count: nat,
    t: int,
)
    requires
        0 <= t < design.neighbors(m, settings, index, count).len(),
        count <= design.order().len(),
    ensures
        exists|q: int|
            0 <= q < count && #[trigger] design.order()[q] == design.neighbors(
                m,
                settings,
                index,
                count,
            )[t].cell_index,
    decreases count,
{
    if count > 0 {
        let last = (count - 1) as nat;
        let before = design.neighbors(m, settings, index, last);
        if t < before.len() {
            lemma_neighbors_come_from_the_order(design, m, settings, index, last, t);
            let q = choose|q: int|
                0 <= q < last && #[trigger] design.order()[q] == before[t].cell_index;
            assert(design.order()[q] == before[t].cell_index);
        } else {
            let found = design.neighbors(m, settings, index, count);
            assert(design.order()[last as int] == found[t].cell_index);
        }
    }
}

/// No neighbour of a cell is listed twice.
pub proof fn neighbors_are_listed_once<S: Copy>(
    design: Design<S>,
    m: Arithmetic<S>,
    settings: BistableModelSettings<S>,
    index: QCACellIndex,
    count: nat,
    s: int,
    t: int,
)
    requires
        design.is_addressable(),
        count <= design.order().len(),
        0 <= s < t < design.neighbors(m, settings, index, count).len(),
    ensures
        design.neighbors(m, settings, index, count)[s].cell_index != design.neighbors(
            m,
            settings,
            index,
            count,
        )[t].cell_index,
    decreases count,
{
    if count > 0 {
        let last = (count - 1) as nat;
        let before = design.neighbors(m, settings, index, last);
        if t < before.len() {
            neighbors_are_listed_once(design, m, settings, index, last, s, t);
        } else {
            order_lists_no_cell_twice(design);
            lemma_neighbors_come_from_the_order(design, m, settings, index, last, s);
            let q = choose|q: int|
                0 <= q < last && #[trigger] design.order()[q] == before[s].cell_index;
            assert(design.order()[q] != design.order()[last as int]);
        }
    }
}

proof fn lemma_neighbors<S: Copy>(
    design: Design<S>,
    m: Arithmetic<S>,
    settings: BistableModelSettings<S>,
    a: QCACellIndex,
    b: QCACellIndex,
    count: nat,
)
    requires
        count <= design.order().len(),
    ensures
        design.neighbors(m, settings, a, count).contains(design.neighbor(m, settings, a, b)) <==> (
        design.are_near(m, settings, a, b) && exists|q: int|
            0 <= q < count && #[trigger] design.order()[q] == b),
    decreases count,
{
    let all = design.neighbors(m, settings, a, count);
    let wanted = design.neighbor(m, settings, a, b);
    if count > 0 {
        let q = count - 1;
        let other = design.order()[q];
        let before = design.neighbors(m, settings, a, q as nat);
        let last = design.neighbor(m, settings, a, other);
        lemma_neighbors(design, m, settings, a, b, q as nat);
        if design.are_near(m, settings, a, other) {
            assert(all == before.push(last));
            if before.contains(wanted) {
                let t = before.index_of(wanted);
                assert(all[t] == wanted);
            }
            if other == b {
                assert(all[before.len() as int] == wanted);
            }
            if all.contains(wanted) && other != b {
                assert(last.cell_index != wanted.cell_index);
                let t = all.index_of(wanted);
                assert(before[t] == wanted);
            }
        }
        if all.contains(wanted) {
            if before.contains(wanted) {
                let p = choose|p: int| 0 <= p < q && #[trigger] design.order()[p] == b;
                assert(design.order()[p] == b);
            }
        }
    }
}

/// The neighbours of a cell are exactly the other cells within the radius.
pub proof fn neighbors_are_the_cells_nearby<S: Copy>(
    design: Design<S>,
    m: Arithmetic<S>,
    settings: BistableModelSettings<S>,
    a: QCACellIndex,
    b: QCACellIndex,
)
    requires
        design.is_addressable(),
        design.has_cell(b),
    ensures
        design.neighbors(m, settings, a, design.order().len()).contains(
            design.neighbor(m, settings, a, b),
        ) <==> design.are_near(m, settings, a, b),
{
    order_lists_every_cell(design, b);
    let q = design.order().index_of(b);
    assert(design.order()[q] == b);
    lemma_neighbors(design, m, settings, a, b, design.order().len());
}

/// A model that took over a design knows the neighbours of each of its cells.
pub proof fn initiation_finds_the_neighbors<S: Copy>(
    m: Arithmetic<S>,
    state: ModelState<S>,
    design: Design<S>,
    index: QCACellIndex,
)
    requires
        design.has_cell(index),
    ensures
        state.initiated(m, design).neighbors(index) == design.neighbors(
            m,
            state.model_settings,
            index,
            design.order().len(),
        ),
{
    let found = design.neighbors(m, state.model_settings, index, design.order().len());
    if found.len() == 0 {
        assert(found =~= Seq::empty());
    }
}

/// Nearness goes both ways: if one cell is a neighbour of another, then the other is
/// a neighbour of the one.
pub proof fn neighborhood_is_symmetric<S: Copy>(
    design: Design<S>,
    m: Arithmetic<S>,
    settings: BistableModelSettings<S>,
    a: QCACellIndex,
    b: QCACellIndex,
)
    requires
        m.is_even_handed(),
        design.is_addressable(),
        design.has_cell(a),
        design.has_cell(b),
    ensures
        design.neighbors(m, settings, a, design.order().len()).contains(
            design.neighbor(m, settings, a, b),
        ) <==> design.neighbors(m, settings, b, design.order().len()).contains(
            design.neighbor(m, settings, b, a),
        ),
{
    neighbors_are_the_cells_nearby(design, m, settings, a, b);
    neighbors_are_the_cells_nearby(design, m, settings, b, a);
    distance_is_symmetric(m, place(design.cell(a).position), place(design.cell(b).position));
}

/// Neighbours act on each other by the same couplings.
pub proof fn couplings_are_symmetric<S: Copy>(
    design: Design<S>,
    m: Arithmetic<S>,
    settings: BistableModelSettings<S>,
    a: QCACellIndex,
    b: QCACellIndex,
    component_a: int,
    component_b: int,
)
    requires
        m.is_order_free(),
        0 <= component_a < design.architecture(a).components(),
        0 <= component_b < design.architecture(b).components(),
    ensures
        design.neighbor(m, settings, a, b).kink_energy[component_a][component_b]
            == design.neighbor(m, settings, b, a).kink_energy[component_b][component_a],
{
    kink_energy_is_symmetric(
        m,
        design.site(a),
        component_a,
        design.site(b),
        component_b,
        settings.relative_permitivity,
    );
}

/// No cell is a neighbour of itself.
pub proof fn no_cell_is_its_own_neighbor<S: Copy>(
    design: Design<S>,
    m: Arithmetic<S>,
    settings: BistableModelSettings<S>,
    index: QCACellIndex,
    count: nat,
    t: int,
)
    requires
        0 <= t < design.neighbors(m, settings, index, count).len(),
    ensures
        design.neighbors(m, settings, index, count)[t].cell_index != index,
    decreases count,
{
    if count > 0 {
        let before = design.neighbors(m, settings, index, (count - 1) as nat);
        if t < before.len() {
            no_cell_is_its_own_neighbor(design, m, settings, index, (count - 1) as nat, t);
        }
    }
}

proof fn lemma_layer_inputs_grow<S>(design: Design<S>, layer: int, few: nat, many: nat)
    requires
        few <= many,
    ensures
        design.layer_inputs(layer, few) <= design.layer_inputs(layer, many),
    decreases many,
{
    if few < many {
        lemma_layer_inputs_grow(design, layer, few, (many - 1) as nat);
    }
}

proof fn lemma_layers_inputs_grow<S>(design: Design<S>, few: nat, many: nat)
    requires
        few <= many,
    ensures
        design.layers_inputs(few) <= design.layers_inputs(many),
    decreases many,
{
    if few < many {
        lemma_layers_inputs_grow(design, few, (many - 1) as nat);
    }
}

/// Fewer inputs come before an input than before any cell after it.
pub proof fn inputs_before_grow<S>(design: Design<S>, input: QCACellIndex, later: QCACellIndex)
    requires
        design.has_cell(input),
        design.has_cell(later),
        design.cell(input).typ is Input,
        design.comes_before(input, later),
    ensures
        design.inputs_before(input) < design.inputs_before(later),
{
    let i = input.layer as int;
    let past = (input.cell + 1) as nat;
    assert(design.layer_inputs(i, past) == design.layer_inputs(i, input.cell as nat) + 1);
    if input.layer == later.layer {
        lemma_layer_inputs_grow(design, i, past, later.cell as nat);
    } else {
        lemma_layer_inputs_grow(design, i, past, design.layers[i].cells.len());
        lemma_layers_inputs_grow(design, (i + 1) as nat, later.layer as nat);
    }
}

/// No two inputs share a number.
pub proof fn inputs_have_different_numbers<S>(design: Design<S>, a: QCACellIndex, b: QCACellIndex)
    requires
        design.layers_inputs(design.layers.len()) <= usize::MAX,
        design.input_numbers().contains_key(a),
        design.input_numbers().contains_key(b),
        a != b,
    ensures
        design.input_numbers()[a] != design.input_numbers()[b],
{
    inputs_before_are_few(design, a);
    inputs_before_are_few(design, b);
    if design.comes_before(a, b) {
        inputs_before_grow(design, a, b);
    } else {
        inputs_before_grow(design, b, a);
    }
}

/// The number of an input is below the number of inputs.
pub proof fn inputs_before_are_few<S>(design: Design<S>, input: QCACellIndex)
    requires
        design.has_cell(input),
        design.cell(input).typ is Input,
    ensures
        design.inputs_before(input) < design.layers_inputs(design.layers.len()),
{
    let i = input.layer as int;
    let past = (input.cell + 1) as nat;
    assert(design.layer_inputs(i, past) == design.layer_inputs(i, input.cell as nat) + 1);
    lemma_layer_inputs_grow(design, i, past, design.layers[i].cells.len());
    lemma_layers_inputs_grow(design, (i + 1) as nat, design.layers.len());
}

/// Inputs are numbered without gaps: every number below the number of inputs is the
/// number of an input.
pub proof fn input_numbers_have_no_gaps<S>(design: Design<S>, number: nat) -> (input: QCACellIndex)
    requires
        design.is_addressable(),
        number < design.layers_inputs(design.layers.len()),
    ensures
        design.has_cell(input),
        design.cell(input).typ is Input,
        design.inputs_before(input) == number,
{
    let i = layer_of_input(design, number, design.layers.len());
    let j = cell_of_input(
        design,
        i,
        (number - design.layers_inputs(i as nat)) as nat,
        design.layers[i].cells.len(),
    );
    QCACellIndex { layer: i as usize, cell: j as usize }
}

/// The layer of the input with this number.
proof fn layer_of_input<S>(design: Design<S>, number: nat, count: nat) -> (layer: int)
    requires
        number < design.layers_inputs(count),
        count <= design.layers.len(),
    ensures
        0 <= layer < count,
        design.layers_inputs(layer as nat) <= number < design.layers_inputs((layer + 1) as nat),
    decreases count,
{
    if number < design.layers_inputs((count - 1) as nat) {
        layer_of_input(design, number, (count - 1) as nat)
    } else {
        count - 1
    }
}

/// The place in its layer of the input with this number in the layer.
proof fn cell_of_input<S>(design: Design<S>, layer: int, number: nat, count: nat) -> (cell: int)
    requires
        number < design.layer_inputs(layer, count),
    ensures
        0 <= cell < count,
        design.layers[layer].cells[cell].typ is Input,
        design.layer_inputs(layer, cell as nat) == number,
    decreases count,
{
    if number < design.layer_inputs(layer, (count - 1) as nat) {
        cell_of_input(design, layer, number, (count - 1) as nat)
    } else {
        count - 1
    }
}

} // verus!
