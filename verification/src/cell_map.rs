//! Values kept for the cells of a design.

use std::collections::HashMap;
use vstd::prelude::*;

use crate::objects::QCACellIndex;

verus! {

broadcast use vstd::std_specs::hash::group_hash_axioms;

/// One past the largest cell number that a key leaves room for.
const LAYER_STEP: u128 = 0x1_0000_0000_0000_0000;

/// A single number for a cell index; no two indices share one.
spec fn key_of(index: QCACellIndex) -> u128 {
    (index.layer * LAYER_STEP + index.cell) as u128
}

fn key(index: QCACellIndex) -> (key: u128)
    ensures
        key == key_of(index),
{
    index.layer as u128 * LAYER_STEP + index.cell as u128
}

proof fn lemma_keys_differ()
    ensures
        forall|i: QCACellIndex, j: QCACellIndex| #[trigger]
            key_of(i) == #[trigger] key_of(j) ==> i == j,
{
    assert forall|i: QCACellIndex, j: QCACellIndex| #[trigger] key_of(i) == #[trigger] key_of(
        j,
    ) implies i == j by {
        assert(key_of(i) == i.layer * LAYER_STEP + i.cell);
        assert(key_of(j) == j.layer * LAYER_STEP + j.cell);
    }
}

/// A map from cell indices to values that remembers in which order the indices
/// came in.
#[verifier::reject_recursive_types(T)]
pub struct CellMap<T> {
    by_key: HashMap<u128, T>,
    indices: Vec<QCACellIndex>,
}

impl<T: View> View for CellMap<T> {
    type V = Map<QCACellIndex, T::V>;

    closed spec fn view(&self) -> Map<QCACellIndex, T::V> {
        Map::new(
            |index: QCACellIndex| self.by_key@.contains_key(key_of(index)),
            |index: QCACellIndex| self.by_key@[key_of(index)]@,
        )
    }
}

impl<T: View> CellMap<T> {
    /// The indices in the map, in the order in which they came in.
    pub closed spec fn order(&self) -> Seq<QCACellIndex> {
        self.indices@
    }

    /// The order lists each index of the map once.
    pub open spec fn wf(&self) -> bool {
        &&& self.order().no_duplicates()
        &&& forall|index: QCACellIndex| #[trigger]
            self@.contains_key(index) <==> self.order().contains(index)
    }

    pub fn new() -> (map: CellMap<T>)
        ensures
            map.wf(),
            map@ == Map::<QCACellIndex, T::V>::empty(),
            map.order() == Seq::<QCACellIndex>::empty(),
    {
        let map = CellMap { by_key: HashMap::new(), indices: Vec::new() };
        assert(map@ =~= Map::<QCACellIndex, T::V>::empty());
        map
    }

    /// How many indices the map holds.
    pub fn len(&self) -> (len: usize)
        ensures
            len == self.order().len(),
    {
        self.indices.len()
    }

    /// The machine can count the indices in the map.
    pub proof fn order_fits(&self)
        ensures
            self.order().len() <= usize::MAX,
    {
        assert(self.indices.len() == self.indices@.len());
    }

    /// The index that came in at this place of the order.
    pub fn index_at(&self, place: usize) -> (index: QCACellIndex)
        requires
            place < self.order().len(),
        ensures
            index == self.order()[place as int],
    {
        self.indices[place]
    }

    pub fn get(&self, index: QCACellIndex) -> (value: Option<&T>)
        ensures
            match value {
                Some(found) => self@.contains_key(index) && found@ == self@[index],
                None => !self@.contains_key(index),
            },
    {
        self.by_key.get(&key(index))
    }

    /// Gives the index this value, in place of any that it had.
    pub fn insert(&mut self, index: QCACellIndex, value: T)
        requires
            old(self).wf(),
        ensures
            final(self).wf(),
            final(self)@ == old(self)@.insert(index, value@),
            final(self).order() == if old(self)@.contains_key(index) {
                old(self).order()
            } else {
                old(self).order().push(index)
            },
    {
        let key = key(index);
        let known = self.by_key.contains_key(&key);
        if !known {
            self.indices.push(index);
        }
        self.by_key.insert(key, value);
        proof {
            lemma_keys_differ();
            assert(self@ =~= old(self)@.insert(index, value@));
            assert(known == old(self)@.contains_key(index));
            if !known {
                let before = old(self).order();
                let after = self.order();
                assert(after == before.push(index));
                assert forall|other: QCACellIndex| #[trigger]
                    self@.contains_key(other) <==> after.contains(other) by {
                    if before.contains(other) {
                        let place = before.index_of(other);
                        assert(after[place] == other);
                    }
                    if other == index {
                        assert(after[before.len() as int] == other);
                    }
                    if after.contains(other) && other != index {
                        let place = after.index_of(other);
                        assert(before[place] == other);
                    }
                }
            }
        }
    }
}

} // verus!
