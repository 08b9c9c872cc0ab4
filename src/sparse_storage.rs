use std::collections::HashMap;
use std::hash::Hash;
use std::marker::PhantomData;
use vstd::prelude::*;
use vstd::std_specs::hash::obeys_key_model;

verus! {

broadcast use vstd::std_specs::hash::group_hash_axioms;

/// The position map after giving `id` the position `index`, or dropping its
/// entry when `index` is `None`.
pub open spec fn assign<E>(m: Map<E, usize>, id: E, index: Option<usize>) -> Map<E, usize> {
    match index {
        Some(i) => m.insert(id, i),
        None => m.remove(id),
    }
}

/// The position map after giving `ids[j]` the position `start + j`, one id
/// after the other.
pub open spec fn assign_run<E>(m: Map<E, usize>, ids: Seq<E>, start: int) -> Map<E, usize>
    decreases ids.len(),
{
    if ids.len() == 0 {
        m
    } else {
        assign_run(m, ids.drop_last(), start).insert(ids.last(), (start + ids.len() - 1) as usize)
    }
}

/// The position of `id` in `m`, if it has one.
pub open spec fn lookup<E>(m: Map<E, usize>, id: E) -> Option<usize> {
    if m.contains_key(id) {
        Some(m[id])
    } else {
        None
    }
}

/// A mapping from entity ids to dense positions.
pub trait SparseStorage: Sized {
    /// The type of entity ids.
    type EntityId: Copy;

    /// The positions currently stored, by id.
    spec fn positions(&self) -> Map<Self::EntityId, usize>;

    /// Whether stores of this type behave as their position maps say.
    spec fn obeys_model() -> bool;

    /// Whether a position can be stored for `id` at all.
    spec fn admits(id: Self::EntityId) -> bool;

    /// A store with no entry.
    fn empty() -> (r: Self)
        ensures
            Self::obeys_model() ==> r.positions() == Map::<Self::EntityId, usize>::empty(),
    ;

    /// Get the position stored for `entity_id`.
    fn get_index(&self, entity_id: Self::EntityId) -> (r: Option<usize>)
        requires
            Self::obeys_model(),
        ensures
            r == lookup(self.positions(), entity_id),
    ;

    /// Store `index` as the position of `entity_id`, or drop its entry on `None`.
    fn set_index(&mut self, entity_id: Self::EntityId, index: Option<usize>)
        requires
            Self::obeys_model(),
            Self::admits(entity_id),
        ensures
            final(self).positions() == assign(old(self).positions(), entity_id, index),
    ;

    /// Give `entity_ids[j]` the position `start_index + j`, in order.
    fn set_indices(&mut self, entity_ids: &[Self::EntityId], start_index: usize)
        requires
            Self::obeys_model(),
            start_index + entity_ids@.len() <= usize::MAX,
            forall|j: int| 0 <= j < entity_ids@.len() ==> Self::admits(#[trigger] entity_ids@[j]),
        ensures
            final(self).positions() == assign_run(old(self).positions(), entity_ids@, start_index as int),
    {
        let mut index: usize = start_index;
        let mut j: usize = 0;
        while j < entity_ids.len()
            invariant
                Self::obeys_model(),
                j <= entity_ids@.len(),
                index == start_index + j,
                start_index + entity_ids@.len() <= usize::MAX,
                forall|k: int| 0 <= k < entity_ids@.len() ==> Self::admits(#[trigger] entity_ids@[k]),
                self.positions() == assign_run(old(self).positions(), entity_ids@.take(j as int), start_index as int),
            decreases entity_ids@.len() - j,
        {
            self.set_index(entity_ids[j], Some(index));
            proof {
                assert(entity_ids@.take(j + 1).drop_last() == entity_ids@.take(j as int));
            }
            index = index + 1;
            j = j + 1;
        }
        proof {
            assert(entity_ids@.take(j as int) == entity_ids@);
        }
    }

    /// Drop every entry.
    fn clear(&mut self)
        requires
            Self::obeys_model(),
        ensures
            final(self).positions() == Map::<Self::EntityId, usize>::empty(),
    ;

    /// Exchange the positions of two ids: each takes the other's former
    /// entry, an absent one included.
    fn swap(&mut self, entity_id_1: Self::EntityId, entity_id_2: Self::EntityId)
        requires
            Self::obeys_model(),
            Self::admits(entity_id_1),
            Self::admits(entity_id_2),
        ensures
            final(self).positions() == assign(
                assign(
                    old(self).positions(),
                    entity_id_1,
                    lookup(old(self).positions(), entity_id_2),
                ),
                entity_id_2,
                lookup(old(self).positions(), entity_id_1),
            ),
    {
        let index_1 = self.get_index(entity_id_1);
        let index_2 = self.get_index(entity_id_2);
        self.set_index(entity_id_1, index_2);
        self.set_index(entity_id_2, index_1);
    }
}

impl<E: Hash + Eq + Copy> SparseStorage for HashMap<E, usize> {
    type EntityId = E;

    open spec fn positions(&self) -> Map<E, usize> {
        self@
    }

    open spec fn obeys_model() -> bool {
        obeys_key_model::<E>()
    }

    fn empty() -> (r: Self) {
        HashMap::new()
    }

    open spec fn admits(id: E) -> bool {
        true
    }

    fn get_index(&self, entity_id: E) -> (r: Option<usize>) {
        match self.get(&entity_id) {
            Some(i) => Some(*i),
            None => None,
        }
    }

    fn set_index(&mut self, entity_id: E, index: Option<usize>) {
        match index {
            Some(i) => {
                self.insert(entity_id, i);
            },
            None => {
                self.remove(&entity_id);
            },
        }
    }

    fn clear(&mut self) {
        HashMap::clear(self);
    }
}

/// An entity id that names one slot of an array, no two ids the same slot.
pub trait SlotIndex: Copy {
    /// The slot of this id.
    spec fn slot(self) -> nat;

    /// Compute the slot of this id.
    fn to_slot(self) -> (r: usize)
        ensures
            r as nat == self.slot(),
    ;

    /// Distinct ids name distinct slots.
    proof fn lemma_slot_injective(a: Self, b: Self)
        ensures
            a.slot() == b.slot() ==> a == b,
    ;
}

impl SlotIndex for usize {
    open spec fn slot(self) -> nat {
        self as nat
    }

    fn to_slot(self) -> (r: usize) {
        self
    }

    proof fn lemma_slot_injective(a: usize, b: usize) {
    }
}

impl SlotIndex for u32 {
    open spec fn slot(self) -> nat {
        self as nat
    }

    fn to_slot(self) -> (r: usize) {
        self as usize
    }

    proof fn lemma_slot_injective(a: u32, b: u32) {
    }
}

/// An array indexed by slot, tagged with the id type that selects the slot.
#[derive(Debug)]
pub struct VecWrapper<T, E>(Vec<T>, PhantomData<E>);

/// An array-backed position store: slot `e` holds the position of id `e`.
pub type VecStorage<E> = VecWrapper<Option<usize>, E>;

impl<T, E> VecWrapper<T, E> {
    /// The slots, in order.
    pub closed spec fn slots(&self) -> Seq<T> {
        self.0@
    }

    /// An empty array.
    pub fn new() -> (r: Self)
        ensures
            r.slots() == Seq::<T>::empty(),
    {
        VecWrapper(Vec::new(), PhantomData)
    }
}

impl<T, E> Default for VecWrapper<T, E> {
    fn default() -> (r: Self)
        ensures
            r.slots() == Seq::<T>::empty(),
    {
        Self::new()
    }
}

impl<E: SlotIndex> SparseStorage for VecWrapper<Option<usize>, E> {
    type EntityId = E;

    open spec fn positions(&self) -> Map<E, usize> {
        Map::new(
            |e: E| e.slot() < self.slots().len() && self.slots()[e.slot() as int] is Some,
            |e: E| self.slots()[e.slot() as int]->Some_0,
        )
    }

    open spec fn obeys_model() -> bool {
        true
    }

    fn empty() -> (r: Self) {
        let r = VecWrapper::new();
        assert(r.positions() =~= Map::<E, usize>::empty());
        r
    }

    open spec fn admits(id: E) -> bool {
        id.slot() < usize::MAX
    }

    fn get_index(&self, entity_id: E) -> (r: Option<usize>) {
        let slot = entity_id.to_slot();
        if slot < self.0.len() {
            self.0[slot]
        } else {
            None
        }
    }

    fn set_index(&mut self, entity_id: E, index: Option<usize>) {
        let slot = entity_id.to_slot();
        while self.0.len() <= slot
            invariant
                slot < usize::MAX,
                old(self).0@.len() <= self.0@.len(),
                forall|k: int| 0 <= k < self.0@.len() ==> #[trigger] self.0@[k] == (
                    if k < old(self).0@.len() { old(self).0@[k] } else { None }),
            decreases slot + 1 - self.0.len(),
        {
            self.0.push(None);
        }
        self.0.set(slot, index);
        proof {
            let old_m = assign(old(self).positions(), entity_id, index);
            assert forall|e: E|
                #[trigger] self.positions().dom().contains(e) == old_m.dom().contains(e) && (
                self.positions().dom().contains(e) ==> self.positions()[e] == old_m[e]) by {
                E::lemma_slot_injective(e, entity_id);
            }
            assert(self.positions() =~= old_m);
        }
    }

    fn clear(&mut self) {
        self.0.clear();
        assert(self.positions() =~= Map::<E, usize>::empty());
    }
}

} // verus!
