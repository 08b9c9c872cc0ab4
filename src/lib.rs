//! A sparse set: values keyed by scattered entity ids, stored densely so that
//! they can be walked contiguously while lookups by id stay constant time.
mod group;
mod lemmas;
mod sparse_storage;

pub use group::{common_ids, make_group_in};
pub use lemmas::{
    lemma_batch_matches_inserts, lemma_insert_then_get, lemma_remove_then_miss,
    lemma_same_ids_same_positions, lemma_swap_twice,
};
pub use sparse_storage::{assign, assign_run, lookup, SlotIndex, SparseStorage, VecStorage, VecWrapper};

use vstd::prelude::*;

verus! {

/// Why an operation was refused. A refused operation changes nothing.
#[derive(Debug, Clone, Copy, PartialEq, Eq, Structural)]
pub enum SparseSetError {
    /// An index or an offset lies outside the dense arrays.
    BoundsError,
    /// A batch holds more ids than values, or fewer.
    LengthMismatch,
}

/// Swap two items of a vector in place, without cloning them.
fn swap_items<X>(v: &mut Vec<X>, i: usize, j: usize)
    requires
        i < old(v)@.len(),
        j < old(v)@.len(),
    ensures
        final(v)@ == old(v)@.update(i as int, old(v)@[j as int]).update(j as int, old(v)@[i as int]),
{
    if i == j {
        assert(old(v)@.update(i as int, old(v)@[j as int]).update(j as int, old(v)@[i as int]) =~= old(v)@);
        return ;
    }
    let last = v.len() - 1;
    let mut spare = v.pop().unwrap();
    if i == last {
        std::mem::swap(&mut v[j], &mut spare);
    } else if j == last {
        std::mem::swap(&mut v[i], &mut spare);
    } else {
        std::mem::swap(&mut v[i], &mut spare);
        std::mem::swap(&mut v[j], &mut spare);
        std::mem::swap(&mut v[i], &mut spare);
    }
    v.push(spare);
    assert(v@ =~= old(v)@.update(i as int, old(v)@[j as int]).update(j as int, old(v)@[i as int]));
}

/// After giving distinct `ids[j]` the position `start + j` in `m`, each of
/// them holds its own position, and every other entry is as before.
proof fn lemma_assign_run_fresh<E>(m: Map<E, usize>, ids: Seq<E>, start: int)
    requires
        ids.no_duplicates(),
        0 <= start,
        start + ids.len() <= usize::MAX,
    ensures
        forall|j: int|
            0 <= j < ids.len() ==> #[trigger] assign_run(m, ids, start).contains_key(ids[j])
                && assign_run(m, ids, start)[ids[j]] == start + j,
        forall|e: E|
            #[trigger] assign_run(m, ids, start).contains_key(e) ==> ids.contains(e) || (
            m.contains_key(e) && assign_run(m, ids, start)[e] == m[e]),
        forall|e: E| m.contains_key(e) && !ids.contains(e) ==> #[trigger] assign_run(m, ids, start).contains_key(e)
            && assign_run(m, ids, start)[e] == m[e],
    decreases ids.len(),
{
    if ids.len() > 0 {
        let rest = ids.drop_last();
        let last = ids.last();
        let n = ids.len() - 1;
        lemma_assign_run_fresh(m, rest, start);
        assert(rest.len() == n);
        assert forall|j: int| 0 <= j < ids.len() implies #[trigger] assign_run(m, ids, start).contains_key(ids[j])
            && assign_run(m, ids, start)[ids[j]] == start + j by {
            if j < n {
                assert(rest[j] == ids[j]);
                assert(assign_run(m, rest, start).contains_key(rest[j]));
                assert(ids[j] != ids[n]);
            }
        }
        assert forall|e: E| #[trigger] assign_run(m, ids, start).contains_key(e) implies ids.contains(e) || (
            m.contains_key(e) && assign_run(m, ids, start)[e] == m[e]) by {
            if e == last {
                assert(ids[n] == e);
            } else {
                assert(assign_run(m, rest, start).contains_key(e));
                if rest.contains(e) {
                    let j = choose|j: int| 0 <= j < rest.len() && rest[j] == e;
                    assert(ids[j] == e);
                }
            }
        }
        assert forall|e: E| m.contains_key(e) && !ids.contains(e) implies #[trigger] assign_run(m, ids, start).contains_key(e)
            && assign_run(m, ids, start)[e] == m[e] by {
            assert(!rest.contains(e)) by {
                if rest.contains(e) {
                    let j = choose|j: int| 0 <= j < rest.len() && rest[j] == e;
                    assert(ids[j] == e);
                }
            }
            assert(e != last) by {
                assert(ids[n] == last);
            }
            assert(assign_run(m, rest, start).contains_key(e));
        }
    }
}

/// Values of type `T` keyed by entity ids of type `E`, held in two parallel
/// dense arrays, with `S` mapping each present id to its dense position.
#[derive(Debug)]
pub struct SparseSet<E, T, S> {
    sparse: S,
    dense: Vec<E>,
    data: Vec<T>,
}

impl<E: Copy, T, S: SparseStorage<EntityId = E>> SparseSet<E, T, S> {
    /// The ids, in dense order.
    pub closed spec fn spec_ids(&self) -> Seq<E> {
        self.dense@
    }

    /// The values, in dense order: `spec_values()[i]` belongs to `spec_ids()[i]`.
    pub closed spec fn spec_values(&self) -> Seq<T> {
        self.data@
    }

    /// The dense position of each present id.
    pub closed spec fn spec_positions(&self) -> Map<E, usize> {
        self.sparse.positions()
    }

    /// Whether `id` is present.
    pub open spec fn has(&self, id: E) -> bool {
        self.spec_positions().contains_key(id)
    }

    /// The dense position of a present id.
    pub open spec fn position_of(&self, id: E) -> int {
        self.spec_positions()[id] as int
    }

    /// The value of `id`, if it is present.
    pub open spec fn value_of(&self, id: E) -> Option<T> {
        if self.has(id) {
            Some(self.spec_values()[self.position_of(id)])
        } else {
            None
        }
    }

    /// The entries as a map from id to value, whatever their dense order.
    pub open spec fn content(&self) -> Map<E, T> {
        Map::new(|e: E| self.has(e), |e: E| self.spec_values()[self.position_of(e)])
    }

    /// `self` is what inserting `dat` under `id` makes of `before`: a present
    /// id has its value replaced in place, an absent one is appended.
    pub open spec fn is_insert_of(self, before: Self, id: E, dat: T) -> bool {
        &&& self.wf()
        &&& if before.has(id) {
            &&& self.spec_ids() == before.spec_ids()
            &&& self.spec_values() == before.spec_values().update(before.position_of(id), dat)
        } else {
            &&& self.spec_ids() == before.spec_ids().push(id)
            &&& self.spec_values() == before.spec_values().push(dat)
        }
    }

    /// `self` is what removing `id` makes of `before`: the last entry moves
    /// into the freed position; an absent id changes nothing.
    pub open spec fn is_remove_of(self, before: Self, id: E) -> bool {
        &&& self.wf()
        &&& if before.has(id) {
            let (i, n) = (before.position_of(id), before.spec_ids().len());
            &&& self.spec_ids() == before.spec_ids().update(i, before.spec_ids()[n - 1]).drop_last()
            &&& self.spec_values() == before.spec_values().update(
                i,
                before.spec_values()[n - 1],
            ).drop_last()
        } else {
            self == before
        }
    }

    /// `self` is `before` with dense positions `a` and `b` exchanged.
    pub open spec fn is_swap_of(self, before: Self, a: int, b: int) -> bool {
        &&& self.wf()
        &&& self.spec_ids() == before.spec_ids().update(a, before.spec_ids()[b]).update(
            b,
            before.spec_ids()[a],
        )
        &&& self.spec_values() == before.spec_values().update(a, before.spec_values()[b]).update(
            b,
            before.spec_values()[a],
        )
    }

    /// `self` is `before` with the batch `ids`, `data` appended.
    pub open spec fn is_batch_of(self, before: Self, ids: Seq<E>, data: Seq<T>) -> bool {
        &&& self.wf()
        &&& self.spec_ids() == before.spec_ids() + ids
        &&& self.spec_values() == before.spec_values() + data
    }

    /// `positions` is a bijection between the ids of `ids` and the indices
    /// of `ids`, each id admitted by the store.
    pub open spec fn indexes(ids: Seq<E>, positions: Map<E, usize>) -> bool {
        &&& forall|i: int|
            0 <= i < ids.len() ==> {
                &&& positions.contains_key(#[trigger] ids[i])
                &&& positions[ids[i]] == i
                &&& S::admits(ids[i])
            }
        &&& forall|e: E|
            #[trigger] positions.contains_key(e) ==> {
                &&& positions[e] < ids.len()
                &&& ids[positions[e] as int] == e
            }
    }

    /// The invariant: the arrays are parallel, and the position map is a
    /// bijection between the present ids and `[0, len)`.
    pub open spec fn wf(&self) -> bool {
        &&& S::obeys_model()
        &&& self.spec_ids().len() == self.spec_values().len()
        &&& Self::indexes(self.spec_ids(), self.spec_positions())
    }

    /// Under the invariant no id occurs twice, and being present is the same
    /// as occurring in `spec_ids()`.
    pub proof fn lemma_ids_distinct(&self)
        requires
            self.wf(),
        ensures
            self.spec_ids().no_duplicates(),
            forall|e: E| #[trigger] self.spec_ids().contains(e) == self.has(e),
    {
        assert forall|i: int, j: int|
            0 <= i < self.spec_ids().len() && 0 <= j < self.spec_ids().len() && i != j implies
            self.spec_ids()[i] != self.spec_ids()[j] by {
            assert(self.has(self.spec_ids()[i]));
            assert(self.has(self.spec_ids()[j]));
        }
        assert forall|e: E| #[trigger] self.spec_ids().contains(e) == self.has(e) by {
            if self.spec_ids().contains(e) {
                let i = choose|i: int| 0 <= i < self.spec_ids().len() && self.spec_ids()[i] == e;
                assert(self.has(self.spec_ids()[i]));
            }
            if self.has(e) {
                assert(self.spec_ids()[self.position_of(e)] == e);
            }
        }
    }

    /// The position map is a bijection between the present ids and the dense
    /// positions `[0, len)`.
    pub proof fn lemma_positions_bijective(&self)
        requires
            self.wf(),
        ensures
            self.spec_positions().dom() == self.spec_ids().to_set(),
            self.spec_positions().dom().len() == self.spec_ids().len(),
            forall|e: E| #[trigger]
                self.spec_positions().contains_key(e) ==> self.spec_positions()[e] < self.spec_ids().len(),
            forall|e1: E, e2: E|
                #[trigger] self.spec_positions().contains_key(e1) && #[trigger] self.spec_positions().contains_key(e2)
                    && self.spec_positions()[e1] == self.spec_positions()[e2] ==> e1 == e2,
    {
        self.lemma_ids_distinct();
        assert(self.spec_positions().dom() =~= self.spec_ids().to_set());
        self.spec_ids().unique_seq_to_set();
    }

    /// Create a sparse set over an empty position store.
    pub fn with_storage(sparse_storage: S) -> (r: Self)
        requires
            S::obeys_model(),
            sparse_storage.positions() == Map::<E, usize>::empty(),
        ensures
            r.wf(),
            r.spec_ids() == Seq::<E>::empty(),
            r.spec_values() == Seq::<T>::empty(),
    {
        SparseSet { sparse: sparse_storage, dense: Vec::new(), data: Vec::new() }
    }

    /// Remove every entry.
    pub fn clear(&mut self)
        requires
            old(self).wf(),
        ensures
            final(self).wf(),
            final(self).spec_ids() == Seq::<E>::empty(),
            final(self).spec_values() == Seq::<T>::empty(),
    {
        self.sparse.clear();
        self.dense.clear();
        self.data.clear();
    }

    /// The number of entries.
    pub fn len(&self) -> (r: usize)
        requires
            self.wf(),
        ensures
            r == self.spec_ids().len(),
    {
        self.dense.len()
    }

    /// Whether the set has no entry.
    pub fn is_empty(&self) -> (r: bool)
        requires
            self.wf(),
        ensures
            r == (self.spec_ids().len() == 0),
    {
        self.dense.len() == 0
    }

    /// Whether `id` is present.
    pub fn contains(&self, id: E) -> (r: bool)
        requires
            self.wf(),
        ensures
            r == self.has(id),
            r == self.spec_ids().contains(id),
    {
        proof {
            if self.spec_ids().contains(id) {
                let i = choose|i: int| 0 <= i < self.spec_ids().len() && self.spec_ids()[i] == id;
                assert(self.has(self.spec_ids()[i]));
            }
            if self.has(id) {
                assert(self.spec_ids()[self.position_of(id)] == id);
            }
        }
        self.sparse.get_index(id).is_some()
    }

    /// The dense position of `id`, if it is present.
    pub fn get_index(&self, id: E) -> (r: Option<usize>)
        requires
            self.wf(),
        ensures
            r == lookup(self.spec_positions(), id),
            r matches Some(i) ==> i < self.spec_ids().len() && self.spec_ids()[i as int] == id,
    {
        let r = self.sparse.get_index(id);
        proof {
            if r is Some {
                assert(self.has(id));
            }
        }
        r
    }

    /// The value of `id`, if it is present.
    pub fn get(&self, id: E) -> (r: Option<&T>)
        requires
            self.wf(),
        ensures
            r == match self.value_of(id) {
                Some(v) => Some(&v),
                None => None::<&T>,
            },
    {
        match self.sparse.get_index(id) {
            Some(index) => Some(&self.data[index]),
            None => None,
        }
    }

    /// Exchange dense positions `index_a` and `index_b`, ids and values
    /// together, and update the positions of the two ids. The bounds are a
    /// precondition here instead of a check.
    pub fn swap_by_index_unchecked(&mut self, index_a: usize, index_b: usize)
        requires
            old(self).wf(),
            index_a < old(self).spec_ids().len(),
            index_b < old(self).spec_ids().len(),
        ensures
            final(self).is_swap_of(*old(self), index_a as int, index_b as int),
            final(self).content() == old(self).content(),
    {
        if index_a == index_b {
            proof {
                assert(self.spec_ids().update(index_a as int, self.spec_ids()[index_b as int]).update(
                    index_b as int,
                    self.spec_ids()[index_a as int],
                ) =~= self.spec_ids());
                assert(self.spec_values().update(index_a as int, self.spec_values()[index_b as int]).update(
                    index_b as int,
                    self.spec_values()[index_a as int],
                ) =~= self.spec_values());
            }
            return ;
        }
        let id_a = self.dense[index_a];
        let id_b = self.dense[index_b];
        proof {
            assert(self.has(id_a));
            assert(self.has(id_b));
        }
        self.sparse.swap(id_a, id_b);
        swap_items(&mut self.dense, index_a, index_b);
        swap_items(&mut self.data, index_a, index_b);
        proof {
            let m = old(self).spec_positions();
            assert(self.spec_positions() == m.insert(id_a, index_b).insert(id_b, index_a));
            assert forall|i: int| 0 <= i < self.spec_ids().len() implies {
                &&& self.has(#[trigger] self.spec_ids()[i])
                &&& self.position_of(self.spec_ids()[i]) == i
                &&& S::admits(self.spec_ids()[i])
            } by {
                assert(old(self).has(old(self).spec_ids()[i]));
            }
            assert forall|e: E| #[trigger] self.has(e) implies {
                &&& 0 <= self.position_of(e) < self.spec_ids().len()
                &&& self.spec_ids()[self.position_of(e)] == e
            } by {
                if e != id_a && e != id_b {
                    assert(old(self).has(e));
                }
            }
            assert(self.content() =~= old(self).content());
        }
    }

    /// Exchange dense positions `index_a` and `index_b`, ids and values
    /// together. Refused when either index is not below `len()`.
    pub fn swap_by_index(&mut self, index_a: usize, index_b: usize) -> (r: Result<(), SparseSetError>)
        requires
            old(self).wf(),
        ensures
            final(self).wf(),
            index_a < old(self).spec_ids().len() && index_b < old(self).spec_ids().len() ==> {
                &&& r is Ok
                &&& final(self).is_swap_of(*old(self), index_a as int, index_b as int)
                &&& final(self).content() == old(self).content()
            },
            !(index_a < old(self).spec_ids().len() && index_b < old(self).spec_ids().len()) ==> {
                &&& r == Err::<(), SparseSetError>(SparseSetError::BoundsError)
                &&& *final(self) == *old(self)
            },
    {
        if index_a >= self.dense.len() || index_b >= self.dense.len() {
            return Err(SparseSetError::BoundsError);
        }
        self.swap_by_index_unchecked(index_a, index_b);
        Ok(())
    }

    /// Exchange the dense positions of two present ids, values following.
    /// Nothing happens when either id is absent.
    pub fn swap_by_entity_id(&mut self, id_a: E, id_b: E)
        requires
            old(self).wf(),
        ensures
            final(self).wf(),
            old(self).has(id_a) && old(self).has(id_b) ==> {
                let (i, j) = (old(self).position_of(id_a), old(self).position_of(id_b));
                &&& final(self).spec_ids() == old(self).spec_ids().update(i, id_b).update(j, id_a)
                &&& final(self).spec_values() == old(self).spec_values().update(
                    i,
                    old(self).spec_values()[j],
                ).update(j, old(self).spec_values()[i])
            },
            !(old(self).has(id_a) && old(self).has(id_b)) ==> *final(self) == *old(self),
    {
        let index_a = self.sparse.get_index(id_a);
        let index_b = self.sparse.get_index(id_b);
        match (index_a, index_b) {
            (Some(a), Some(b)) => {
                proof {
                    assert(self.has(id_a));
                    assert(self.has(id_b));
                }
                self.swap_by_index_unchecked(a, b);
            },
            _ => {},
        }
    }

    /// Store `dat` as the value of `id`. A present id keeps its position and
    /// its former value is returned; an absent one is appended.
    pub fn insert(&mut self, id: E, dat: T) -> (r: Option<T>)
        requires
            old(self).wf(),
            S::admits(id),
        ensures
            r == old(self).value_of(id),
            final(self).is_insert_of(*old(self), id, dat),
    {
        match self.sparse.get_index(id) {
            Some(index) => {
                proof {
                    assert(self.has(id));
                }
                let mut dat = dat;
                std::mem::swap(&mut self.data[index], &mut dat);
                proof {
                    assert forall|i: int| 0 <= i < self.spec_ids().len() implies {
                        &&& self.has(#[trigger] self.spec_ids()[i])
                        &&& self.position_of(self.spec_ids()[i]) == i
                        &&& S::admits(self.spec_ids()[i])
                    } by {
                        assert(old(self).has(old(self).spec_ids()[i]));
                    }
                    assert forall|e: E| #[trigger] self.has(e) implies {
                        &&& 0 <= self.position_of(e) < self.spec_ids().len()
                        &&& self.spec_ids()[self.position_of(e)] == e
                    } by {
                        assert(old(self).has(e));
                    }
                }
                Some(dat)
            },
            None => {
                let index = self.dense.len();
                self.sparse.set_index(id, Some(index));
                self.dense.push(id);
                self.data.push(dat);
                proof {
                    assert forall|i: int| 0 <= i < self.spec_ids().len() implies {
                        &&& self.has(#[trigger] self.spec_ids()[i])
                        &&& self.position_of(self.spec_ids()[i]) == i
                        &&& S::admits(self.spec_ids()[i])
                    } by {
                        if i < index {
                            assert(old(self).has(old(self).spec_ids()[i]));
                        }
                    }
                    assert forall|e: E| #[trigger] self.has(e) implies {
                        &&& 0 <= self.position_of(e) < self.spec_ids().len()
                        &&& self.spec_ids()[self.position_of(e)] == e
                    } by {
                        if e != id {
                            assert(old(self).has(e));
                        }
                    }
                }
                None
            },
        }
    }

    /// Remove `id` and return its value. The last entry takes the freed
    /// position, so the arrays stay gap-free. Nothing happens when `id` is
    /// absent.
    pub fn remove(&mut self, id: E) -> (r: Option<T>)
        requires
            old(self).wf(),
        ensures
            r == old(self).value_of(id),
            final(self).is_remove_of(*old(self), id),
    {
        match self.sparse.get_index(id) {
            Some(index) => {
                proof {
                    assert(self.has(id));
                }
                let last = self.dense.len() - 1;
                self.swap_by_index_unchecked(index, last);
                let ghost mid = *self;
                self.sparse.set_index(id, None);
                self.dense.pop();
                let r = self.data.pop();
                proof {
                    assert(self.spec_ids() =~= old(self).spec_ids().update(
                        index as int,
                        old(self).spec_ids()[last as int],
                    ).drop_last());
                    assert(self.spec_values() =~= old(self).spec_values().update(
                        index as int,
                        old(self).spec_values()[last as int],
                    ).drop_last());
                    assert(mid.spec_ids()[last as int] == id);
                    assert forall|i: int| 0 <= i < self.spec_ids().len() implies {
                        &&& self.has(#[trigger] self.spec_ids()[i])
                        &&& self.position_of(self.spec_ids()[i]) == i
                        &&& S::admits(self.spec_ids()[i])
                    } by {
                        assert(mid.has(mid.spec_ids()[i]));
                    }
                    assert forall|e: E| #[trigger] self.has(e) implies {
                        &&& 0 <= self.position_of(e) < self.spec_ids().len()
                        &&& self.spec_ids()[self.position_of(e)] == e
                    } by {
                        assert(mid.has(e));
                    }
                }
                r
            },
            None => None,
        }
    }

    /// Append a batch of entries: `ids[j]` with value `data[j]`. The ids must
    /// be new to the set and distinct from each other. Refused when the two
    /// vectors differ in length; on success both are left empty.
    pub fn insert_batch(&mut self, ids: &mut Vec<E>, data: &mut Vec<T>) -> (r: Result<(), SparseSetError>)
        requires
            old(self).wf(),
            old(ids)@.no_duplicates(),
            forall|j: int| 0 <= j < old(ids)@.len() ==> !old(self).has(#[trigger] old(ids)@[j]),
            forall|j: int| 0 <= j < old(ids)@.len() ==> S::admits(#[trigger] old(ids)@[j]),
            old(self).spec_ids().len() + old(ids)@.len() <= usize::MAX,
        ensures
            final(self).wf(),
            old(ids)@.len() == old(data)@.len() ==> {
                &&& r is Ok
                &&& final(self).is_batch_of(*old(self), old(ids)@, old(data)@)
                &&& final(ids)@ == Seq::<E>::empty()
                &&& final(data)@ == Seq::<T>::empty()
            },
            old(ids)@.len() != old(data)@.len() ==> {
                &&& r == Err::<(), SparseSetError>(SparseSetError::LengthMismatch)
                &&& *final(self) == *old(self)
                &&& *final(ids) == *old(ids)
                &&& *final(data) == *old(data)
            },
    {
        if ids.len() != data.len() {
            return Err(SparseSetError::LengthMismatch);
        }
        let start_index = self.dense.len();
        self.sparse.set_indices(ids.as_slice(), start_index);
        proof {
            lemma_assign_run_fresh(old(self).spec_positions(), ids@, start_index as int);
        }
        self.dense.append(ids);
        self.data.append(data);
        proof {
            let added = old(ids)@;
            assert forall|i: int| 0 <= i < self.spec_ids().len() implies {
                &&& self.has(#[trigger] self.spec_ids()[i])
                &&& self.position_of(self.spec_ids()[i]) == i
                &&& S::admits(self.spec_ids()[i])
            } by {
                if i < start_index {
                    assert(old(self).has(old(self).spec_ids()[i]));
                    if added.contains(self.spec_ids()[i]) {
                        let j = choose|j: int| 0 <= j < added.len() && added[j] == self.spec_ids()[i];
                        assert(!old(self).has(added[j]));
                    }
                } else {
                    assert(self.spec_ids()[i] == added[i - start_index]);
                }
            }
            assert forall|e: E| #[trigger] self.has(e) implies {
                &&& 0 <= self.position_of(e) < self.spec_ids().len()
                &&& self.spec_ids()[self.position_of(e)] == e
            } by {
                if !added.contains(e) {
                    assert(old(self).has(e));
                }
            }
        }
        Ok(())
    }

    /// A mutable reference to the value of `id`, if it is present.
    pub fn get_mut(&mut self, id: E) -> (r: Option<&mut T>)
        requires
            old(self).wf(),
        ensures
            match r {
                Some(v) => {
                    &&& old(self).has(id)
                    &&& *v == old(self).spec_values()[old(self).position_of(id)]
                    &&& final(self).wf()
                    &&& final(self).spec_ids() == old(self).spec_ids()
                    &&& final(self).spec_positions() == old(self).spec_positions()
                    &&& final(self).spec_values() == old(self).spec_values().update(
                        old(self).position_of(id),
                        *final(v),
                    )
                },
                None => !old(self).has(id) && *final(self) == *old(self),
            },
    {
        match self.sparse.get_index(id) {
            Some(index) => {
                proof {
                    assert(self.has(id));
                }
                Some(&mut self.data[index])
            },
            None => None,
        }
    }

    /// The values, in dense order, for changing in place. A slice cannot
    /// change its length, so the invariant holds again once it is released.
    pub fn data_mut(&mut self) -> (r: &mut [T])
        requires
            old(self).wf(),
        ensures
            r@ == old(self).spec_values(),
            final(self).spec_values() == final(r)@,
            final(self).spec_ids() == old(self).spec_ids(),
            final(self).spec_positions() == old(self).spec_positions(),
            final(r)@.len() == r@.len() ==> final(self).wf(),
    {
        self.data.as_mut_slice()
    }

    /// The ids, in dense order.
    pub fn ids(&self) -> (r: &[E])
        requires
            self.wf(),
        ensures
            r@ == self.spec_ids(),
    {
        self.dense.as_slice()
    }

    /// The values, in dense order.
    pub fn data(&self) -> (r: &[T])
        requires
            self.wf(),
        ensures
            r@ == self.spec_values(),
    {
        self.data.as_slice()
    }
}

impl<E: Copy, T, S: SparseStorage<EntityId = E>> Default for SparseSet<E, T, S> {
    fn default() -> (r: Self)
        ensures
            S::obeys_model() ==> r.wf(),
            r.spec_ids() == Seq::<E>::empty(),
            r.spec_values() == Seq::<T>::empty(),
    {
        SparseSet { sparse: S::empty(), dense: Vec::new(), data: Vec::new() }
    }
}

} // verus!
