use crate::sparse_storage::SparseStorage;
use crate::SparseSet;
use vstd::prelude::*;

verus! {

/// Two well-formed sets with the same ids in the same order store the same
/// positions.
pub proof fn lemma_same_ids_same_positions<E: Copy, T, S: SparseStorage<EntityId = E>>(
    s: SparseSet<E, T, S>,
    t: SparseSet<E, T, S>,
)
    requires
        s.wf(),
        t.wf(),
        s.spec_ids() == t.spec_ids(),
    ensures
        s.spec_positions() == t.spec_positions(),
{
    s.lemma_ids_distinct();
    t.lemma_ids_distinct();
    assert forall|e: E| #[trigger] s.spec_positions().contains_key(e) implies t.spec_positions().contains_key(e)
        && s.spec_positions()[e] == t.spec_positions()[e] by {
        assert(s.has(e));
        assert(s.spec_ids().contains(e));
        assert(t.has(e));
        let i = s.position_of(e);
        assert(t.has(t.spec_ids()[i]));
    }
    assert forall|e: E| #[trigger] t.spec_positions().contains_key(e) implies s.spec_positions().contains_key(e) by {
        assert(t.has(e));
        assert(t.spec_ids().contains(e));
        assert(s.has(e));
    }
    assert(s.spec_positions() =~= t.spec_positions());
}

/// Inserting a value under an id and then looking the id up gives that value.
pub proof fn lemma_insert_then_get<E: Copy, T, S: SparseStorage<EntityId = E>>(
    before: SparseSet<E, T, S>,
    after: SparseSet<E, T, S>,
    id: E,
    dat: T,
)
    requires
        before.wf(),
        after.is_insert_of(before, id, dat),
    ensures
        after.has(id),
        after.value_of(id) == Some(dat),
{
    if before.has(id) {
        let p = before.position_of(id);
        assert(before.spec_ids()[p] == id);
        assert(after.spec_ids()[p] == id);
        assert(after.has(after.spec_ids()[p]));
    } else {
        let n = before.spec_ids().len() as int;
        assert(after.spec_ids()[n] == id);
        assert(after.has(after.spec_ids()[n]));
    }
}

/// After removing an id it is absent and has no value; removing it a second
/// time gives nothing back and changes nothing.
pub proof fn lemma_remove_then_miss<E: Copy, T, S: SparseStorage<EntityId = E>>(
    before: SparseSet<E, T, S>,
    after: SparseSet<E, T, S>,
    again: SparseSet<E, T, S>,
    id: E,
)
    requires
        before.wf(),
        after.is_remove_of(before, id),
        again.is_remove_of(after, id),
    ensures
        !after.has(id),
        after.value_of(id) is None,
        again == after,
{
    if before.has(id) {
        before.lemma_ids_distinct();
        let i = before.position_of(id);
        let n = before.spec_ids().len() as int;
        assert(before.spec_ids()[i] == id);
        if after.has(id) {
            let p = after.position_of(id);
            assert(after.spec_ids()[p] == id);
            if p == i {
                assert(before.spec_ids()[n - 1] == before.spec_ids()[i]);
            } else {
                assert(before.spec_ids()[p] == before.spec_ids()[i]);
            }
        }
    }
}

/// Exchanging the same two dense positions twice restores the set.
pub proof fn lemma_swap_twice<E: Copy, T, S: SparseStorage<EntityId = E>>(
    before: SparseSet<E, T, S>,
    once: SparseSet<E, T, S>,
    twice: SparseSet<E, T, S>,
    a: int,
    b: int,
)
    requires
        before.wf(),
        0 <= a < before.spec_ids().len(),
        0 <= b < before.spec_ids().len(),
        once.is_swap_of(before, a, b),
        twice.is_swap_of(once, a, b),
    ensures
        twice.spec_ids() == before.spec_ids(),
        twice.spec_values() == before.spec_values(),
        twice.spec_positions() == before.spec_positions(),
{
    assert(twice.spec_ids() =~= before.spec_ids());
    assert(twice.spec_values() =~= before.spec_values());
    lemma_same_ids_same_positions(twice, before);
}

/// Inserting fresh, distinct ids one at a time, `ids[j]` with `data[j]`, gives
/// after `j` steps the first `j` pairs appended.
proof fn lemma_inserts_append<E: Copy, T, S: SparseStorage<EntityId = E>>(
    states: Seq<SparseSet<E, T, S>>,
    ids: Seq<E>,
    data: Seq<T>,
    j: int,
)
    requires
        states.len() == ids.len() + 1,
        ids.len() == data.len(),
        ids.no_duplicates(),
        states[0].wf(),
        forall|k: int| 0 <= k < ids.len() ==> !states[0].has(#[trigger] ids[k]),
        forall|k: int|
            0 <= k < ids.len() ==> #[trigger] states[k + 1].is_insert_of(states[k], ids[k], data[k]),
        0 <= j <= ids.len(),
    ensures
        states[j].wf(),
        states[j].spec_ids() == states[0].spec_ids() + ids.take(j),
        states[j].spec_values() == states[0].spec_values() + data.take(j),
    decreases j,
{
    if j > 0 {
        let k = j - 1;
        lemma_inserts_append(states, ids, data, k);
        assert(states[k + 1].is_insert_of(states[k], ids[k], data[k]));
        let prev = states[k];
        prev.lemma_ids_distinct();
        states[0].lemma_ids_distinct();
        assert(!prev.has(ids[k])) by {
            if prev.spec_ids().contains(ids[k]) {
                let p = choose|p: int| 0 <= p < prev.spec_ids().len() && prev.spec_ids()[p] == ids[k];
                let n0 = states[0].spec_ids().len() as int;
                if p < n0 {
                    assert(states[0].spec_ids()[p] == ids[k]);
                    assert(states[0].spec_ids().contains(ids[k]));
                } else {
                    assert(ids.take(k)[p - n0] == ids[p - n0]);
                }
            }
        }
        assert(states[j].spec_ids() =~= states[0].spec_ids() + ids.take(j));
        assert(states[j].spec_values() =~= states[0].spec_values() + data.take(j));
    } else {
        assert(states[0].spec_ids() + ids.take(0) =~= states[0].spec_ids());
        assert(states[0].spec_values() + data.take(0) =~= states[0].spec_values());
    }
}

/// Appending a batch of fresh, distinct ids gives the same ids and values, in
/// the same order, as inserting the pairs one at a time.
pub proof fn lemma_batch_matches_inserts<E: Copy, T, S: SparseStorage<EntityId = E>>(
    states: Seq<SparseSet<E, T, S>>,
    ids: Seq<E>,
    data: Seq<T>,
    batch: SparseSet<E, T, S>,
)
    requires
        states.len() == ids.len() + 1,
        ids.len() == data.len(),
        ids.no_duplicates(),
        states[0].wf(),
        forall|k: int| 0 <= k < ids.len() ==> !states[0].has(#[trigger] ids[k]),
        forall|k: int|
            0 <= k < ids.len() ==> #[trigger] states[k + 1].is_insert_of(states[k], ids[k], data[k]),
        batch.is_batch_of(states[0], ids, data),
    ensures
        states.last().spec_ids() == batch.spec_ids(),
        states.last().spec_values() == batch.spec_values(),
{
    let n = ids.len() as int;
    lemma_inserts_append(states, ids, data, n);
    assert(ids.take(n) =~= ids);
    assert(data.take(n) =~= data);
}

} // verus!
