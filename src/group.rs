use crate::sparse_storage::SparseStorage;
use crate::{SparseSet, SparseSetError};
use vstd::prelude::*;

verus! {

broadcast use vstd::set::group_set_axioms, vstd::seq_lib::seq_to_set_is_finite;

/// The ids present in both sequences.
pub open spec fn common_ids<E>(a: Seq<E>, b: Seq<E>) -> Set<E> {
    a.to_set().intersect(b.to_set())
}

/// The number of ids that two sets share. It probes `y` once for each id of
/// `x`, so `x` should be the shorter one.
fn count_common<E: Copy, T1, S1: SparseStorage<EntityId = E>, T2, S2: SparseStorage<EntityId = E>>(
    x: &SparseSet<E, T1, S1>,
    y: &SparseSet<E, T2, S2>,
) -> (r: usize)
    requires
        x.wf(),
        y.wf(),
    ensures
        r == common_ids(x.spec_ids(), y.spec_ids()).len(),
{
    let ids = x.ids();
    let ghost xs = x.spec_ids();
    proof {
        x.lemma_ids_distinct();
        y.lemma_ids_distinct();
    }
    let mut count: usize = 0;
    let mut i: usize = 0;
    proof {
        assert(xs.take(0) =~= Seq::<E>::empty());
        assert(common_ids(xs.take(0), y.spec_ids()) =~= Set::<E>::empty());
    }
    while i < ids.len()
        invariant
            x.wf(),
            y.wf(),
            ids@ == xs,
            xs == x.spec_ids(),
            xs.no_duplicates(),
            i <= xs.len(),
            count <= i,
            count == common_ids(xs.take(i as int), y.spec_ids()).len(),
        decreases xs.len() - i,
    {
        let e = ids[i];
        let ghost before = common_ids(xs.take(i as int), y.spec_ids());
        proof {
            assert(xs.take(i + 1) =~= xs.take(i as int).push(e));
            assert(!xs.take(i as int).contains(e)) by {
                if xs.take(i as int).contains(e) {
                    let k = choose|k: int| 0 <= k < i && xs.take(i as int)[k] == e;
                    assert(xs[k] == xs[i as int]);
                }
            }
            xs.take(i as int).lemma_push_to_set_commute(e);
        }
        if y.contains(e) {
            proof {
                assert(common_ids(xs.take(i + 1), y.spec_ids()) =~= before.insert(e));
            }
            count = count + 1;
        } else {
            proof {
                assert(common_ids(xs.take(i + 1), y.spec_ids()) =~= before);
            }
        }
        i = i + 1;
    }
    proof {
        assert(xs.take(i as int) =~= xs);
    }
    count
}

/// A copy of a slice of ids.
fn copy_ids<E: Copy>(ids: &[E]) -> (r: Vec<E>)
    ensures
        r@ == ids@,
{
    let mut r: Vec<E> = Vec::new();
    let mut i: usize = 0;
    while i < ids.len()
        invariant
            i <= ids@.len(),
            r@ == ids@.take(i as int),
        decreases ids@.len() - i,
    {
        r.push(ids[i]);
        i = i + 1;
        proof {
            assert(r@ =~= ids@.take(i as int));
        }
    }
    proof {
        assert(ids@.take(i as int) =~= ids@);
    }
    r
}

/// Walk the ids of `x` in their dense order and move each one that `y` also
/// holds to `x_base + m` in `x` and to `y_base + m` in `y`, where `m` counts
/// the ids moved before it. Returns the final count.
fn place_common<E: Copy, T1, S1: SparseStorage<EntityId = E>, T2, S2: SparseStorage<EntityId = E>>(
    x: &mut SparseSet<E, T1, S1>,
    x_base: usize,
    y: &mut SparseSet<E, T2, S2>,
    y_base: usize,
) -> (k: usize)
    requires
        old(x).wf(),
        old(y).wf(),
        x_base + common_ids(old(x).spec_ids(), old(y).spec_ids()).len() <= old(x).spec_ids().len(),
        y_base + common_ids(old(x).spec_ids(), old(y).spec_ids()).len() <= old(y).spec_ids().len(),
    ensures
        final(x).wf(),
        final(y).wf(),
        final(x).content() == old(x).content(),
        final(y).content() == old(y).content(),
        final(x).spec_ids().len() == old(x).spec_ids().len(),
        final(y).spec_ids().len() == old(y).spec_ids().len(),
        k == common_ids(old(x).spec_ids(), old(y).spec_ids()).len(),
        final(x).spec_ids().subrange(x_base as int, x_base + k) == final(y).spec_ids().subrange(
            y_base as int,
            y_base + k,
        ),
        final(x).spec_ids().subrange(x_base as int, x_base + k).to_set() == common_ids(
            old(x).spec_ids(),
            old(y).spec_ids(),
        ),
{
    let ghost x0 = *x;
    let ghost y0 = *y;
    let ghost common = common_ids(x0.spec_ids(), y0.spec_ids());
    let order = copy_ids(x.ids());
    let y_len = y.len();
    proof {
        x0.lemma_ids_distinct();
        y0.lemma_ids_distinct();
        assert(order@.take(0) =~= Seq::<E>::empty());
        assert(common_ids(order@.take(0), y0.spec_ids()) =~= Set::<E>::empty());
        assert(Seq::<E>::empty().to_set() =~= Set::<E>::empty());
    }
    let ghost mut placed: Seq<E> = Seq::empty();
    let mut m: usize = 0;
    let mut i: usize = 0;
    while i < order.len()
        invariant
            x.wf(),
            y.wf(),
            x.content() == x0.content(),
            y.content() == y0.content(),
            x.spec_ids().len() == x0.spec_ids().len(),
            y.spec_ids().len() == y0.spec_ids().len(),
            y_len == y0.spec_ids().len(),
            x0.wf(),
            y0.wf(),
            x0.spec_ids().no_duplicates(),
            forall|e: E| #[trigger] x0.spec_ids().contains(e) == x0.has(e),
            forall|e: E| #[trigger] y0.spec_ids().contains(e) == y0.has(e),
            common == common_ids(x0.spec_ids(), y0.spec_ids()),
            x_base + common.len() <= x0.spec_ids().len(),
            y_base + common.len() <= y0.spec_ids().len(),
            order@ == x0.spec_ids(),
            i <= order@.len(),
            m == placed.len(),
            m <= i,
            placed.no_duplicates(),
            placed.to_set() == common_ids(order@.take(i as int), y0.spec_ids()),
            forall|j: int|
                0 <= j < m ==> x.spec_ids()[x_base + j] == #[trigger] placed[j] && y.spec_ids()[y_base
                    + j] == placed[j],
        decreases order@.len() - i,
    {
        let e = order[i];
        let ghost seen = order@.take(i as int);
        proof {
            assert(order@.take(i + 1) =~= seen.push(e));
            seen.lemma_push_to_set_commute(e);
            assert(!seen.contains(e)) by {
                if seen.contains(e) {
                    let k = choose|k: int| 0 <= k < i && seen[k] == e;
                    assert(order@[k] == order@[i as int]);
                }
            }
            assert(x0.spec_ids().contains(order@[i as int]));
            assert(x.content().dom().contains(e) == x0.content().dom().contains(e));
        }
        match y.get_index(e) {
            Some(p) => {
                proof {
                    assert(y.has(e));
                    assert(y.content().dom().contains(e));
                    assert(y0.has(e));
                    assert(common_ids(order@.take(i + 1), y0.spec_ids()) =~= placed.to_set().insert(e));
                    assert(!placed.to_set().contains(e));
                    assert(placed.push(e).no_duplicates()) by {
                        assert forall|a: int, b: int|
                            0 <= a < placed.len() + 1 && 0 <= b < placed.len() + 1 && a != b implies
                            placed.push(e)[a] != placed.push(e)[b] by {
                            if a < placed.len() {
                                assert(placed.to_set().contains(placed[a]));
                            }
                            if b < placed.len() {
                                assert(placed.to_set().contains(placed[b]));
                            }
                        }
                    }
                    placed.lemma_push_to_set_commute(e);
                    placed.push(e).unique_seq_to_set();
                    assert(placed.push(e).to_set().subset_of(common)) by {
                        assert forall|f: E| placed.push(e).to_set().contains(f) implies common.contains(f) by {
                            if f != e {
                                assert(placed.to_set().contains(f));
                                let k = choose|k: int| 0 <= k < i && seen[k] == f;
                                assert(order@[k] == f);
                                assert(x0.spec_ids().contains(f));
                            }
                        }
                    }
                    vstd::set_lib::lemma_len_subset(placed.push(e).to_set(), common);
                }
                let q = match x.get_index(e) {
                    Some(q) => q,
                    None => {
                        proof {
                            assert(false);
                        }
                        0
                    },
                };
                proof {
                    assert(y_base + m < y_len);
                }
                x.swap_by_index_unchecked(q, x_base + m);
                y.swap_by_index_unchecked(p, y_base + m);
                proof {
                    assert forall|j: int| 0 <= j < m implies x.spec_ids()[x_base + j] == #[trigger] placed[j] by {
                        assert(placed.to_set().contains(placed[j]));
                    }
                    assert forall|j: int| 0 <= j < m implies y.spec_ids()[y_base + j] == #[trigger] placed[j] by {
                        assert(placed.to_set().contains(placed[j]));
                    }
                    placed = placed.push(e);
                }
                m = m + 1;
            },
            None => {
                proof {
                    assert(!y.has(e));
                    assert(!y.content().dom().contains(e));
                    assert(!y0.has(e));
                    assert(common_ids(order@.take(i + 1), y0.spec_ids()) =~= placed.to_set());
                }
            },
        }
        i = i + 1;
    }
    proof {
        assert(order@.take(i as int) =~= order@);
        placed.unique_seq_to_set();
        assert(x.spec_ids().subrange(x_base as int, x_base + m) =~= placed);
        assert(y.spec_ids().subrange(y_base as int, y_base + m) =~= placed);
    }
    m
}

/// Rearrange `a` and `b` so that the ids they share fill `a` from position
/// `offset` on and `b` from position 0, in the same order in both, and
/// return how many they share. Each set keeps its entries, only their order
/// changes. The shorter set drives the walk, `a` when the lengths are equal.
/// Refused, with nothing changed, when the shared ids do not fit in `a` from
/// `offset` on.
pub fn make_group_in<E: Copy, TA, SA: SparseStorage<EntityId = E>, TB, SB: SparseStorage<EntityId = E>>(
    a: &mut SparseSet<E, TA, SA>,
    b: &mut SparseSet<E, TB, SB>,
    offset: usize,
) -> (r: Result<usize, SparseSetError>)
    requires
        old(a).wf(),
        old(b).wf(),
    ensures
        final(a).wf(),
        final(b).wf(),
        ({
            let common = common_ids(old(a).spec_ids(), old(b).spec_ids());
            offset + common.len() <= old(a).spec_ids().len() ==> {
                &&& r matches Ok(k) && k == common.len()
                &&& final(a).content() == old(a).content()
                &&& final(b).content() == old(b).content()
                &&& final(a).spec_ids().len() == old(a).spec_ids().len()
                &&& final(b).spec_ids().len() == old(b).spec_ids().len()
                &&& final(a).spec_ids().subrange(offset as int, offset + common.len())
                    == final(b).spec_ids().subrange(0, common.len() as int)
                &&& final(a).spec_ids().subrange(offset as int, offset + common.len()).to_set()
                    == common
            }
        }),
        offset + common_ids(old(a).spec_ids(), old(b).spec_ids()).len() > old(a).spec_ids().len() ==> {
            &&& r == Err::<usize, SparseSetError>(SparseSetError::BoundsError)
            &&& *final(a) == *old(a)
            &&& *final(b) == *old(b)
        },
{
    let ghost common = common_ids(a.spec_ids(), b.spec_ids());
    proof {
        assert(common_ids(b.spec_ids(), a.spec_ids()) =~= common);
        a.lemma_ids_distinct();
        b.lemma_ids_distinct();
        a.spec_ids().unique_seq_to_set();
        b.spec_ids().unique_seq_to_set();
        vstd::set_lib::lemma_len_subset(common, a.spec_ids().to_set());
        vstd::set_lib::lemma_len_subset(common, b.spec_ids().to_set());
    }
    let a_drives = a.len() <= b.len();
    let count = if a_drives {
        count_common(a, b)
    } else {
        count_common(b, a)
    };
    if offset > a.len() || count > a.len() - offset {
        return Err(SparseSetError::BoundsError);
    }
    let k = if a_drives {
        place_common(a, offset, b, 0)
    } else {
        place_common(b, 0, a, offset)
    };
    Ok(k)
}

} // verus!
