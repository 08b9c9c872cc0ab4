use std::collections::BTreeSet;
use std::collections::HashMap;

use xsparseset::{make_group_in, SparseSet, SparseSetError, VecStorage, VecWrapper};

type EntityId = usize;

/// A small deterministic generator, so that the large cases repeat exactly.
struct Lcg(u64);

impl Lcg {
    fn next(&mut self) -> u64 {
        self.0 = self.0.wrapping_mul(6364136223846793005).wrapping_add(1442695040888963407);
        self.0 >> 33
    }

    fn range(&mut self, lo: u64, hi: u64) -> u64 {
        lo + self.next() % (hi - lo)
    }

    fn letter(&mut self) -> char {
        (b'a' + self.range(0, 26) as u8) as char
    }
}

fn vec_set<T>() -> SparseSet<EntityId, T, VecStorage<EntityId>> {
    SparseSet::default()
}

fn hash_set<T>() -> SparseSet<EntityId, T, HashMap<EntityId, usize>> {
    SparseSet::default()
}

#[test]
fn interface_test() {
    let mut sparse_set: SparseSet<EntityId, char, VecStorage<EntityId>> = SparseSet::default();

    assert_eq!(sparse_set.len(), 0);
    assert!(sparse_set.is_empty());
    assert!(sparse_set.data().is_empty());
    assert!(sparse_set.ids().is_empty());

    let id: EntityId = 124;

    assert_eq!(sparse_set.remove(id), None);
    assert!(!sparse_set.contains(id));
    assert_eq!(sparse_set.len(), 0);
    assert!(sparse_set.is_empty());
    assert!(sparse_set.data().is_empty());
    assert!(sparse_set.ids().is_empty());

    // insert
    assert_eq!(sparse_set.insert(id, 'c'), None);

    assert_eq!(sparse_set.len(), 1);
    assert!(!sparse_set.is_empty());
    assert_eq!(sparse_set.get(id).copied(), Some('c'));
    assert!(sparse_set.contains(id));
    assert_eq!(sparse_set.data(), &['c']);
    assert_eq!(sparse_set.ids(), &[id]);

    // insert again to change the value
    assert_eq!(sparse_set.insert(id, 'b'), Some('c'));

    assert_eq!(sparse_set.len(), 1);
    assert!(!sparse_set.is_empty());
    assert_eq!(sparse_set.get(id).copied(), Some('b'));
    assert!(sparse_set.contains(id));
    assert_eq!(sparse_set.data(), &['b']);
    assert_eq!(sparse_set.ids(), &[id]);

    // remove this one
    assert_eq!(sparse_set.remove(id), Some('b'));

    assert!(!sparse_set.contains(id));
    assert_eq!(sparse_set.len(), 0);
    assert!(sparse_set.is_empty());
    assert!(sparse_set.data().is_empty());
    assert!(sparse_set.ids().is_empty());

    // remove twice
    assert_eq!(sparse_set.remove(id), None);

    assert!(!sparse_set.contains(id));
    assert_eq!(sparse_set.len(), 0);
    assert!(sparse_set.is_empty());
    assert!(sparse_set.data().is_empty());
    assert!(sparse_set.ids().is_empty());

    // a lot of ids, repeats included
    let mut rng = Lcg(7);
    let count = 100000;
    for _ in 0..count {
        let id = rng.range(1000, 100000) as EntityId;
        let c = rng.letter();
        sparse_set.insert(id, c);
        assert!(sparse_set.contains(id));
        assert_eq!(sparse_set.get(id).copied(), Some(c));
    }
}

#[test]
fn batch_test() {
    let mut rng = Lcg(11);
    let mut sparse_set: SparseSet<EntityId, char, VecStorage<EntityId>> = SparseSet::default();
    let mut set = BTreeSet::new();

    let mut ids = Vec::new();
    let mut data = Vec::new();

    let count = 100_000;
    for _ in 0..count {
        loop {
            let id = rng.range(1, 100_000_000);
            if !set.contains(&id) {
                set.insert(id);
                let d = rng.letter();
                ids.push(id as EntityId);
                data.push(d);
                break;
            }
        }
    }

    let mut ids_in = ids.clone();
    let mut data_in = data.clone();
    assert_eq!(sparse_set.insert_batch(&mut ids_in, &mut data_in), Ok(()));

    assert_eq!(data.len(), sparse_set.len());
    assert_eq!(&data, sparse_set.data());

    for (id, data) in ids.iter().zip(data.iter()) {
        let ch = sparse_set.get(*id);
        assert!(ch.is_some());
        assert_eq!(*data, ch.copied().unwrap());
    }
}

#[test]
fn insert_overwrites_in_place() {
    let mut set = vec_set::<char>();
    assert_eq!(set.insert(124, 'c'), None);
    assert_eq!(set.len(), 1);
    assert_eq!(set.get(124), Some(&'c'));
    assert_eq!(set.insert(124, 'b'), Some('c'));
    assert_eq!(set.get(124), Some(&'b'));
    assert_eq!(set.len(), 1);
}

#[test]
fn insert_then_get_hash_storage() {
    let mut set = hash_set::<u32>();
    for id in [900_000_000usize, 3, 77, 12] {
        assert_eq!(set.insert(id, id as u32 * 2), None);
        assert_eq!(set.get(id), Some(&(id as u32 * 2)));
    }
    assert_eq!(set.ids(), &[900_000_000, 3, 77, 12]);
    assert_eq!(set.get_index(77), Some(2));
    assert_eq!(set.get_index(78), None);
}

#[test]
fn remove_swaps_last_into_place() {
    let mut set = vec_set::<char>();
    for (id, c) in [(5, 'a'), (3, 'b'), (6, 'c'), (2, 'd')] {
        set.insert(id, c);
    }
    assert_eq!(set.remove(3), Some('b'));
    assert_eq!(set.ids(), &[5, 2, 6]);
    assert_eq!(set.data(), &['a', 'd', 'c']);
    assert_eq!(set.get_index(2), Some(1));
    assert!(!set.contains(3));
    assert_eq!(set.get(3), None);
    assert_eq!(set.remove(3), None);
    assert_eq!(set.ids(), &[5, 2, 6]);
    assert_eq!(set.data(), &['a', 'd', 'c']);
}

#[test]
fn remove_absent_id_changes_nothing() {
    let mut set = hash_set::<char>();
    set.insert(1, 'x');
    set.insert(2, 'y');
    assert_eq!(set.remove(9), None);
    assert_eq!(set.ids(), &[1, 2]);
    assert_eq!(set.data(), &['x', 'y']);
}

#[test]
fn remove_last_entry() {
    let mut set = vec_set::<char>();
    set.insert(1, 'x');
    set.insert(2, 'y');
    assert_eq!(set.remove(2), Some('y'));
    assert_eq!(set.ids(), &[1]);
    assert_eq!(set.get_index(1), Some(0));
}

#[test]
fn swap_by_index_scenario() {
    let mut set = vec_set::<char>();
    for (id, c) in [(5, 'a'), (3, 'b'), (6, 'c'), (2, 'd')] {
        set.insert(id, c);
    }
    assert_eq!(set.swap_by_index(1, 2), Ok(()));
    assert_eq!(set.ids(), &[5, 6, 3, 2]);
    assert_eq!(set.data(), &['a', 'c', 'b', 'd']);
    assert_eq!(set.get_index(6), Some(1));
    assert_eq!(set.get_index(3), Some(2));
    assert_eq!(set.get(3), Some(&'b'));
}

#[test]
fn swap_by_index_twice_restores() {
    let mut set = hash_set::<char>();
    for (id, c) in [(5, 'a'), (3, 'b'), (6, 'c'), (2, 'd')] {
        set.insert(id, c);
    }
    assert_eq!(set.swap_by_index(0, 3), Ok(()));
    assert_eq!(set.ids(), &[2, 3, 6, 5]);
    assert_eq!(set.swap_by_index(0, 3), Ok(()));
    assert_eq!(set.ids(), &[5, 3, 6, 2]);
    assert_eq!(set.data(), &['a', 'b', 'c', 'd']);
    assert_eq!(set.get_index(5), Some(0));
    assert_eq!(set.get_index(2), Some(3));
}

#[test]
fn swap_by_index_same_index() {
    let mut set = vec_set::<char>();
    set.insert(4, 'q');
    set.insert(8, 'r');
    assert_eq!(set.swap_by_index(1, 1), Ok(()));
    assert_eq!(set.ids(), &[4, 8]);
    assert_eq!(set.data(), &['q', 'r']);
}

#[test]
fn swap_by_index_out_of_range() {
    let mut set = vec_set::<char>();
    set.insert(4, 'q');
    set.insert(8, 'r');
    assert_eq!(set.swap_by_index(0, 2), Err(SparseSetError::BoundsError));
    assert_eq!(set.swap_by_index(5, 0), Err(SparseSetError::BoundsError));
    assert_eq!(set.ids(), &[4, 8]);
    assert_eq!(set.data(), &['q', 'r']);
}

#[test]
fn swap_by_entity_id_present_and_absent() {
    let mut set = vec_set::<char>();
    for (id, c) in [(5, 'a'), (3, 'b'), (6, 'c')] {
        set.insert(id, c);
    }
    set.swap_by_entity_id(5, 6);
    assert_eq!(set.ids(), &[6, 3, 5]);
    assert_eq!(set.data(), &['c', 'b', 'a']);
    assert_eq!(set.get(5), Some(&'a'));
    set.swap_by_entity_id(5, 40);
    assert_eq!(set.ids(), &[6, 3, 5]);
    assert_eq!(set.data(), &['c', 'b', 'a']);
}

#[test]
fn batch_matches_sequential_inserts() {
    let mut one_by_one = vec_set::<char>();
    let mut batched = vec_set::<char>();
    one_by_one.insert(10, 'z');
    batched.insert(10, 'z');
    let ids = vec![4usize, 99, 7];
    let data = vec!['p', 'q', 'r'];
    for (id, c) in ids.iter().zip(data.iter()) {
        one_by_one.insert(*id, *c);
    }
    let mut ids_in = ids.clone();
    let mut data_in = data.clone();
    assert_eq!(batched.insert_batch(&mut ids_in, &mut data_in), Ok(()));
    assert!(ids_in.is_empty());
    assert!(data_in.is_empty());
    assert_eq!(batched.ids(), one_by_one.ids());
    assert_eq!(batched.data(), one_by_one.data());
    assert_eq!(batched.get_index(7), Some(3));
    assert_eq!(batched.get(99), Some(&'q'));
}

#[test]
fn batch_length_mismatch() {
    let mut set = vec_set::<char>();
    set.insert(1, 'a');
    let mut ids = vec![2usize, 3];
    let mut data = vec!['b'];
    assert_eq!(set.insert_batch(&mut ids, &mut data), Err(SparseSetError::LengthMismatch));
    assert_eq!(ids, vec![2, 3]);
    assert_eq!(data, vec!['b']);
    assert_eq!(set.ids(), &[1]);
    assert!(!set.contains(2));
}

#[test]
fn empty_batch() {
    let mut set = hash_set::<char>();
    let mut ids: Vec<usize> = Vec::new();
    let mut data: Vec<char> = Vec::new();
    assert_eq!(set.insert_batch(&mut ids, &mut data), Ok(()));
    assert!(set.is_empty());
}

#[test]
fn get_mut_and_data_mut() {
    let mut set = vec_set::<u32>();
    set.insert(3, 30);
    set.insert(1, 10);
    if let Some(v) = set.get_mut(1) {
        *v += 5;
    }
    assert_eq!(set.get(1), Some(&15));
    assert!(set.get_mut(2).is_none());
    for v in set.data_mut() {
        *v *= 2;
    }
    assert_eq!(set.data(), &[60, 30]);
    assert_eq!(set.ids(), &[3, 1]);
}

#[test]
fn clear_empties_the_set() {
    let mut set = vec_set::<char>();
    set.insert(3, 'a');
    set.insert(70, 'b');
    set.clear();
    assert!(set.is_empty());
    assert!(!set.contains(70));
    assert_eq!(set.get(3), None);
    assert_eq!(set.insert(70, 'c'), None);
    assert_eq!(set.get_index(70), Some(0));
}

#[test]
fn with_storage_starts_empty() {
    let mut set: SparseSet<usize, char, VecStorage<usize>> = SparseSet::with_storage(VecWrapper::new());
    assert!(set.is_empty());
    set.insert(2, 'x');
    assert_eq!(set.ids(), &[2]);
    let mut hashed: SparseSet<usize, char, HashMap<usize, usize>> = SparseSet::with_storage(HashMap::new());
    hashed.insert(2, 'y');
    assert_eq!(hashed.get(2), Some(&'y'));
}

#[test]
fn group_scenario() {
    let mut a = vec_set::<char>();
    for (id, c) in [(3, 'a'), (4, 'b'), (7, 'c'), (1, 'd'), (2, 'e')] {
        a.insert(id, c);
    }
    let mut b = vec_set::<u32>();
    for (id, v) in [(2, 1), (1, 3), (3, 5), (5, 7)] {
        b.insert(id, v);
    }
    assert_eq!(make_group_in(&mut a, &mut b, 1), Ok(3));
    assert_eq!(a.ids(), &[7, 2, 1, 3, 4]);
    assert_eq!(b.ids(), &[2, 1, 3, 5]);
    assert_eq!(a.get(3), Some(&'a'));
    assert_eq!(a.get(7), Some(&'c'));
    assert_eq!(b.get(5), Some(&7));
    assert_eq!(b.get(1), Some(&3));
}

#[test]
fn group_first_set_drives_with_offset() {
    let mut a = hash_set::<char>();
    for (id, c) in [(1, 'a'), (2, 'b'), (3, 'c')] {
        a.insert(id, c);
    }
    let mut b = vec_set::<char>();
    for (id, c) in [(9, 'x'), (3, 'y'), (8, 'z'), (1, 'w')] {
        b.insert(id, c);
    }
    assert_eq!(make_group_in(&mut a, &mut b, 1), Ok(2));
    let mut region_a: Vec<usize> = a.ids()[1..3].to_vec();
    let mut prefix_b: Vec<usize> = b.ids()[0..2].to_vec();
    assert_eq!(region_a, prefix_b);
    region_a.sort();
    prefix_b.sort();
    assert_eq!(region_a, vec![1, 3]);
    assert_eq!(a.get(2), Some(&'b'));
    assert_eq!(b.get(8), Some(&'z'));
}

#[test]
fn group_no_overlap() {
    let mut a = vec_set::<char>();
    let mut b = vec_set::<char>();
    a.insert(1, 'a');
    a.insert(2, 'b');
    b.insert(3, 'c');
    assert_eq!(make_group_in(&mut a, &mut b, 2), Ok(0));
    assert_eq!(a.ids(), &[1, 2]);
    assert_eq!(b.ids(), &[3]);
}

#[test]
fn group_offset_too_large() {
    let mut a = vec_set::<char>();
    let mut b = vec_set::<char>();
    for (id, c) in [(1, 'a'), (2, 'b'), (3, 'c')] {
        a.insert(id, c);
    }
    b.insert(3, 'x');
    b.insert(1, 'y');
    assert_eq!(make_group_in(&mut a, &mut b, 2), Err(SparseSetError::BoundsError));
    assert_eq!(a.ids(), &[1, 2, 3]);
    assert_eq!(b.ids(), &[3, 1]);
    assert_eq!(make_group_in(&mut a, &mut b, 7), Err(SparseSetError::BoundsError));
    assert_eq!(make_group_in(&mut a, &mut b, 1), Ok(2));
    assert_eq!(b.ids(), &[3, 1]);
    assert_eq!(a.ids(), &[2, 3, 1]);
}

#[test]
fn swap_by_index_unchecked_in_range() {
    let mut set = vec_set::<char>();
    for (id, c) in [(5, 'a'), (3, 'b'), (6, 'c')] {
        set.insert(id, c);
    }
    set.swap_by_index_unchecked(0, 2);
    assert_eq!(set.ids(), &[6, 3, 5]);
    assert_eq!(set.data(), &['c', 'b', 'a']);
    assert_eq!(set.get_index(5), Some(2));
}

#[test]
fn u32_ids_in_array_storage() {
    let mut set: SparseSet<u32, char, VecStorage<u32>> = SparseSet::default();
    assert_eq!(set.insert(40, 'a'), None);
    assert_eq!(set.insert(2, 'b'), None);
    assert_eq!(set.get(40), Some(&'a'));
    assert_eq!(set.get(41), None);
    assert_eq!(set.get(1_000_000), None);
    assert_eq!(set.remove(40), Some('a'));
    assert_eq!(set.ids(), &[2]);
}
