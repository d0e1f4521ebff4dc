use std::collections::hash_map::DefaultHasher;
use std::hash::Hash;
use std::hash::Hasher;

use petitset::CapacityError;
use petitset::PetitSet;
use petitset::SuccesfulSetInsertion;

fn calculate_hash<T: Hash>(t: &T) -> u64 {
    let mut s = DefaultHasher::new();
    t.hash(&mut s);
    s.finish()
}

#[test]
fn reject_duplicates() {
    let mut set: PetitSet<u8, 4> = PetitSet::default();
    assert!(set.is_empty());

    set.insert(1);
    assert!(set.len() == 1);

    set.insert(1);
    assert!(set.len() == 1);

    let result = set.insert(1);
    assert_eq!(result, SuccesfulSetInsertion::ExtantElement(0));
    assert!(set.len() == 1);

    set.insert_at(1, 0);
    assert!(set.len() == 1);

    set.insert_at(1, 1);
    assert!(set.len() == 1);
}

#[test]
fn reject_overfull() {
    let mut set: PetitSet<u8, 2> = PetitSet::default();

    set.extend(vec![1, 2]);
    assert!(set.len() == set.capacity());

    // Duplicates do not overflow
    let duplicate_result = set.try_insert(2);
    assert_eq!(duplicate_result, Ok(SuccesfulSetInsertion::ExtantElement(1)));
    assert!(set.len() == set.capacity());

    // Non-duplicates fail to insert
    let overfull_result = set.try_insert(3);
    assert_eq!(overfull_result, Err(CapacityError(3)));
    assert!(set.len() == set.capacity());
}

#[test]
#[should_panic]
fn set_panic_on_overfull_insertion() {
    let mut set: PetitSet<u8, 2> = PetitSet::default();

    set.extend(vec![1, 2]);
    assert!(set.len() == set.capacity());

    set.insert(3);
}

#[test]
fn in_order_iteration() {
    let mut set: PetitSet<u8, 8> = PetitSet::default();
    set.extend(vec![0, 1, 2, 3, 4, 5, 6, 7]);
    assert!(set.is_sorted());

    set.remove_at(3);
    assert!(set.is_sorted());

    set.remove(&5);
    assert!(set.is_sorted());

    set.remove_at(0);
    assert!(set.is_sorted());

    set.remove_at(7);
    assert!(set.is_sorted());

    let mut backwards_set: PetitSet<u8, 8> = PetitSet::default();
    backwards_set.extend(vec![7, 6, 5, 4, 3, 2, 1, 0]);
    assert!(!backwards_set.is_sorted());
}

#[test]
fn set_equality_ignores_order() {
    let mut set_1: PetitSet<u8, 16> = PetitSet::default();
    set_1.extend(vec![7, 8, 9, 10, 11]);

    let set_2: PetitSet<u8, 16> = PetitSet::try_from_iter(vec![11, 10, 9, 8, 7]).unwrap();
    assert_eq!(set_1, set_2);
    assert!(set_1.set_eq(&set_2));

    set_1.insert(12);
    assert!(set_1 != set_2);
    assert!(!set_1.set_eq(&set_2));
}

#[test]
fn removal_returns_items() {
    let mut set: PetitSet<u8, 8> = PetitSet::default();
    set.extend(vec![0, 1, 2, 3, 4, 5, 6, 7]);

    let index = set.remove(&3).unwrap();
    assert_eq!(index, 3);

    let value = set.take_at(5).unwrap();
    assert_eq!(value, 5);
}

#[test]
fn remove_and_insert_in_same_place() {
    let mut set: PetitSet<u8, 8> = PetitSet::default();
    set.extend(vec![0, 1, 2, 3, 4, 5, 6, 7]);
    assert!(set.is_sorted());

    set.remove(&3);
    assert!(set.is_sorted());

    set.insert(3);
    assert!(set.is_sorted());

    set.remove_at(5);
    assert!(set.get_at(5).is_none());

    set.insert_at(5, 5);
    assert!(set.is_sorted());
}

#[test]
fn hashable() {
    let mut set_1: PetitSet<u8, 8> = PetitSet::default();
    set_1.insert(42);

    let mut set_2: PetitSet<u8, 8> = PetitSet::default();
    set_2.insert(42);

    let mut set_3: PetitSet<u8, 8> = PetitSet::default();
    set_3.insert_at(42, 3);

    let mut set_4: PetitSet<u8, 8> = PetitSet::default();
    set_4.insert(43);

    assert_eq!(calculate_hash(&set_1), calculate_hash(&set_1));
    assert_eq!(calculate_hash(&set_1), calculate_hash(&set_2));
    // Hashes are sensitive to slot
    assert!(calculate_hash(&set_1) != calculate_hash(&set_3));
    // Hashes are sensitive to element value
    assert!(calculate_hash(&set_1) != calculate_hash(&set_4));
}

#[test]
fn set_try_from_iter() {
    let elems = vec![1, 2, 1, 4, 3, 1];
    let set = PetitSet::<_, 5>::try_from_iter(elems.clone());
    assert_eq!(
        set,
        Ok(PetitSet::from_raw_array_unchecked(vec![
            Some(1),
            Some(2),
            Some(4),
            Some(3),
            None,
        ]))
    );

    let failed = PetitSet::<_, 3>::try_from_iter(elems);
    assert_eq!(
        failed,
        Err(CapacityError((
            PetitSet::from_raw_array_unchecked(vec![Some(1), Some(2), Some(4)]),
            3,
        )))
    );
}

#[test]
fn set_try_extend_stops_at_capacity() {
    let mut set: PetitSet<u8, 3> = PetitSet::default();
    assert_eq!(set.try_extend(vec![1, 2, 1]), Ok(()));
    assert_eq!(set.len(), 2);

    // 3 fits, the duplicate 1 is discarded, 5 overflows; 4 is never reached.
    assert_eq!(set.try_extend(vec![3, 1, 5, 4]), Err(CapacityError(5)));
    assert_eq!(set.len(), 3);
    assert!(set.contains(&3));
    assert!(!set.contains(&5));
    assert!(!set.contains(&4));
}

#[test]
fn set_find_and_indexing() {
    let mut set: PetitSet<u8, 4> = PetitSet::default();
    set.extend(vec![9, 7, 8]);
    assert_eq!(set.find(&7), Some(1));
    assert_eq!(set.find(&5), None);
    assert!(set.contains(&8));
    assert_eq!(set.get_at(2), Some(&8));
    assert_eq!(set.next_empty_index(0), Some(3));
    assert_eq!(set.next_filled_index(2), Some(2));

    let taken = set.take(&9);
    assert_eq!(taken, Some((0, 9)));
    assert_eq!(set.next_filled_index(0), Some(1));
    set.clear();
    assert!(set.is_empty());
}

#[test]
fn zero_capacity_set_rejects_everything() {
    let mut set: PetitSet<u8, 0> = PetitSet::default();
    assert!(set.is_empty());
    assert_eq!(set.capacity(), 0);
    assert_eq!(set.try_insert(1), Err(CapacityError(1)));
    assert_eq!(set.find(&1), None);
}

#[test]
fn set_draining_iterator() {
    let mut set: PetitSet<u8, 4> = PetitSet::default();
    set.extend(vec![4, 5, 6]);
    set.remove(&5);

    let mut iter = set.into_iter();
    assert_eq!(iter.next(), Some(4));
    assert_eq!(iter.next(), Some(6));
    assert_eq!(iter.next(), None);

    let drained = iter.into_set();
    assert!(drained.is_empty());
}

#[test]
fn set_iter_references_elements() {
    let mut set: PetitSet<u8, 4> = PetitSet::default();
    set.extend(vec![4, 5, 6]);
    set.remove(&5);
    let elements = set.iter();
    assert_eq!(elements, vec![&4, &6]);
}

#[test]
fn set_get_at_mut_rewrites_slot() {
    let mut set: PetitSet<u8, 4> = PetitSet::default();
    set.extend(vec![4, 5]);
    if let Some(element) = set.get_at_mut(1) {
        *element = 9;
    }
    assert_eq!(set.get_at(1), Some(&9));
    assert!(set.get_at_mut(2).is_none());
}
