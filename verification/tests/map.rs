use petitset::CapacityError;
use petitset::PetitMap;
use petitset::SuccesfulMapInsertion;

#[test]
fn lookup() {
    let mut map: PetitMap<i32, i32, 4> = PetitMap::default();
    // Index 0
    map.insert(1, 11);
    // Index 1
    map.insert(3, 31);
    // Index 2
    map.insert(4, 41);
    // Index 3
    map.insert(2, 21);

    assert_eq!(*map.get(&1).unwrap(), 11);
    assert_eq!(*map.get_mut(&3).unwrap(), 31);
    assert_eq!(map.get_at(2).unwrap(), (&4, &41));
    assert_eq!(map.get_at_mut(3).unwrap(), (&mut 2, &mut 21));
}

#[test]
fn removal() {
    let mut map: PetitMap<i32, i32, 4> = PetitMap::default();
    // Index 0
    map.insert(1, 11);
    // Index 1
    map.insert(3, 31);
    // Index 2
    map.insert(4, 41);
    // Index 3
    map.insert(2, 21);

    // Overwriting insertion
    map.insert(3, 33);

    let removed = map.take(&3);
    assert_eq!(removed, Some((1, (3, 33))));
    assert_eq!(map.find(&3), None);

    let removed_at = map.take_at(0);
    assert_eq!(removed_at, Some((1, 11)));
    assert_eq!(map.find(&1), None);

    let failed_remove = map.remove_at(0);
    assert_eq!(failed_remove, false);
}

#[test]
#[should_panic]
fn map_panic_on_overfull_insertion() {
    let mut map: PetitMap<i32, i32, 2> = PetitMap::default();
    map.insert(1, 1);
    map.insert(2, 2);
    map.insert(3, 3);
}

#[test]
fn map_equality_ignores_order() {
    let mut map_1: PetitMap<i32, i32, 2> = PetitMap::default();
    map_1.insert(1, 1);
    map_1.insert(2, 2);

    let mut map_2: PetitMap<i32, i32, 2> = PetitMap::default();
    map_2.insert(2, 2);
    map_2.insert(1, 1);

    assert_eq!(map_1, map_2);
}

#[test]
fn map_equality_is_capacity_independent() {
    let mut map_1: PetitMap<i32, i32, 2> = PetitMap::default();
    map_1.insert(1, 1);
    map_1.insert(2, 2);

    let mut map_2: PetitMap<i32, i32, 5> = PetitMap::default();
    map_2.insert(2, 2);
    map_2.insert(1, 1);

    assert!(map_1 == map_2);
    assert!(map_1.content_eq(&map_2));
    map_2.insert(2, 7);
    assert!(map_1 != map_2);
    assert!(!map_1.content_eq(&map_2));
}

#[test]
fn map_try_from_iter() {
    let elems = vec![(1, 11), (2, 21), (1, 12), (4, 41), (3, 31), (1, 13)];
    let map = PetitMap::<_, _, 5>::try_from_iter(elems.clone());
    assert_eq!(
        map,
        Ok(PetitMap::from_raw_array_unchecked(vec![
            Some((1, 13)),
            Some((2, 21)),
            Some((4, 41)),
            Some((3, 31)),
            None,
        ]))
    );

    let failed = PetitMap::<_, _, 3>::try_from_iter(elems);
    assert_eq!(
        failed,
        Err(CapacityError((
            PetitMap::from_raw_array_unchecked(vec![Some((1, 12)), Some((2, 21)), Some((4, 41))]),
            (3, 31),
        )))
    );
}

// Capacity-5 map: inserting five entries and removing the middle key leaves
// a gap at its index and every other entry's position untouched, so the
// iteration order is preserved.
#[test]
fn map_iteration_order_after_removal() {
    let mut map: PetitMap<u32, String, 5> = PetitMap::new();
    map.insert(1, "one".to_string());
    map.insert(5, "five".to_string());
    map.insert(3, "three".to_string());
    map.insert(2, "two".to_string());
    map.insert(4, "four".to_string());

    assert_eq!(map.remove(&3), Some(2));

    assert!(map.get_at(2).is_none());
    let values = map.values();
    assert_eq!(values.len(), 4);
    assert_eq!(values[0].as_str(), "one");
    assert_eq!(values[1].as_str(), "five");
    assert_eq!(values[2].as_str(), "two");
    assert_eq!(values[3].as_str(), "four");

    let keys = map.keys();
    assert_eq!(keys, vec![&1, &5, &2, &4]);
}

#[test]
fn map_insert_reports_extant_keys() {
    let mut map: PetitMap<i32, i32, 2> = PetitMap::default();
    assert_eq!(map.insert(8, 80), SuccesfulMapInsertion::NovelKey(0));
    assert_eq!(map.insert(9, 90), SuccesfulMapInsertion::NovelKey(1));
    assert_eq!(map.insert(8, 88), SuccesfulMapInsertion::ExtantKey(80, 0));
    assert_eq!(map.try_insert(7, 70), Err(CapacityError((7, 70))));
    assert_eq!(map.len(), 2);
}

#[test]
fn map_retain_removes_matching() {
    let mut map: PetitMap<i32, i32, 6> = PetitMap::default();
    for key in 0..6 {
        map.insert(key, key * 10);
    }
    // The predicate's polarity controls removal: true means remove.
    map.retain(|key: &i32, _value: &i32| *key % 2 == 0);
    assert_eq!(map.len(), 3);
    assert!(!map.contains_key(&0));
    assert!(map.contains_key(&1));
    assert!(!map.contains_key(&2));
    assert!(map.contains_key(&3));
    assert!(map.contains_key(&5));
}

#[test]
fn map_values_mut_applies() {
    let mut map: PetitMap<i32, i32, 4> = PetitMap::default();
    map.insert(1, 10);
    map.insert(2, 20);
    map.remove(&1);
    map.insert(3, 30);
    map.values_mut(|value: &i32| *value + 1);
    assert_eq!(map.get(&2), Some(&21));
    assert_eq!(map.get(&3), Some(&31));
    assert_eq!(map.len(), 2);
}

#[test]
fn map_insert_at_evicts_and_relocates() {
    let mut map: PetitMap<i32, i32, 4> = PetitMap::default();
    map.insert(1, 11);
    map.insert(2, 21);

    // A novel key evicts whatever sits at the target index.
    let evicted = map.insert_at(9, 99, 1);
    assert_eq!(evicted, Some((2, 21)));
    assert_eq!(map.get_at(1), Some((&9, &99)));

    // An existing key is relocated to the target index, swapping slots.
    let relocated = map.insert_at(9, 0, 0);
    assert_eq!(relocated, None);
    assert_eq!(map.get_at(0), Some((&9, &99)));
    assert_eq!(map.get_at(1), Some((&1, &11)));

    // Insertion into an empty slot evicts nothing.
    assert_eq!(map.insert_at(5, 55, 3), None);
    assert_eq!(map.get_at(3), Some((&5, &55)));
}

#[test]
fn map_swap_entries() {
    let mut map: PetitMap<i32, i32, 3> = PetitMap::default();
    map.insert(1, 11);
    map.insert(2, 21);
    map.insert(3, 31);

    assert!(map.swap(&1, &3));
    assert_eq!(map.get_at(0), Some((&3, &31)));
    assert_eq!(map.get_at(2), Some((&1, &11)));

    assert!(!map.swap(&1, &7));

    map.swap_at(0, 1);
    assert_eq!(map.get_at(0), Some((&2, &21)));
    assert_eq!(map.get_at(1), Some((&3, &31)));
}

#[test]
fn map_next_indices() {
    let mut map: PetitMap<i32, i32, 4> = PetitMap::default();
    map.insert(1, 11);
    map.insert(2, 21);
    map.insert(3, 31);
    map.remove(&2);

    assert_eq!(map.next_filled_index(0), Some(0));
    assert_eq!(map.next_filled_index(1), Some(2));
    assert_eq!(map.next_empty_index(0), Some(1));
    assert_eq!(map.next_empty_index(2), Some(3));
    assert_eq!(map.next_filled_index(3), None);
    assert_eq!(map.next_filled_index(17), None);
}

#[test]
fn map_len_clear_and_extend() {
    let mut map: PetitMap<i32, i32, 4> = PetitMap::default();
    assert!(map.is_empty());
    assert_eq!(map.capacity(), 4);

    map.extend(vec![(1, 11), (2, 21), (1, 12)]);
    assert_eq!(map.len(), 2);
    assert_eq!(map.get(&1), Some(&12));
    assert!(!map.is_full());

    map.extend(vec![(3, 31), (4, 41)]);
    assert!(map.is_full());

    map.clear();
    assert!(map.is_empty());
    assert_eq!(map.get(&1), None);
}

#[test]
fn map_get_key_value() {
    let mut map: PetitMap<i32, i32, 2> = PetitMap::default();
    map.insert(6, 60);
    assert_eq!(map.get_key_value(&6), Some((&6, &60)));
    assert_eq!(map.get_key_value(&7), None);
    assert!(map.contains_key(&6));
    assert!(!map.contains_key(&7));
}

#[test]
fn map_identical_is_positional() {
    let mut map_1: PetitMap<i32, i32, 2> = PetitMap::default();
    map_1.insert(1, 1);
    map_1.insert(2, 2);

    let mut map_2: PetitMap<i32, i32, 2> = PetitMap::default();
    map_2.insert(2, 2);
    map_2.insert(1, 1);

    // Same contents, different slots: equal as maps, not identical.
    assert!(map_1 == map_2);
    assert!(!map_1.identical(map_2));

    let mut map_3: PetitMap<i32, i32, 2> = PetitMap::default();
    map_3.insert(1, 1);
    map_3.insert(2, 2);
    assert!(map_1.identical(map_3));
}

#[test]
fn map_draining_iterator() {
    let mut map: PetitMap<i32, i32, 4> = PetitMap::default();
    map.insert(1, 11);
    map.insert(2, 21);
    map.insert(3, 31);
    map.remove(&2);

    let mut iter = map.into_iter();
    assert_eq!(iter.next(), Some((1, 11)));
    assert_eq!(iter.next(), Some((3, 31)));
    assert_eq!(iter.next(), None);
    assert_eq!(iter.next(), None);

    let drained = iter.into_map();
    assert!(drained.is_empty());
}

#[test]
fn map_insert_unchecked_uses_first_gap() {
    let mut map: PetitMap<i32, i32, 3> = PetitMap::default();
    map.insert(1, 11);
    map.insert(2, 21);
    map.remove(&1);
    assert_eq!(map.insert_unchecked(7, 70), Some(0));
    assert_eq!(map.get_at(0), Some((&7, &70)));
    map.insert(8, 80);
    assert_eq!(map.insert_unchecked(9, 90), None);
}
