use petitset::PetitMap;
use petitset::PetitSet;

// Serializing a container means handing out its raw slot sequence, gaps
// included; deserializing the same sequence rebuilds the container slot for
// slot.
#[test]
fn map_slots_round_trip() {
    let mut map: PetitMap<u32, String, 5> = PetitMap::new();
    map.insert(1, "one".to_string());
    map.insert(5, "five".to_string());
    map.insert(3, "three".to_string());
    map.insert(2, "two".to_string());
    map.insert(4, "four".to_string());
    map.remove(&3);

    let original = map.clone();
    let slots = map.into_slots();
    assert_eq!(slots.len(), 5);
    assert_eq!(slots[2], None);

    let rebuilt: PetitMap<u32, String, 5> = PetitMap::from_slots(slots);
    assert!(original.identical(rebuilt));
}

#[test]
fn set_slots_round_trip() {
    let mut set: PetitSet<u32, 5> = PetitSet::new();
    set.extend(vec![5, 4, 1, 3, 2]);
    set.remove(&3);

    let original = set.clone();
    let slots = set.into_slots();
    assert_eq!(slots, vec![Some(5), Some(4), Some(1), None, Some(2)]);

    let rebuilt: PetitSet<u32, 5> = PetitSet::from_slots(slots);
    assert_eq!(rebuilt.into_slots(), original.into_slots());
}

#[test]
fn from_slots_pads_short_input() {
    let rebuilt: PetitMap<u32, u32, 4> = PetitMap::from_slots(vec![Some((7, 70)), None]);
    assert_eq!(rebuilt.get(&7), Some(&70));
    assert!(rebuilt.get_at(1).is_none());
    assert!(rebuilt.get_at(2).is_none());
    assert!(rebuilt.get_at(3).is_none());
    assert_eq!(rebuilt.len(), 1);
}

#[test]
fn from_slots_truncates_long_input() {
    let rebuilt: PetitSet<u32, 2> =
        PetitSet::from_slots(vec![Some(1), None, Some(2), Some(3)]);
    assert_eq!(rebuilt.into_slots(), vec![Some(1), None]);
}
