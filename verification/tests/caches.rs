use managed_state::evictable::{bytes_of_slots, EvictableHashMap};

#[test]
fn values_are_found_by_key() {
    let mut map = EvictableHashMap::new(2);
    assert_eq!(map.target_cap(), 2);
    map.put(vec![1], "a");
    map.put(vec![2], "b");
    map.put(vec![1], "c");
    assert_eq!(map.len(), 2);
    assert_eq!(map.get(&[1]), Some(&"c"));
    assert_eq!(map.get(&[3]), None);
    if let Some(value) = map.get_mut(&[2]) {
        *value = "d";
    }
    assert_eq!(map.get(&[2]), Some(&"d"));
    assert_eq!(map.get_mut(&[3]), None);
}

#[test]
fn what_was_used_last_stays() {
    let mut map = EvictableHashMap::new(2);
    for key in 1u8..=4 {
        map.put(vec![key], key);
    }
    assert_eq!(map.len(), 4);
    assert_eq!(map.get(&[1]), Some(&1));
    assert!(map.contains(&[2]));
    map.evict_to_target_cap();
    assert_eq!(map.len(), 2);
    assert!(map.contains(&[1]));
    assert!(map.contains(&[4]));
    assert!(!map.contains(&[2]));
    map.evict_to_target_cap();
    assert_eq!(map.len(), 2);
}

#[test]
fn slots_have_room_for_a_key_and_a_value() {
    let slot = std::mem::size_of::<(Vec<u8>, u64)>();
    assert_eq!(bytes_of_slots::<u64>(0), 0);
    assert_eq!(bytes_of_slots::<u64>(1), slot);
    assert_eq!(bytes_of_slots::<u64>(3), 3 * slot);
    // A vector takes three words of a machine.
    let word = std::mem::size_of::<usize>();
    assert_eq!(bytes_of_slots::<usize>(5), 5 * 4 * word);
    let mut map = EvictableHashMap::new(2);
    map.put(vec![1], 7u64);
    assert!(map.bytes_in_use() >= bytes_of_slots::<u64>(map.len()));
    assert_eq!(map.bytes_in_use() % bytes_of_slots::<u64>(1), 0);
}
