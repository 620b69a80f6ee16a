use managed_state::key::{
    bounds_in_order, bounds_of_prefix, compare_keys, next_key, Bound, KeyOrder, Keyspace,
};

#[test]
fn keys_are_ordered_byte_by_byte() {
    assert_eq!(compare_keys(b"", b""), KeyOrder::Equal);
    assert_eq!(compare_keys(b"", b"\x00"), KeyOrder::Less);
    assert_eq!(compare_keys(b"a", b"ab"), KeyOrder::Less);
    assert_eq!(compare_keys(b"b", b"ab"), KeyOrder::Greater);
    assert_eq!(compare_keys(b"ab\xff", b"ab\x01"), KeyOrder::Greater);
    assert_eq!(compare_keys(b"same", b"same"), KeyOrder::Equal);
}

#[test]
fn next_key_grows_the_last_byte_that_can() {
    assert_eq!(next_key(b"123"), Some(b"124".to_vec()));
    assert_eq!(next_key(b"12\xff"), Some(b"13".to_vec()));
    assert_eq!(next_key(b"\xff\xfe"), Some(b"\xff\xff".to_vec()));
    assert_eq!(next_key(b"1\xff\xff"), Some(b"2".to_vec()));
}

#[test]
fn next_key_of_all_ones_does_not_exist() {
    assert_eq!(next_key(b"\xff\xff"), None);
    assert_eq!(next_key(b""), None);
}

#[test]
fn bounds_of_a_prefix() {
    assert_eq!(
        bounds_of_prefix(b"ab".to_vec()),
        (Bound::Included(b"ab".to_vec()), Bound::Excluded(b"ac".to_vec()))
    );
    assert_eq!(
        bounds_of_prefix(b"\xff".to_vec()),
        (Bound::Included(b"\xff".to_vec()), Bound::Unbounded)
    );
    assert_eq!(
        bounds_of_prefix(Vec::new()),
        (Bound::Included(Vec::new()), Bound::Unbounded)
    );
}

#[test]
fn bounds_that_are_not_in_order() {
    let key = |k: &[u8]| k.to_vec();
    assert!(bounds_in_order(&Bound::Included(key(b"a")), &Bound::Included(key(b"a"))));
    assert!(bounds_in_order(&Bound::Included(key(b"a")), &Bound::Excluded(key(b"a"))));
    assert!(bounds_in_order(&Bound::Excluded(key(b"a")), &Bound::Included(key(b"a"))));
    assert!(!bounds_in_order(&Bound::Excluded(key(b"a")), &Bound::Excluded(key(b"a"))));
    assert!(!bounds_in_order(&Bound::Included(key(b"b")), &Bound::Included(key(b"a"))));
    assert!(bounds_in_order(&Bound::Unbounded, &Bound::Excluded(key(b""))));
}

#[test]
fn keyspace_puts_its_prefix_before_a_key() {
    let keyspace = Keyspace::new((), vec![7, 8]);
    assert_eq!(keyspace.key(), &vec![7, 8]);
    assert_eq!(keyspace.prefixed_key(&vec![1, 2]), vec![7, 8, 1, 2]);
    assert_eq!(keyspace.prefixed_key(&Vec::new()), vec![7, 8]);
    assert_eq!(keyspace.clone().key(), &vec![7, 8]);
}
