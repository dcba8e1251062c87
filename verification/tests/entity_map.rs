use tnaps::{encode, Entity, EntityMap, VecEntityMap};

#[test]
fn vec_map_offsets() {
    let map = VecEntityMap::from_iter(vec![10u64, 20, 30]);
    assert_eq!(map.offset_of(5), 0);
    assert_eq!(map.offset_of(10), 0);
    assert_eq!(map.offset_of(15), 1);
    assert_eq!(map.offset_of(30), 2);
    assert_eq!(map.offset_of(31), 3);
    assert_eq!(map.exact_offset_of(20), Some(1));
    assert_eq!(map.exact_offset_of(25), None);
}

#[test]
fn vec_map_order() {
    let entities = vec![3u64, 7, 9, 100];
    let map = VecEntityMap::from_iter(entities.clone());
    assert!(!map.is_empty());
    assert_eq!(map.len(), entities.len());
    for (idx, e) in entities.iter().enumerate() {
        assert_eq!(map.get(idx), *e);
        assert_eq!(map.offset_of(*e), idx);
        assert_eq!(map.lower_bound(*e), Some(*e));
    }
    assert_eq!(map.to_vec(), entities);
}

#[test]
fn vec_map_search_gaps() {
    let entities = vec![10u64, 11, 20];
    let map = VecEntityMap::from_iter(entities);
    // predecessor gap greater than one: probing just below lands on the entity
    assert_eq!(map.offset_of(19), 2);
    assert_eq!(map.lower_bound(19), Some(20));
    // lower_bound is absent exactly beyond the maximum
    assert_eq!(map.lower_bound(20), Some(20));
    assert_eq!(map.lower_bound(21), None);
}

#[test]
fn vec_map_empty() {
    let map = VecEntityMap::from_iter(Vec::<u64>::new());
    assert!(map.is_empty());
    assert_eq!(map.len(), 0);
    assert_eq!(map.offset_of(5), 0);
    assert_eq!(map.exact_offset_of(5), None);
    assert_eq!(map.lower_bound(5), None);
}

#[test]
fn entity_increment_decrement() {
    assert_eq!(5u64.increment(), 6);
    assert_eq!(5u64.decrement(), 4);
    assert_eq!(u64::MAX.increment(), 0);
    assert_eq!(0u64.decrement(), u64::MAX);
    assert_eq!(<u32 as Entity>::max_value(), u32::MAX);
    assert_eq!(<u64 as Entity>::default_value(), 0);
    assert_eq!(5u128.increment(), 6);
}

#[test]
fn entity_display_matches_encode() {
    let x: u32 = 0x01020304;
    assert_eq!(x.display(), encode(&x.to_le_bytes()));
    let y: u64 = 123456789;
    assert_eq!(y.display(), encode(&y.to_le_bytes()));
    let z: u128 = 42;
    assert_eq!(z.display(), encode(&z.to_le_bytes()));
}

#[test]
fn encode_groups() {
    assert_eq!(encode(&[]), "");
    assert_eq!(encode(&[0, 0, 0]), "AAAA");
    // 'A' = 0: one byte yields two characters
    assert_eq!(encode(&[0]), "AA");
    assert_eq!(encode(&[0, 0]), "AAA");
    // 0xFF 0xFF 0xFF -> all-ones 6-bit groups, index 63 -> the space slot
    assert_eq!(encode(&[0xff, 0xff, 0xff]), "    ");
    // bytes [4, 1, 5] -> 6-bit groups [1, 0, 4, 5] -> "BAEF"
    assert_eq!(encode(&[4, 1, 5]), "BAEF");
}
