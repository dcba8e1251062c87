use tnaps::{
    partition, ComponentChange, ComponentCollection, ComponentRef,
    CopyOnWriteComponentCollection, MutableComponentCollection, NopPartitioningScheme,
    Partitioned, PartitioningScheme, VecPartitioningScheme,
};

#[test]
fn scheme_lower_bound() {
    let scheme = VecPartitioningScheme::from(vec![100u64, 200]);
    assert!(!PartitioningScheme::<u64>::is_empty(&scheme));
    assert_eq!(PartitioningScheme::<u64>::len(&scheme), 2);
    assert_eq!(scheme.partition(0), 100);
    assert_eq!(scheme.partition(1), 200);
    assert_eq!(scheme.lower_bound(50), 0);
    assert_eq!(scheme.lower_bound(99), 0);
    assert_eq!(scheme.lower_bound(100), 1);
    assert_eq!(scheme.lower_bound(150), 1);
    assert_eq!(scheme.lower_bound(250), 2);
}

#[test]
fn nop_scheme() {
    let scheme = NopPartitioningScheme;
    assert!(PartitioningScheme::<u64>::is_empty(&scheme));
    assert_eq!(PartitioningScheme::<u64>::len(&scheme), 0);
    assert_eq!(PartitioningScheme::<u64>::lower_bound(&scheme, 123), 0);
}

#[test]
fn partition_routes_by_range() {
    // dividers [100, 200] over entities [50, 150, 250]: three partitions
    let c = CopyOnWriteComponentCollection::from_pairs(vec![
        (50u64, 5u64),
        (150, 15),
        (250, 25),
    ]);
    let scheme = VecPartitioningScheme::from(vec![100u64, 200]);
    let parts = partition(c, &scheme);
    assert_eq!(parts.len(), 3);
    let contents: Vec<Option<Vec<(u64, u64)>>> =
        parts.into_iter().map(|p| p.map(|c| c.consume())).collect();
    assert_eq!(contents[0], Some(vec![(50, 5)]));
    assert_eq!(contents[1], Some(vec![(150, 15)]));
    assert_eq!(contents[2], Some(vec![(250, 25)]));
}

#[test]
fn partition_empty_slots_are_absent() {
    let c = CopyOnWriteComponentCollection::from_pairs(vec![(250u64, 25u64)]);
    let scheme = VecPartitioningScheme::from(vec![100u64, 200]);
    let parts = partition(c, &scheme);
    assert_eq!(parts.len(), 3);
    assert!(parts[0].is_none());
    assert!(parts[1].is_none());
    assert!(parts[2].is_some());
}

#[test]
fn partition_coverage() {
    // the union of the partitions' pairs is the original, in order
    let pairs = vec![(10u64, 1u64), (20, 2), (150, 3), (199, 4), (200, 5), (900, 6)];
    let c = MutableComponentCollection::from_pairs(pairs.clone());
    let scheme = VecPartitioningScheme::from(vec![100u64, 200]);
    let parts = partition(c, &scheme);
    let mut all: Vec<(u64, u64)> = Vec::new();
    for p in parts {
        if let Some(c) = p {
            all.extend(c.consume());
        }
    }
    assert_eq!(all, pairs);
}

#[test]
fn nop_partitioned_single_slot() {
    let c = CopyOnWriteComponentCollection::from_pairs(vec![(1u64, 1u64), (2, 2)]);
    let p = Partitioned::from_collection(c);
    assert_eq!(p.len(), 2);
    assert!(!p.is_empty());
    assert_eq!(p.lower_bound(2), Some(2));
    assert_eq!(p.consume(), vec![(1u64, 1u64), (2, 2)]);
}

#[test]
fn partitioned_lookups() {
    let c = CopyOnWriteComponentCollection::from_pairs(vec![
        (50u64, 5u64),
        (150, 15),
        (250, 25),
    ]);
    let scheme = VecPartitioningScheme::from(vec![100u64, 200]);
    let parts = partition(c, &scheme);
    let p = Partitioned::from(scheme, parts);
    assert!(!p.is_empty());
    assert_eq!(p.len(), 3);
    assert_eq!(p.lower_bound(120), Some(150));
    assert_eq!(p.lower_bound(50), Some(50));
    assert_eq!(p.lower_bound(300), None);
    let r = p.get_ref(150).unwrap();
    assert_eq!(*r.read(), 15);
    assert!(p.get_ref(120).is_none());
    assert_eq!(p.consume(), vec![(50u64, 5u64), (150, 15), (250, 25)]);
}

#[test]
fn partitioned_apply_per_slot() {
    let c = CopyOnWriteComponentCollection::from_pairs(vec![
        (50u64, 5u64),
        (150, 15),
        (250, 25),
    ]);
    let scheme = VecPartitioningScheme::from(vec![100u64, 200]);
    let parts = partition(c, &scheme);
    let mut p = Partitioned::from(scheme, parts);
    p.apply(vec![
        vec![(50, ComponentChange::Unbind)],
        vec![(150, ComponentChange::Value(16))],
        vec![(251, ComponentChange::Value(26))],
    ]);
    assert_eq!(p.len(), 3);
    assert!(p.get_partition_by_index(0).is_none());
    assert_eq!(p.consume(), vec![(150u64, 16u64), (250, 25), (251, 26)]);
}

#[test]
fn partitioned_apply_fills_absent_slot() {
    let c = CopyOnWriteComponentCollection::from_pairs(vec![(250u64, 25u64)]);
    let scheme = VecPartitioningScheme::from(vec![100u64, 200]);
    let parts = partition(c, &scheme);
    let mut p = Partitioned::from(scheme, parts);
    p.apply(vec![
        vec![(10, ComponentChange::Value(1))],
        vec![],
        vec![],
    ]);
    assert!(p.get_partition_by_index(0).is_some());
    assert!(p.get_partition_by_index(1).is_none());
    assert_eq!(p.consume(), vec![(10u64, 1u64), (250, 25)]);
}
