use tnaps::system::{
    run, run2, run2_partitioned, run_mut, run_subset, NopSystem, SaturatingAddSystem,
    UnbindSystem,
};
use tnaps::{
    partition, ComponentChange, ComponentCollection, CopyOnWriteComponentCollection,
    MutableComponentCollection, Partitioned, VecPartitioningScheme,
};

#[test]
fn mut_system_updates_in_place() {
    // the system adds 10 to each present component; the collection is changed
    // in place and the returned change vector is empty
    let mut c = MutableComponentCollection::from_pairs(vec![(1u64, 1u64), (2, 2)]);
    let sys = SaturatingAddSystem { delta: 10 };
    let changes = run_mut(&sys, &mut c);
    assert!(changes.is_empty());
    assert_eq!(c.consume(), vec![(1u64, 11u64), (2, 12)]);
}

#[test]
fn serial_run_visits_intersection_once() {
    // A = {1, 3, 5}, B = {2, 3, 4}: the intersection is exactly {3}
    let a = CopyOnWriteComponentCollection::from_pairs(vec![(1u64, 10u64), (3, 30), (5, 50)]);
    let b = CopyOnWriteComponentCollection::from_pairs(vec![(2u64, 2u64), (3, 3), (4, 4)]);
    let (ca, cb) = run2(&NopSystem, &a, &b);
    assert!(ca.is_empty());
    assert!(cb.is_empty());
    let (ca, cb) = run2(&UnbindSystem, &a, &b);
    assert_eq!(ca, vec![(3u64, ComponentChange::<u64>::Unbind)]);
    assert_eq!(cb, vec![(3u64, ComponentChange::<u64>::Unbind)]);
}

#[test]
fn serial_run_single_collection() {
    let c = CopyOnWriteComponentCollection::from_pairs(vec![(7u64, 70u64), (9, 90)]);
    let changes = run(&UnbindSystem, &c);
    assert_eq!(
        changes,
        vec![
            (7u64, ComponentChange::<u64>::Unbind),
            (9u64, ComponentChange::<u64>::Unbind),
        ]
    );
    let mut c = c;
    c.apply(changes);
    assert!(c.is_empty());
}

#[test]
fn parallel_equals_serial() {
    // the concatenated per-partition change vectors equal the serial run
    let pairs_a = vec![(10u64, 1u64), (150, 2), (250, 3), (260, 4)];
    let pairs_b = vec![(10u64, 9u64), (150, 8), (255, 7), (260, 6)];
    let a = CopyOnWriteComponentCollection::from_pairs(pairs_a.clone());
    let b = CopyOnWriteComponentCollection::from_pairs(pairs_b.clone());
    let (serial_a, serial_b) = run2(&UnbindSystem, &a, &b);

    let scheme = VecPartitioningScheme::from(vec![100u64, 200]);
    let slots_a = partition(a, &scheme);
    let pa = Partitioned::from(scheme, slots_a);
    let scheme = VecPartitioningScheme::from(vec![100u64, 200]);
    let slots_b = partition(b, &scheme);
    let pb = Partitioned::from(scheme, slots_b);
    let (slots_a, slots_b) = run2_partitioned(&UnbindSystem, &pa, &pb);
    assert_eq!(slots_a.len(), 3);
    assert_eq!(slots_b.len(), 3);
    let flat_a: Vec<(u64, ComponentChange<u64>)> = slots_a.into_iter().flatten().collect();
    let flat_b: Vec<(u64, ComponentChange<u64>)> = slots_b.into_iter().flatten().collect();
    assert_eq!(flat_a, serial_a);
    assert_eq!(flat_b, serial_b);
}

#[test]
fn run_subset_skips_and_sorts() {
    let c = CopyOnWriteComponentCollection::from_pairs(vec![(1u64, 1u64), (5, 5), (9, 9)]);
    // entities given out of order, some absent: results come back sorted
    let subset = vec![9u64, 2, 1];
    let changes = run_subset(&UnbindSystem, &subset, &c);
    assert_eq!(
        changes,
        vec![
            (1u64, ComponentChange::<u64>::Unbind),
            (9u64, ComponentChange::<u64>::Unbind),
        ]
    );
    let changes = run_subset(&NopSystem, &subset, &c);
    assert!(changes.is_empty());
}

#[test]
fn apply_then_apply_matches_merged() {
    // applying two sorted change vectors in turn equals applying their
    // one-pass merge, the second winning on equal entities
    let pairs = vec![(1u64, 1u64), (2, 2), (3, 3)];
    let first = vec![
        (2u64, ComponentChange::Value(20u64)),
        (4, ComponentChange::Value(40)),
    ];
    let second = vec![
        (2u64, ComponentChange::<u64>::Unbind),
        (4, ComponentChange::Value(41)),
    ];
    let merged = vec![
        (2u64, ComponentChange::<u64>::Unbind),
        (4, ComponentChange::Value(41)),
    ];
    let mut one = CopyOnWriteComponentCollection::from_pairs(pairs.clone());
    one.apply(first);
    one.apply(second);
    let mut two = CopyOnWriteComponentCollection::from_pairs(pairs);
    two.apply(merged);
    assert_eq!(one.consume(), two.consume());
}

#[test]
fn run_then_apply_round_trip() {
    let c = CopyOnWriteComponentCollection::from_pairs(vec![(1u64, 1u64), (2, 2), (3, 3)]);
    let changes = run(&NopSystem, &c);
    assert!(changes.is_empty());
    let mut c = c;
    c.apply(changes);
    assert_eq!(c.consume(), vec![(1u64, 1u64), (2, 2), (3, 3)]);
}
