use tnaps::{
    apply_component_changes, ComponentChange, ComponentCollection, ComponentRef,
    CopyOnWriteComponentCollection, InsertOptimizedComponentCollection,
    MutableComponentCollection,
};

fn strings(pairs: &[(u64, &str)]) -> Vec<(u64, String)> {
    pairs.iter().map(|(e, s)| (*e, s.to_string())).collect()
}

#[test]
fn default_collections_are_empty() {
    let c: CopyOnWriteComponentCollection<u64, u64> = Default::default();
    assert!(c.is_empty());
    let c: MutableComponentCollection<u64, u64> = Default::default();
    assert_eq!(c.len(), 0);
    let c: InsertOptimizedComponentCollection<u64, u64> = Default::default();
    assert!(c.is_empty());
}

#[test]
fn cow_round_trip() {
    let pairs = strings(&[(1, "a"), (2, "b"), (3, "c")]);
    let c = CopyOnWriteComponentCollection::from_pairs(pairs.clone());
    assert!(!c.is_empty());
    assert_eq!(c.len(), 3);
    assert_eq!(c.consume(), pairs);
}

#[test]
fn cow_lookups() {
    let pairs = strings(&[(10, "x"), (20, "y")]);
    let c = CopyOnWriteComponentCollection::from_pairs(pairs);
    assert_eq!(c.lower_bound(5), Some(10));
    assert_eq!(c.lower_bound(10), Some(10));
    assert_eq!(c.lower_bound(11), Some(20));
    assert_eq!(c.lower_bound(21), None);
    let r = c.get_ref(20).unwrap();
    assert_eq!(r.read(), "y");
    assert!(c.get_ref(15).is_none());
}

#[test]
fn cow_ref_changes() {
    let pairs = strings(&[(1, "a")]);
    let c = CopyOnWriteComponentCollection::from_pairs(pairs);
    let r = c.get_ref(1).unwrap();
    assert_eq!(r.change(), ComponentChange::NoChange);
    let mut r = c.get_ref(1).unwrap();
    r.update("b".to_string());
    assert_eq!(r.read(), "b");
    assert_eq!(r.change(), ComponentChange::Value("b".to_string()));
    let mut r = c.get_ref(1).unwrap();
    r.update("b".to_string());
    r.unbind();
    assert_eq!(r.change(), ComponentChange::<String>::Unbind);
}

#[test]
fn cow_apply_merge() {
    // the change-merge scenario: unbind one, replace one, insert one
    let mut c = CopyOnWriteComponentCollection::from_pairs(strings(&[
        (1, "a"),
        (2, "b"),
        (3, "c"),
    ]));
    c.apply(vec![
        (2, ComponentChange::Unbind),
        (3, ComponentChange::Value("C".to_string())),
        (4, ComponentChange::Value("D".to_string())),
    ]);
    assert_eq!(c.consume(), strings(&[(1, "a"), (3, "C"), (4, "D")]));
}

#[test]
fn cow_apply_identity() {
    let pairs = strings(&[(1, "a"), (2, "b")]);
    let mut c = CopyOnWriteComponentCollection::from_pairs(pairs.clone());
    c.apply(Vec::new());
    assert_eq!(c.len(), 2);
    let mut c2 = CopyOnWriteComponentCollection::from_pairs(pairs.clone());
    c2.apply(vec![(1, ComponentChange::NoChange), (2, ComponentChange::NoChange)]);
    assert_eq!(c2.consume(), pairs);
    // an unbind of an absent entity is a no-op
    let mut c3 = CopyOnWriteComponentCollection::from_pairs(pairs.clone());
    c3.apply(vec![(7, ComponentChange::<String>::Unbind)]);
    assert_eq!(c3.consume(), pairs);
}

#[test]
fn generic_merge_matches_method() {
    let pairs = vec![(1u64, 10u64), (5, 50)];
    let changes = vec![(1, ComponentChange::Value(11)), (5, ComponentChange::Unbind)];
    let c = MutableComponentCollection::from_pairs(pairs);
    let applied = apply_component_changes(c, changes);
    assert_eq!(applied.consume(), vec![(1u64, 11u64)]);
}

#[test]
fn mutable_round_trip() {
    let pairs = vec![(1u64, 1u64), (2, 2)];
    let c = MutableComponentCollection::from_pairs(pairs.clone());
    assert_eq!(c.len(), 2);
    assert_eq!(c.lower_bound(2), Some(2));
    assert_eq!(c.consume(), pairs);
}

#[test]
fn from_changes_keeps_values() {
    let changes = vec![
        (1u64, ComponentChange::Value(7u64)),
        (2, ComponentChange::Unbind),
        (3, ComponentChange::NoChange),
        (4, ComponentChange::Value(9)),
    ];
    let c = CopyOnWriteComponentCollection::from_changes(changes);
    assert_eq!(c.consume(), vec![(1u64, 7u64), (4, 9)]);
}

#[test]
fn insert_collection_inserts() {
    let mut c = InsertOptimizedComponentCollection::from_pairs(vec![(2u64, 20u64), (4, 40)]);
    // new entity between the others
    assert_eq!(c.insert(3, 30), None);
    // replacing returns the previous component
    assert_eq!(c.insert(2, 21), Some(20));
    assert_eq!(c.len(), 3);
    assert_eq!(c.lower_bound(1), Some(2));
    assert_eq!(c.consume(), vec![(2u64, 21u64), (3, 30), (4, 40)]);
}

#[test]
fn insert_collection_apply_short_path() {
    let mut c = InsertOptimizedComponentCollection::from_pairs(vec![
        (1u64, 10u64),
        (2, 20),
        (3, 30),
    ]);
    c.apply(vec![
        (1, ComponentChange::Value(11)),
        (2, ComponentChange::Unbind),
        (5, ComponentChange::Value(50)),
        (6, ComponentChange::Unbind),
    ]);
    assert_eq!(c.consume(), vec![(1u64, 11u64), (3, 30), (5, 50)]);
}

#[test]
fn insert_collection_free_list_reuse() {
    let mut c = InsertOptimizedComponentCollection::from_pairs(vec![(1u64, 1u64), (2, 2)]);
    c.apply(vec![(1, ComponentChange::Unbind)]);
    assert_eq!(c.len(), 1);
    assert_eq!(c.insert(9, 9), None);
    assert_eq!(c.consume(), vec![(2u64, 2u64), (9, 9)]);
}
