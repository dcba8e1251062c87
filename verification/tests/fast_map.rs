use tnaps::{EntityMap, FastEntityMap, VecEntityMap};

#[test]
fn fast_map_small() {
    let map = FastEntityMap::from_iter(vec![10u64, 20, 30]);
    assert!(!map.is_empty());
    assert_eq!(map.len(), 3);
    assert_eq!(map.get(0), 10);
    assert_eq!(map.get(2), 30);
    assert_eq!(map.offset_of(5), 0);
    assert_eq!(map.offset_of(10), 0);
    assert_eq!(map.offset_of(15), 1);
    assert_eq!(map.offset_of(30), 2);
    assert_eq!(map.offset_of(31), 3);
    assert_eq!(map.exact_offset_of(20), Some(1));
    assert_eq!(map.exact_offset_of(25), None);
    assert_eq!(map.lower_bound(15), Some(20));
    assert_eq!(map.lower_bound(31), None);
}

#[test]
fn fast_map_empty() {
    let map = FastEntityMap::from_iter(Vec::<u64>::new());
    assert!(map.is_empty());
    assert_eq!(map.len(), 0);
    assert_eq!(map.offset_of(5), 0);
    assert_eq!(map.lower_bound(5), None);
    let mut it = map.iter();
    assert_eq!(it.next(), None);
}

#[test]
fn fast_map_multi_layer() {
    // 31 * 31 + 1 entities: a full two-level fan plus one, so the tree has
    // internal nodes above the leaves and probes cross node boundaries
    let entities: Vec<u64> = (1..=(31 * 31 + 1) as u64).collect();
    let map = FastEntityMap::from_iter(entities.clone());
    assert_eq!(map.len(), entities.len());
    // lower_bound of the sentinel is the first entity
    assert_eq!(map.lower_bound(0), Some(1));
    // beyond the maximum is absent
    let max = entities[entities.len() - 1];
    assert_eq!(map.lower_bound(max + 1), None);
    for probe in [1u64, 30, 31, 32, 62, 500, 960, 961, 962] {
        assert_eq!(map.offset_of(probe), (probe - 1) as usize);
        assert_eq!(map.exact_offset_of(probe), Some((probe - 1) as usize));
        assert_eq!(map.lower_bound(probe), Some(probe));
    }
    assert_eq!(map.to_vec(), entities);
    // 962 entities pack into 31 full leaves plus one partial leaf, covered
    // by a single internal root node
    assert_eq!(map.num_nodes(), 33);
}

#[test]
fn fast_map_layer_shapes() {
    // one leaf, no internal layer
    let map = FastEntityMap::from_iter((1..=31u64).collect::<Vec<u64>>());
    assert_eq!(map.num_nodes(), 1);
    // two leaves under one root
    let map = FastEntityMap::from_iter((1..=32u64).collect::<Vec<u64>>());
    assert_eq!(map.num_nodes(), 3);
}

#[test]
fn fast_map_agrees_with_vec_map() {
    let entities: Vec<u64> = (1..200u64).map(|x| x * 7 + 3).collect();
    let fast = FastEntityMap::from_iter(entities.clone());
    let vec = VecEntityMap::from_iter(entities.clone());
    for probe in 0..1500u64 {
        assert_eq!(fast.offset_of(probe), vec.offset_of(probe));
        assert_eq!(fast.lower_bound(probe), vec.lower_bound(probe));
        assert_eq!(fast.exact_offset_of(probe), vec.exact_offset_of(probe));
    }
}

#[test]
fn fast_map_iterators() {
    let entities: Vec<u64> = (1..=100u64).collect();
    let map = FastEntityMap::from_iter(entities.clone());
    let mut it = map.iter();
    let mut seen: Vec<u64> = Vec::new();
    while let Some(e) = it.next() {
        seen.push(e);
    }
    assert_eq!(seen, entities);
    let mut it = map.into_iter();
    let mut seen: Vec<u64> = Vec::new();
    while let Some(e) = it.next() {
        seen.push(e);
    }
    assert_eq!(seen, entities);
}
