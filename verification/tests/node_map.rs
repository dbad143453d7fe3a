use rafty::node_id::ValidNodeId;
use rafty::node_map::NodeMap;

#[test]
fn test_node_map_basic() {
    let self_id = ValidNodeId::new(3).unwrap();
    let mut map: NodeMap<i32> = NodeMap::new(5, self_id, -1);

    // Test indexing (1-based)
    *map.get_mut(ValidNodeId::new(1).unwrap()) = 10;
    *map.get_mut(ValidNodeId::new(2).unwrap()) = 20;
    // node 3 has the sentinel
    *map.get_mut(ValidNodeId::new(4).unwrap()) = 40;
    *map.get_mut(ValidNodeId::new(5).unwrap()) = 50;

    assert_eq!(map[ValidNodeId::new(1).unwrap()], 10);
    assert_eq!(map[ValidNodeId::new(2).unwrap()], 20);
    assert_eq!(map[ValidNodeId::new(4).unwrap()], 40);
    assert_eq!(map[ValidNodeId::new(5).unwrap()], 50);
}

#[test]
fn test_node_map_sentinel() {
    let self_id = ValidNodeId::new(3).unwrap();
    let map: NodeMap<i32> = NodeMap::new(5, self_id, -1);

    // The sentinel value should be at position 3
    assert_eq!(map[ValidNodeId::new(3).unwrap()], -1);
}

#[test]
fn test_iter_others() {
    let self_id = ValidNodeId::new(3).unwrap();
    let map: NodeMap<i32> = NodeMap::new(5, self_id, -1);

    let others: Vec<_> = map.iter_others().collect();
    assert_eq!(others.len(), 4);
    assert!(others.iter().all(|(id, _)| id.get() != 3));
}

#[test]
fn test_contains_key() {
    let self_id = ValidNodeId::new(3).unwrap();
    let map: NodeMap<i32> = NodeMap::new(5, self_id, -1);

    assert!(map.contains_key(ValidNodeId::new(1).unwrap()));
    assert!(map.contains_key(ValidNodeId::new(5).unwrap()));
    assert!(!map.contains_key(ValidNodeId::new(6).unwrap()));
}

#[test]
fn node_map_insert_gives_back_the_old_value() {
    let mut map: NodeMap<i32> = NodeMap::new(3, ValidNodeId::new(1).unwrap(), 7);
    let id = ValidNodeId::new(2).unwrap();
    assert_eq!(map.insert(id, 9), 7);
    assert_eq!(*map.get(id), 9);
    assert_eq!(*map.get(ValidNodeId::new(3).unwrap()), 7);
    assert_eq!(map.len(), 3);
    assert!(!map.is_empty());
    assert_eq!(map.self_id().get(), 1);
}

#[test]
fn node_map_mutable_pairs_reach_the_map() {
    let own = ValidNodeId::new(2).unwrap();
    let mut map: NodeMap<u64> = NodeMap::from_iter(3, own, vec![1, 2, 3].into_iter());
    for (id, value) in map.iter_mut() {
        *value += 10 * id.get();
    }
    for (_, value) in map.iter_others_mut() {
        *value += 100;
    }
    let all: Vec<(u64, u64)> = map.iter().map(|(id, v)| (id.get(), *v)).collect();
    assert_eq!(all, vec![(1, 111), (2, 22), (3, 133)]);
}

#[test]
fn node_map_new_sentinel_replaces_only_the_owner() {
    let own = ValidNodeId::new(1).unwrap();
    let map = NodeMap::from_iter(3, own, vec![4, 5, 6].into_iter()).with_new_sentinel(0);
    let all: Vec<i32> = map.iter().map(|(_, v)| *v).collect();
    assert_eq!(all, vec![0, 5, 6]);
}

#[test]
fn node_map_can_be_walked_by_reference() {
    let own = ValidNodeId::new(2).unwrap();
    let mut map: NodeMap<u64> = NodeMap::from_iter(2, own, vec![7, 8].into_iter());
    for (id, value) in &mut map {
        *value *= id.get();
    }
    let mut seen: Vec<(u64, u64)> = Vec::new();
    for (id, value) in &map {
        seen.push((id.get(), *value));
    }
    assert_eq!(seen, vec![(1, 7), (2, 16)]);
    let mut iter = map.iter_others();
    assert_eq!(iter.next().map(|(id, v)| (id.get(), *v)), Some((1, 7)));
    assert!(iter.next().is_none());
    assert!(iter.next().is_none());
}

#[test]
fn an_old_sentinel_can_be_put_back() {
    let own = ValidNodeId::new(2).unwrap();
    let map = NodeMap::from_iter(3, own, vec![4, 5, 6].into_iter());
    let changed = map.with_new_sentinel(9);
    assert_eq!(*changed.get(own), 9);
    assert_eq!(changed.with_new_sentinel(5), map);
}
