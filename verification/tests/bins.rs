use chashmap::bin::BinEntry;
use chashmap::map::HashMap;
use chashmap::map::PutResult;
use chashmap::map_remove::Replaced;
use chashmap::node::Node;
use chashmap::tree_bin::TreeBin;

fn kind(map: &HashMap<u64, u64>, bin: usize) -> &'static str {
    match &map.table.bins[bin] {
        BinEntry::Empty => "empty",
        BinEntry::Node(_) => "chain",
        BinEntry::Tree(_) => "tree",
        BinEntry::Moved => "moved",
    }
}

fn check_trees(map: &HashMap<u64, u64>) {
    for bin in map.table.bins.iter() {
        if let BinEntry::Tree(tree) = bin {
            assert!(tree.check_invariants());
        }
        assert!(!matches!(bin, BinEntry::Moved));
    }
}

#[test]
fn twenty_colliding_keys_resize_or_treeify() {
    let mut map: HashMap<u64, u64> = HashMap::new();
    for i in 0..20u64 {
        let hash = 5 + 16 * 1024 * i;
        assert!(matches!(map.put(hash, i, i * 3, false), PutResult::Inserted));
        check_trees(&map);
    }
    assert!(map.table.len() >= 64);
    assert_eq!(map.len(), 20);
    for i in 0..20u64 {
        let hash = 5 + 16 * 1024 * i;
        assert_eq!(map.get_hashed(hash, &i), Some(&(i * 3)));
    }
    assert_eq!(kind(&map, 5), "tree");
}

#[test]
fn a_long_bin_in_a_small_table_makes_the_table_grow() {
    let mut map: HashMap<u64, u64> = HashMap::new();
    for i in 0..7u64 {
        map.put(3 + 4096 * i, i, i, false);
    }
    assert_eq!(map.table.len(), 16);
    assert_eq!(kind(&map, 3), "chain");
    map.put(3 + 4096 * 7, 7, 7, false);
    assert_eq!(map.table.len(), 128);
    assert_eq!(kind(&map, 3), "chain");
    for i in 0..8u64 {
        assert_eq!(map.get_hashed(3 + 4096 * i, &i), Some(&i));
    }
}

#[test]
fn a_long_bin_in_a_large_table_becomes_a_tree() {
    let mut map: HashMap<u64, u64> = HashMap::with_capacity(200);
    let bins = map.table.len();
    assert_eq!(bins, 512);
    for i in 0..7u64 {
        map.put(9 + (1 << 20) * i, i, i, false);
        assert_eq!(kind(&map, 9), "chain");
    }
    map.put(9 + (1 << 20) * 7, 7, 7, false);
    assert_eq!(kind(&map, 9), "tree");
    assert_eq!(map.table.len(), bins);
    check_trees(&map);
    for i in 8..40u64 {
        map.put(9 + (1 << 20) * i, i, i, false);
        check_trees(&map);
    }
    for i in 0..40u64 {
        assert_eq!(map.get_hashed(9 + (1 << 20) * i, &i), Some(&i));
    }
    assert_eq!(map.get_hashed(9 + (1 << 20) * 41, &41), None);
    assert_eq!(map.get_hashed(9, &41), None);
}

#[test]
fn equal_hashes_are_told_apart_by_key() {
    let mut map: HashMap<u64, u64> = HashMap::with_capacity(200);
    for i in 0..30u64 {
        assert!(matches!(map.put(77, i, i + 1, false), PutResult::Inserted));
        check_trees(&map);
    }
    assert_eq!(kind(&map, 77), "tree");
    for i in 0..30u64 {
        assert_eq!(map.get_hashed(77, &i), Some(&(i + 1)));
    }
    match map.put(77, 4, 400, false) {
        PutResult::Replaced { old } => assert_eq!(old, 5),
        _ => panic!("the key was present"),
    }
    match map.put(77, 4, 401, true) {
        PutResult::Exists { key, not_inserted } => {
            assert_eq!(key, 4);
            assert_eq!(not_inserted, 401);
        }
        _ => panic!("the key was present"),
    }
    assert_eq!(map.get_hashed(77, &4), Some(&400));
    assert_eq!(map.len(), 30);
}

#[test]
fn removals_from_a_tree_keep_it_balanced_and_untreeify_it() {
    let mut map: HashMap<u64, u64> = HashMap::with_capacity(200);
    for i in 0..64u64 {
        map.put(11 + 512 * (i * 7919 % 64), i, i, false);
    }
    assert_eq!(kind(&map, 11), "tree");
    let order = [5u64, 60, 0, 33, 17, 63, 1, 2, 3, 4, 40, 41, 42, 20, 21, 22, 50, 51, 52, 53];
    let mut left = 64;
    for i in order.iter() {
        let hash = 11 + 512 * (*i * 7919 % 64);
        match map.replace_node(hash, i, None) {
            Replaced::Removed { key, value } => {
                assert_eq!(key, *i);
                assert_eq!(value, *i);
            }
            _ => panic!("the key was present"),
        }
        left -= 1;
        assert_eq!(map.len(), left);
        check_trees(&map);
        assert!(matches!(map.replace_node(hash, i, None), Replaced::Absent));
    }
    for i in 0..64u64 {
        let hash = 11 + 512 * (i * 7919 % 64);
        assert_eq!(map.get_hashed(hash, &i).is_some(), !order.contains(&i));
    }
    let mut i = 0u64;
    while map.len() > 7 {
        let hash = 11 + 512 * (i * 7919 % 64);
        map.replace_node(hash, &i, None);
        check_trees(&map);
        i += 1;
    }
    assert_eq!(kind(&map, 11), "tree");
    while map.len() > 6 {
        let hash = 11 + 512 * (i * 7919 % 64);
        map.replace_node(hash, &i, None);
        i += 1;
    }
    assert_eq!(kind(&map, 11), "chain");
    while map.len() > 0 {
        let hash = 11 + 512 * (i * 7919 % 64);
        map.replace_node(hash, &i, None);
        i += 1;
    }
    assert_eq!(kind(&map, 11), "empty");
}

#[test]
fn replace_node_with_a_value_swaps_it() {
    let mut map: HashMap<u64, u64> = HashMap::new();
    map.put(1, 10, 100, false);
    match map.replace_node(1, &10, Some(101)) {
        Replaced::Swapped { old } => assert_eq!(old, 100),
        _ => panic!("the key was present"),
    }
    assert_eq!(map.get_hashed(1, &10), Some(&101));
    assert!(matches!(map.replace_node(1, &11, Some(5)), Replaced::Absent));
    assert_eq!(map.len(), 1);
}

#[test]
fn a_resize_splits_chains_and_trees() {
    let mut map: HashMap<u64, u64> = HashMap::with_capacity(42);
    assert_eq!(map.table.len(), 64);
    for i in 0..20u64 {
        map.put(7 + 64 * i, i, i, false);
    }
    assert_eq!(kind(&map, 7), "tree");
    for i in 0..5u64 {
        map.put(8 + 64 * i, 100 + i, i, false);
    }
    assert_eq!(kind(&map, 8), "chain");
    let mut next = 1000u64;
    while map.table.len() == 64 {
        map.put(next % 64 + 64 * next, next, next, false);
        next += 1;
    }
    assert_eq!(map.table.len(), 128);
    check_trees(&map);
    assert_eq!(kind(&map, 7), "tree");
    assert_eq!(kind(&map, 7 + 64), "tree");
    assert_eq!(kind(&map, 8), "chain");
    assert_eq!(kind(&map, 8 + 64), "chain");
    for i in 0..20u64 {
        assert_eq!(map.get_hashed(7 + 64 * i, &i), Some(&i));
    }
    for i in 0..5u64 {
        assert_eq!(map.get_hashed(8 + 64 * i, &(100 + i)), Some(&i));
    }
    for k in 1000..next {
        assert_eq!(map.get_hashed(k % 64 + 64 * k, &k), Some(&k));
    }
}

#[test]
fn tree_bin_keeps_the_linked_order() {
    let mut list = Vec::new();
    for i in 0..10u64 {
        list.push(Node::new(i % 3, i, i * i));
    }
    let mut bin: TreeBin<u64, u64> = TreeBin::new(list);
    assert!(bin.check_invariants());
    assert_eq!(bin.len(), 10);
    assert_eq!(bin.find(1, &4), Some(5));
    assert_eq!(bin.nodes[5].value, 16);
    assert_eq!(bin.find(1, &5), None);
    assert!(bin.find_or_put_tree_val(2, 20, 400).is_none());
    assert!(bin.check_invariants());
    match bin.find_or_put_tree_val(2, 20, 401) {
        Some((at, key, value)) => {
            assert_eq!(at, 10);
            assert_eq!(key, 20);
            assert_eq!(value, 401);
        }
        None => panic!("the key was present"),
    }
    assert_eq!(bin.replace_value(10, 402), 400);
    let (small, gone) = bin.remove_tree_node(9);
    assert!(!small);
    assert_eq!(gone.key, 0);
    assert!(bin.check_invariants());
    let keys: Vec<u64> = bin.untreeify().into_iter().map(|n| n.key).collect();
    assert_eq!(keys, vec![20, 1, 2, 3, 4, 5, 6, 7, 8, 9]);
}

#[test]
fn a_checker_tells_a_broken_tree() {
    let mut list = Vec::new();
    for i in 0..9u64 {
        list.push(Node::new(i, i, i));
    }
    let mut bin: TreeBin<u64, u64> = TreeBin::new(list);
    assert!(bin.check_invariants());
    assert_eq!(bin.nodes[0].key, 8);
    bin.nodes[0].hash = 0;
    assert!(!bin.check_invariants());
    bin.nodes[0].hash = 8;
    assert!(bin.check_invariants());
    if let Some(root) = bin.root.as_mut() {
        root.red = true;
    }
    assert!(!bin.check_invariants());
}
