use chashmap::bin::BinEntry;
use chashmap::map::HashMap;
use chashmap::raw::Table;
use chashmap::transfer::split_bin;
use chashmap::traverser::NodeIter;

fn half_moved() -> (Table<u64, u64>, Table<u64, u64>, Vec<u64>) {
    let mut map: HashMap<u64, u64> = HashMap::with_capacity(10);
    let mut keys = Vec::new();
    for i in 0..40u64 {
        let hash = i * 2654435761 % 1024;
        if hash % 16 == 3 || map.len() < 11 {
            map.put(hash, i, i + 1, false);
            if map.table.len() != 16 {
                break;
            }
            keys.push(i);
        }
    }
    let mut map: HashMap<u64, u64> = HashMap::with_capacity(10);
    for i in keys.iter() {
        map.put(*i * 2654435761 % 1024, *i, *i + 1, false);
    }
    assert_eq!(map.table.len(), 16);
    let mut base = Table { bins: Vec::new() };
    std::mem::swap(&mut base, &mut map.table);
    let mut next: Table<u64, u64> = Table::new(32);
    for i in 0..16usize {
        if i % 3 != 1 {
            let bin = base.store_bin(i, BinEntry::Moved);
            let (low, high) = split_bin(bin, 16);
            next.store_bin(i, low);
            next.store_bin(i + 16, high);
        }
    }
    (base, next, keys)
}

#[test]
fn a_cursor_follows_moved_bins() {
    let (base, next, keys) = half_moved();
    let mut cursor = NodeIter::new(&base, Some(&next));
    let mut seen = Vec::new();
    while let Some(node) = cursor.next() {
        assert_eq!(node.value, node.key + 1);
        assert_eq!(node.hash, node.key * 2654435761 % 1024);
        seen.push(node.key);
    }
    assert!(cursor.next().is_none());
    assert_eq!(seen.len(), keys.len());
    seen.sort();
    let mut expected = keys.clone();
    expected.sort();
    assert_eq!(seen, expected);
}

#[test]
fn a_cursor_visits_the_halves_of_a_moved_bin_in_turn() {
    let mut base: Table<u64, u64> = Table::new(2);
    let mut next: Table<u64, u64> = Table::new(4);
    let mut chain = Vec::new();
    for (hash, key) in [(0u64, 10u64), (2, 11), (4, 12), (6, 13)] {
        chain.push(chashmap::node::Node::new(hash, key, key));
    }
    let (low, high) = split_bin(BinEntry::Node(chain), 2);
    next.store_bin(0, low);
    next.store_bin(2, high);
    base.store_bin(0, BinEntry::Moved);
    let mut one = Vec::new();
    one.push(chashmap::node::Node::new(1, 20, 20));
    base.store_bin(1, BinEntry::Node(one));
    let mut cursor = NodeIter::new(&base, Some(&next));
    let mut seen = Vec::new();
    while let Some(node) = cursor.next() {
        seen.push(node.key);
    }
    assert_eq!(seen, vec![12, 10, 11, 13, 20]);
}

#[test]
fn find_follows_a_moved_bin() {
    let (base, next, keys) = half_moved();
    for k in keys.iter() {
        let hash = *k * 2654435761 % 1024;
        let bin = base.bin(base.bini(hash));
        let found = Table::find(bin, hash, k, Some(&next));
        assert_eq!(found.map(|n| n.value), Some(*k + 1));
    }
    let bin = base.bin(0);
    assert!(Table::find(bin, 0, &1_000_000, Some(&next)).is_none());
}
