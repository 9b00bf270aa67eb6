use chashmap::HashMap;
use chashmap::TryInsertError;

#[test]
fn insert_then_get() {
    let mut map: HashMap<u64, u64> = HashMap::new();
    assert_eq!(map.insert(42, 0), None);
    assert_eq!(map.get(&42), Some(&0));
}

#[test]
fn get_of_missing_key_is_none() {
    let mut map: HashMap<u64, u64> = HashMap::new();
    assert_eq!(map.get(&7), None);
    map.insert(1, 1);
    assert_eq!(map.get(&7), None);
    assert!(!map.contains_key(&7));
    assert!(map.contains_key(&1));
    assert_eq!(map.get_key_value(&1), Some((&1, &1)));
}

#[test]
fn two_writers_one_after_the_other() {
    let mut map: HashMap<u64, u64> = HashMap::new();
    for i in 0..4u64 {
        map.insert(i, 0);
    }
    for i in 0..4u64 {
        assert_eq!(map.insert(i, 1), Some(0));
    }
    for i in 0..4u64 {
        assert_eq!(map.get(&i), Some(&1));
    }
    assert_eq!(map.len(), 4);
}

#[test]
fn try_insert_reports_present_key() {
    let mut map: HashMap<String, u64> = HashMap::new();
    assert!(map.try_insert("a".to_string(), 1).is_ok());
    match map.try_insert("a".to_string(), 2) {
        Err(TryInsertError { current, not_inserted }) => {
            assert_eq!(*current, 1);
            assert_eq!(not_inserted, 2);
        }
        Ok(()) => panic!("the key was present"),
    }
    assert_eq!(map.get(&"a".to_string()), Some(&1));
}

#[test]
fn compute_if_present_removes_on_none() {
    let mut map: HashMap<u64, u64> = HashMap::new();
    map.insert(5, 50);
    assert_eq!(map.compute_if_present(&5, |_, _| None), None);
    assert_eq!(map.get(&5), None);
    assert_eq!(map.len(), 0);
}

#[test]
fn compute_if_present_replaces_on_some() {
    let mut map: HashMap<u64, u64> = HashMap::new();
    map.insert(5, 50);
    assert_eq!(map.compute_if_present(&5, |k, v| Some(*k + *v)), Some(&55));
    assert_eq!(map.get(&5), Some(&55));
    assert_eq!(map.compute_if_present(&6, |k, v| Some(*k + *v)), None);
    assert_eq!(map.len(), 1);
}

#[test]
fn retain_keeps_even_keys() {
    let mut map: HashMap<u64, u64> = HashMap::new();
    for i in 0..100u64 {
        map.insert(i, i);
    }
    map.retain(|k, _| *k % 2 == 0);
    assert_eq!(map.len(), 50);
    for i in 0..100u64 {
        assert_eq!(map.get(&i).is_some(), i % 2 == 0);
    }
    let mut seen = 0;
    let mut it = map.iter();
    while let Some((k, v)) = it.next() {
        assert_eq!(*k % 2, 0);
        assert_eq!(k, v);
        seen += 1;
    }
    assert_eq!(seen, 50);
}

#[test]
fn retain_force_keeps_what_the_predicate_keeps() {
    let mut map: HashMap<u64, u64> = HashMap::new();
    for i in 0..40u64 {
        map.insert(i, i + 1);
    }
    map.retain_force(|_, v| *v > 30);
    assert_eq!(map.len(), 10);
    assert_eq!(map.get(&30), Some(&31));
    assert_eq!(map.get(&29), None);
}

#[test]
fn a_thousand_keys_in_eight_batches() {
    let mut map: HashMap<u64, u64> = HashMap::new();
    for batch in 0..8u64 {
        for i in 0..125u64 {
            assert_eq!(map.insert(batch * 125 + i, batch), None);
        }
    }
    assert_eq!(map.len(), 1000);
    for i in 0..1000u64 {
        assert_eq!(map.get(&i), Some(&(i / 125)));
    }
}

#[test]
fn insert_remove_insert_matches_reference_map() {
    let mut map: HashMap<u64, u64> = HashMap::new();
    let mut reference = std::collections::BTreeMap::new();
    let keys = [3u64, 19, 35, 3, 51, 19, 3, 67, 35, 99, 3];
    for (step, k) in keys.iter().enumerate() {
        let v = step as u64;
        assert_eq!(map.insert(*k, v), reference.insert(*k, v));
        if step % 3 == 2 {
            assert_eq!(map.remove(k), reference.remove(k));
            assert_eq!(map.remove(k), reference.remove(k));
        }
        assert_eq!(map.len(), reference.len());
    }
    for k in 0..100u64 {
        assert_eq!(map.get(&k), reference.get(&k));
    }
}

#[test]
fn remove_returns_the_value_and_remove_entry_the_pair() {
    let mut map: HashMap<String, u64> = HashMap::new();
    map.insert("x".to_string(), 10);
    map.insert("y".to_string(), 20);
    assert_eq!(map.remove(&"x".to_string()), Some(10));
    assert_eq!(map.remove(&"x".to_string()), None);
    assert_eq!(map.remove_entry(&"y".to_string()), Some(("y".to_string(), 20)));
    assert_eq!(map.remove_entry(&"y".to_string()), None);
    assert!(map.is_empty());
}

#[test]
fn insert_then_remove_restores_the_map() {
    let mut map: HashMap<u64, u64> = HashMap::new();
    for i in 0..10u64 {
        map.insert(i, i);
    }
    assert_eq!(map.insert(100, 1), None);
    assert_eq!(map.remove(&100), Some(1));
    assert_eq!(map.len(), 10);
    assert_eq!(map.get(&100), None);
    for i in 0..10u64 {
        assert_eq!(map.get(&i), Some(&i));
    }
}

#[test]
fn clear_twice_is_clear_once() {
    let mut map: HashMap<u64, u64> = HashMap::new();
    for i in 0..50u64 {
        map.insert(i, i);
    }
    let bins = map.table.len();
    map.clear();
    assert_eq!(map.len(), 0);
    assert!(map.is_empty());
    assert_eq!(map.table.len(), bins);
    assert_eq!(map.get(&3), None);
    map.clear();
    assert_eq!(map.len(), 0);
    assert_eq!(map.table.len(), bins);
    assert_eq!(map.insert(3, 4), None);
    assert_eq!(map.get(&3), Some(&4));
}

#[test]
fn many_inserts_grow_the_table_and_keep_the_keys() {
    let mut map: HashMap<u64, u64> = HashMap::new();
    assert_eq!(map.table.len(), 0);
    map.insert(0, 0);
    assert_eq!(map.table.len(), 16);
    assert_eq!(map.size_ctl, 12);
    for i in 1..13u64 {
        map.insert(i, i * 2);
        for j in 0..=i {
            assert_eq!(map.get(&j), Some(&(j * 2)));
        }
    }
    assert_eq!(map.table.len(), 32);
    assert_eq!(map.size_ctl, 24);
    for i in 13..1000u64 {
        assert_eq!(map.insert(i, i * 2), None);
    }
    assert_eq!(map.len(), 1000);
    assert_eq!(map.table.len(), 2048);
    assert_eq!(map.size_ctl, 1536);
    assert!(map.next_table.is_none());
    assert_eq!(map.transfer_index, 0);
    for i in 0..1000u64 {
        assert_eq!(map.get(&i), Some(&(i * 2)));
    }
}

#[test]
fn with_capacity_sizes_the_table() {
    let map: HashMap<u64, u64> = HashMap::with_capacity(0);
    assert_eq!(map.table.len(), 0);
    let map: HashMap<u64, u64> = HashMap::with_capacity(1);
    assert_eq!(map.table.len(), 2);
    let map: HashMap<u64, u64> = HashMap::with_capacity(10);
    assert_eq!(map.table.len(), 16);
    assert_eq!(map.size_ctl, 12);
    let map: HashMap<u64, u64> = HashMap::with_capacity(42);
    assert_eq!(map.table.len(), 64);
    assert_eq!(map.size_ctl, 48);
    assert_eq!(map.len(), 0);
}

#[test]
fn reserve_then_inserts_keep_the_table() {
    let mut map: HashMap<u64, u64> = HashMap::new();
    map.reserve(100);
    let bins = map.table.len();
    let threshold = map.size_ctl;
    assert!(bins >= 64);
    assert!(threshold > 100);
    for i in 0..100u64 {
        map.insert(i, i);
        assert_eq!(map.table.len(), bins);
        assert_eq!(map.size_ctl, threshold);
    }
    assert_eq!(map.len(), 100);
}

#[test]
fn iteration_yields_every_entry_once() {
    let mut map: HashMap<u64, u64> = HashMap::new();
    for i in 0..300u64 {
        map.insert(i, i + 7);
    }
    let mut seen = std::collections::BTreeSet::new();
    let mut it = map.iter();
    while let Some((k, v)) = it.next() {
        assert_eq!(*v, *k + 7);
        assert!(seen.insert(*k));
    }
    assert_eq!(seen.len(), 300);
    let mut keys = map.keys();
    let mut n = 0;
    while let Some(k) = keys.next() {
        assert!(seen.contains(k));
        n += 1;
    }
    assert_eq!(n, 300);
    let mut values = map.values();
    let mut sum = 0u64;
    while let Some(v) = values.next() {
        sum += *v;
    }
    assert_eq!(sum, (0..300u64).map(|i| i + 7).sum::<u64>());
}

#[test]
fn iteration_of_an_empty_map_ends_at_once() {
    let map: HashMap<u64, u64> = HashMap::new();
    let mut it = map.iter();
    assert!(it.next().is_none());
    assert!(it.next().is_none());
}

#[test]
fn guarded_eq_compares_entries() {
    let mut a: HashMap<u64, u64> = HashMap::new();
    let mut b: HashMap<u64, u64> = HashMap::with_capacity(100);
    assert!(a.guarded_eq(&b));
    for i in 0..20u64 {
        a.insert(i, i);
        b.insert(19 - i, 19 - i);
    }
    assert!(a.guarded_eq(&b));
    assert!(b.guarded_eq(&a));
    b.insert(3, 4);
    assert!(!a.guarded_eq(&b));
    b.insert(3, 3);
    b.insert(50, 50);
    assert!(!a.guarded_eq(&b));
    a.insert(51, 50);
    assert!(!a.guarded_eq(&b));
}

#[test]
fn reads_follow_the_writes_of_a_key_in_order() {
    let mut map: HashMap<u64, u64> = HashMap::new();
    let mut seen = Vec::new();
    for v in 0..50u64 {
        map.insert(9, v);
        for noise in 0..20u64 {
            map.insert(1000 + v * 20 + noise, noise);
        }
        seen.push(*map.get(&9).unwrap());
    }
    assert_eq!(seen, (0..50u64).collect::<Vec<u64>>());
}

#[test]
fn bulk_writes_insert_in_order() {
    let mut map: HashMap<u64, u64> = HashMap::new();
    map.put_all(vec![(1, 1), (2, 2), (1, 3)]);
    assert_eq!(map.len(), 2);
    assert_eq!(map.get(&1), Some(&3));
    map.extend(vec![(2, 20), (5, 50), (6, 60)]);
    assert_eq!(map.len(), 4);
    assert_eq!(map.get(&2), Some(&20));
    let pairs: Vec<(u64, u64)> = (0..100u64).map(|i| (i, i + 1)).collect();
    let built: HashMap<u64, u64> = HashMap::from_pairs(pairs, ahash::RandomState::new());
    assert_eq!(built.len(), 100);
    assert_eq!(built.table.len(), 256);
    assert_eq!(built.get(&99), Some(&100));
    let empty: HashMap<u64, u64> = HashMap::from_pairs(Vec::new(), ahash::RandomState::new());
    assert_eq!(empty.table.len(), 0);
}
