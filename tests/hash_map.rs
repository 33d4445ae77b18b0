use simple_hash_map::SimpleHashMap;
use std::collections::HashSet;
use std::hash::Hash;

fn compare_vec_ignore_order<K: Hash + Eq>(v1: Vec<(K, i32)>, v2: Vec<(K, i32)>) -> bool {
    let s1: HashSet<_> = v1.iter().collect();
    let s2: HashSet<_> = v2.iter().collect();
    s1 == s2
}

#[test]
fn test_hash_map_insert_get() {
    let mut map = SimpleHashMap::new(10);
    map.insert("A", 1);
    map.insert("B", 2);
    map.insert("C", 3);
    assert_eq!(map.len(), 3);

    let res = map.get("A");
    assert_eq!(res, Some(("A", 1)));
}

#[test]
fn test_hash_map_insert_delete() {
    let mut map = SimpleHashMap::new(10);
    map.insert("A", 1);
    map.insert("B", 2);
    map.insert("C", 3);
    assert_eq!(map.len(), 3);

    let len = map.delete("A");
    assert_eq!(len, 2);

    let v = map.get("A");
    assert_eq!(v, None);
}

#[test]
fn test_hash_map_get_all_k_v() {
    let mut map = SimpleHashMap::new(10);
    map.insert("A", 1);
    map.insert("B", 2);
    map.insert("C", 3);
    assert_eq!(map.len(), 3);

    let res = map.all_key_values();
    assert_eq!(res.len(), 3);

    assert!(compare_vec_ignore_order(
        res,
        vec![("A", 1), ("B", 2), ("C", 3)]
    ));
}

#[test]
fn test_hash_map_resize() {
    let mut map = SimpleHashMap::new(4);
    for i in 0..10 {
        map.insert(format!("Key-{}", i), i);
    }

    assert_eq!(map.len(), 10);

    let res = map.all_key_values();
    assert_eq!(res.len(), 10);

    assert!(compare_vec_ignore_order(
        res,
        (0..10)
            .into_iter()
            .map(|i| (format!("Key-{}", i), i))
            .collect::<Vec<(String, i32)>>()
    ));
}

#[test]
fn resize_grows_capacity_and_keeps_values() {
    let mut map = SimpleHashMap::new(4);
    for i in 0..10 {
        map.insert(format!("Key-{}", i), i);
    }
    assert!(map.capacity() >= 8);
    for i in 0..10 {
        let key = format!("Key-{}", i);
        assert_eq!(map.get(key.clone()), Some((key, i)));
    }
}

#[test]
fn capacity_doubles_only_past_three_quarters() {
    let mut map = SimpleHashMap::new(4);
    for i in 0..4 {
        map.insert(format!("k{}", i), i);
    }
    // 3 of 4 slots used is not past the threshold, so the fourth insert kept 4 slots.
    assert_eq!(map.capacity(), 4);
    map.insert("k4".to_string(), 4);
    assert_eq!(map.capacity(), 8);
    assert_eq!(map.len(), 5);
    map.insert("k5".to_string(), 5);
    map.insert("k6".to_string(), 6);
    assert_eq!(map.capacity(), 8);
    map.insert("k7".to_string(), 7);
    assert_eq!(map.capacity(), 16);
}

#[test]
fn duplicate_key_get_returns_first_inserted() {
    let mut map = SimpleHashMap::new(10);
    assert_eq!(map.insert("A", 1), 1);
    assert_eq!(map.insert("A", 2), 2);
    assert_eq!(map.len(), 2);
    assert_eq!(map.get("A"), Some(("A", 1)));
    assert_eq!(map.all_key_values().len(), 2);
}

#[test]
fn delete_removes_every_duplicate_and_counts_them() {
    let mut map = SimpleHashMap::new(10);
    map.insert("A", 1);
    map.insert("B", 2);
    map.insert("A", 3);
    assert_eq!(map.delete("A"), 1);
    assert_eq!(map.get("A"), None);
    assert_eq!(map.get("B"), Some(("B", 2)));
}

#[test]
fn delete_of_absent_key_keeps_count() {
    let mut map = SimpleHashMap::new(10);
    map.insert("A", 1);
    assert_eq!(map.delete("Z"), 1);
    assert_eq!(map.get("A"), Some(("A", 1)));
    let mut empty: SimpleHashMap<&str, i32> = SimpleHashMap::new(1);
    assert_eq!(empty.delete("A"), 0);
    assert_eq!(empty.len(), 0);
}

#[test]
fn get_on_empty_table_is_none() {
    let map: SimpleHashMap<&str, i32> = SimpleHashMap::new(1);
    assert_eq!(map.get("A"), None);
    assert_eq!(map.capacity(), 1);
    assert!(map.all_key_values().is_empty());
}

#[test]
fn single_slot_table_chains_everything() {
    let mut map = SimpleHashMap::new(1);
    assert_eq!(map.insert("x", 10), 1);
    assert_eq!(map.capacity(), 1);
    assert_eq!(map.insert("y", 20), 2);
    assert_eq!(map.capacity(), 2);
    assert_eq!(map.get("x"), Some(("x", 10)));
    assert_eq!(map.get("y"), Some(("y", 20)));
}

#[test]
fn insert_then_get_round_trips() {
    let mut map = SimpleHashMap::new(3);
    for i in 0..50 {
        let key = format!("round-{}", i);
        map.insert(key.clone(), i);
        assert_eq!(map.get(key.clone()), Some((key, i)));
    }
}

#[test]
fn insert_then_delete_then_get_is_none() {
    let mut map = SimpleHashMap::new(2);
    map.insert("keep", 1);
    map.insert("gone", 2);
    map.delete("gone");
    assert_eq!(map.get("gone"), None);
    assert_eq!(map.get("keep"), Some(("keep", 1)));
    assert_eq!(map.len(), 1);
}

#[test]
fn count_matches_number_of_inserts() {
    let mut map = SimpleHashMap::new(5);
    for i in 0..37 {
        assert_eq!(map.insert(format!("c{}", i % 7), i), (i + 1) as usize);
    }
    assert_eq!(map.len(), 37);
    assert_eq!(map.all_key_values().len(), 37);
}

#[test]
fn dump_matches_live_pairs() {
    let mut map = SimpleHashMap::new(4);
    map.insert("a", 1);
    map.insert("b", 2);
    map.insert("c", 3);
    map.insert("d", 4);
    map.insert("e", 5);
    map.delete("b");
    map.delete("d");
    map.insert("b", 6);
    assert!(compare_vec_ignore_order(
        map.all_key_values(),
        vec![("a", 1), ("c", 3), ("e", 5), ("b", 6)]
    ));
}

#[test]
fn concrete_scenario_sequence() {
    let mut map = SimpleHashMap::new(10);
    map.insert("A", 1);
    map.insert("B", 2);
    assert_eq!(map.insert("C", 3), 3);
    assert_eq!(map.get("A"), Some(("A", 1)));
    assert_eq!(map.delete("A"), 2);
    assert_eq!(map.get("A"), None);
    assert_eq!(map.get("C"), Some(("C", 3)));
}
