use phf::builder::{build_ordered_map, build_ordered_set};
use phf::error::PhfError;

fn sample(n: usize) -> Vec<(String, u64)> {
    (0..n).map(|i| (format!("ok{}", i), i as u64)).collect()
}

#[test]
fn ordered_scenario_hello_world() {
    let m = build_ordered_map(vec![("hello".to_string(), 10i64), ("world".to_string(), 11i64)])
        .unwrap();
    assert_eq!(m.len(), 2);
    assert_eq!(m.find(&"hello".to_string()), Some(&10));
    assert_eq!(m.find(&"goodbye".to_string()), None);
    let mut keys: Vec<String> = Vec::new();
    let mut it = m.keys();
    while let Some(k) = it.next() {
        keys.push(k.clone());
    }
    assert_eq!(keys, vec!["hello".to_string(), "world".to_string()]);
}

#[test]
fn ordered_iteration_matches_definition_order() {
    let input = sample(50);
    let m = build_ordered_map(input.clone()).unwrap();
    let mut walked: Vec<(String, u64)> = Vec::new();
    let mut it = m.entries();
    while let Some(e) = it.next() {
        walked.push(e.clone());
    }
    assert_eq!(walked, input);
}

#[test]
fn ordered_round_trip_and_negative() {
    let m = build_ordered_map(sample(150)).unwrap();
    for i in 0..150u64 {
        assert_eq!(m.find(&format!("ok{}", i)), Some(&i));
        assert_eq!(m.find(&format!("no{}", i)), None);
    }
}

#[test]
fn ordered_index_signals_invalid_key() {
    let m = build_ordered_map(sample(8)).unwrap();
    assert_eq!(m.index(&"ok2".to_string()), Ok(&2));
    assert_eq!(m.index(&"absent".to_string()), Err(PhfError::InvalidKey));
}

#[test]
fn ordered_find_key_and_equiv() {
    let m = build_ordered_map(sample(8)).unwrap();
    assert_eq!(m.find_key(&"ok5".to_string()), Some(&"ok5".to_string()));
    assert_eq!(m.find_equiv("ok6"), Some(&6));
    assert_eq!(m.find_key_equiv("ok7"), Some(&"ok7".to_string()));
    assert_eq!(m.find_key_equiv("ok99"), None);
}

#[test]
fn ordered_backward_traversal() {
    let input = sample(10);
    let m = build_ordered_map(input.clone()).unwrap();
    let mut backward: Vec<(String, u64)> = Vec::new();
    let mut it = m.entries();
    while let Some(e) = it.next_back() {
        backward.push(e.clone());
    }
    backward.reverse();
    assert_eq!(backward, input);
}

#[test]
fn ordered_random_access() {
    let input = sample(10);
    let m = build_ordered_map(input.clone()).unwrap();
    let it = m.entries();
    assert_eq!(it.indexable(), 10);
    for i in 0..10 {
        assert_eq!(it.idx(i), Some(&input[i]));
    }
    assert_eq!(it.idx(10), None);
    let kit = m.keys();
    assert_eq!(kit.idx(3), Some(&"ok3".to_string()));
    let vit = m.values();
    assert_eq!(vit.idx(4), Some(&4));
}

#[test]
fn ordered_random_access_after_next() {
    let input = sample(6);
    let m = build_ordered_map(input.clone()).unwrap();
    let mut it = m.entries();
    it.next();
    it.next();
    assert_eq!(it.indexable(), 4);
    assert_eq!(it.idx(0), Some(&input[2]));
}

#[test]
fn ordered_duplicate_key_fails() {
    let r = build_ordered_map(vec![("k".to_string(), 1u8), ("k".to_string(), 2u8)]);
    assert_eq!(r.err(), Some(PhfError::DuplicateKey));
}

#[test]
fn ordered_empty() {
    let m = build_ordered_map(Vec::<(String, u8)>::new()).unwrap();
    assert_eq!(m.len(), 0);
    assert_eq!(m.find(&"x".to_string()), None);
}

#[test]
fn ordered_set_iteration_order() {
    let vals: Vec<String> = ["one", "two", "three", "four"].iter().map(|s| s.to_string()).collect();
    let s = build_ordered_set(vals.clone()).unwrap();
    assert_eq!(s.len(), 4);
    let mut walked: Vec<String> = Vec::new();
    let mut it = s.iter();
    while let Some(v) = it.next() {
        walked.push(v.clone());
    }
    assert_eq!(walked, vals);
    let it2 = s.iter();
    assert_eq!(it2.idx(2), Some(&"three".to_string()));
    assert_eq!(it2.indexable(), 4);
}

#[test]
fn ordered_set_queries() {
    let vals: Vec<String> = ["one", "two", "three"].iter().map(|s| s.to_string()).collect();
    let s = build_ordered_set(vals).unwrap();
    assert!(s.contains(&"two".to_string()));
    assert!(!s.contains(&"five".to_string()));
    assert!(s.contains_equiv("three"));
    assert_eq!(s.find_key(&"one".to_string()), Some(&"one".to_string()));
    assert_eq!(s.find_key_equiv("nope"), None);
}

#[test]
fn ordered_set_algebra() {
    let a = build_ordered_set(vec!["a".to_string(), "b".to_string(), "c".to_string()]).unwrap();
    let b = build_ordered_set(vec!["c".to_string(), "d".to_string()]).unwrap();
    let c = build_ordered_set(vec!["d".to_string(), "e".to_string()]).unwrap();
    let ab = build_ordered_set(vec!["a".to_string(), "b".to_string()]).unwrap();
    assert!(!a.is_disjoint(&b));
    assert!(a.is_disjoint(&c));
    assert!(ab.is_subset(&a));
    assert!(!a.is_subset(&ab));
    assert!(a.is_subset(&a));
}
