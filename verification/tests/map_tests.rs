use phf::builder::build_map;
use phf::error::PhfError;
use phf::hashing::slot_for;

fn sample(n: usize) -> Vec<(String, u64)> {
    (0..n).map(|i| (format!("key{}", i), i as u64)).collect()
}

#[test]
fn map_scenario_hello_world() {
    let m = build_map(vec![("hello".to_string(), 10u64), ("world".to_string(), 11u64)]).unwrap();
    assert_eq!(m.len(), 2);
    assert_eq!(m.find(&"hello".to_string()), Some(&10));
    assert_eq!(m.find(&"world".to_string()), Some(&11));
    assert_eq!(m.find(&"goodbye".to_string()), None);
}

#[test]
fn map_round_trip_many() {
    let m = build_map(sample(200)).unwrap();
    for i in 0..200u64 {
        let k = format!("key{}", i);
        assert_eq!(m.find(&k), Some(&i));
    }
}

#[test]
fn map_negative_lookup_many() {
    let m = build_map(sample(200)).unwrap();
    for i in 0..200 {
        let k = format!("miss{}", i);
        assert_eq!(m.find(&k), None);
        assert_eq!(m.find_equiv(&k), None);
        assert!(!m.contains_key(&k));
    }
}

#[test]
fn map_size_equals_entry_count() {
    for n in [0usize, 1, 2, 17, 100] {
        let m = build_map(sample(n)).unwrap();
        assert_eq!(m.len(), n);
    }
}

#[test]
fn map_slots_are_injective() {
    let m = build_map(sample(100)).unwrap();
    let n = m.len();
    let mut slots: Vec<usize> = Vec::new();
    let mut it = m.entries();
    while let Some(e) = it.next() {
        slots.push(slot_for(m.key, &m.disps, n, e.0.as_str()));
    }
    assert_eq!(slots.len(), n);
    for i in 0..n {
        // the plain map stores each entry at exactly its own slot
        assert_eq!(slots[i], i);
        for j in 0..i {
            assert_ne!(slots[i], slots[j]);
        }
    }
}

#[test]
fn map_index_present_and_absent() {
    let m = build_map(sample(10)).unwrap();
    assert_eq!(m.index(&"key3".to_string()), Ok(&3));
    assert_eq!(m.index(&"nope".to_string()), Err(PhfError::InvalidKey));
}

#[test]
fn map_find_key_interns() {
    let m = build_map(sample(10)).unwrap();
    assert_eq!(m.find_key(&"key3".to_string()), Some(&"key3".to_string()));
    assert_eq!(m.find_key(&"zzz".to_string()), None);
    assert_eq!(m.find_key_equiv("key7"), Some(&"key7".to_string()));
    assert_eq!(m.find_key_equiv("zzz"), None);
}

#[test]
fn map_find_equiv_str() {
    let m = build_map(sample(10)).unwrap();
    assert_eq!(m.find_equiv("key4"), Some(&4));
    assert_eq!(m.find_equiv(""), None);
}

#[test]
fn map_empty() {
    let m = build_map(Vec::<(String, u32)>::new()).unwrap();
    assert_eq!(m.len(), 0);
    assert_eq!(m.find(&"anything".to_string()), None);
    let mut it = m.entries();
    assert_eq!(it.size_hint(), (0, Some(0)));
    assert!(it.next().is_none());
}

#[test]
fn map_duplicate_key_fails() {
    let r = build_map(vec![("a".to_string(), 1u8), ("a".to_string(), 2u8)]);
    assert_eq!(r.err(), Some(PhfError::DuplicateKey));
}

#[test]
fn map_iteration_is_stable() {
    let m = build_map(sample(50)).unwrap();
    let mut first: Vec<(String, u64)> = Vec::new();
    let mut it = m.entries();
    while let Some(e) = it.next() {
        first.push(e.clone());
    }
    let mut second: Vec<(String, u64)> = Vec::new();
    let mut it2 = m.entries();
    while let Some(e) = it2.next() {
        second.push(e.clone());
    }
    assert_eq!(first, second);
    assert_eq!(first.len(), 50);
}

#[test]
fn map_iterators_cover_all_pairs() {
    let m = build_map(sample(20)).unwrap();
    let mut keys: Vec<String> = Vec::new();
    let mut kit = m.keys();
    while let Some(k) = kit.next() {
        keys.push(k.clone());
    }
    let mut values: Vec<u64> = Vec::new();
    let mut vit = m.values();
    while let Some(v) = vit.next() {
        values.push(*v);
    }
    assert_eq!(keys.len(), 20);
    assert_eq!(values.len(), 20);
    for i in 0..20 {
        // keys and values iterate the same fixed order
        assert_eq!(keys[i], format!("key{}", values[i]));
    }
}

#[test]
fn map_entries_next_back() {
    let m = build_map(sample(5)).unwrap();
    let mut forward: Vec<(String, u64)> = Vec::new();
    let mut it = m.entries();
    while let Some(e) = it.next() {
        forward.push(e.clone());
    }
    let mut backward: Vec<(String, u64)> = Vec::new();
    let mut it2 = m.entries();
    while let Some(e) = it2.next_back() {
        backward.push(e.clone());
    }
    backward.reverse();
    assert_eq!(forward, backward);
}

#[test]
fn map_size_hint_counts_down() {
    let m = build_map(sample(3)).unwrap();
    let mut it = m.entries();
    assert_eq!(it.size_hint(), (3, Some(3)));
    it.next();
    assert_eq!(it.size_hint(), (2, Some(2)));
    it.next();
    it.next();
    assert_eq!(it.size_hint(), (0, Some(0)));
    assert!(it.next().is_none());
}
