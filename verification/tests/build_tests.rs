use phf::builder::{build_map, build_set};
use phf::error::PhfError;

/// Deterministic pseudo-random key stream; the counter suffix keeps the keys
/// mutually distinct.
fn random_keys(n: usize) -> Vec<String> {
    let mut state: u64 = 0x2545_f491_4f6c_dd1d;
    (0..n)
        .map(|i| {
            state = state.wrapping_mul(6364136223846793005).wrapping_add(1442695040888963407);
            format!("{:016x}_{}", state, i)
        })
        .collect()
}

#[test]
fn build_hundred_thousand_random_keys() {
    let keys = random_keys(100_000);
    let s = build_set(keys.clone()).unwrap();
    assert_eq!(s.len(), 100_000);
    for i in (0..100_000).step_by(997) {
        assert!(s.contains(&keys[i]));
    }
    assert!(!s.contains(&"not one of them".to_string()));
}

#[test]
fn build_map_with_random_keys_round_trips() {
    let keys = random_keys(5_000);
    let entries: Vec<(String, usize)> =
        keys.iter().enumerate().map(|(i, k)| (k.clone(), i)).collect();
    let m = build_map(entries).unwrap();
    assert_eq!(m.len(), 5_000);
    for (i, k) in keys.iter().enumerate() {
        assert_eq!(m.find(k), Some(&i));
    }
}

#[test]
fn build_reports_duplicates_in_large_input() {
    let mut keys = random_keys(1_000);
    keys.push(keys[123].clone());
    assert_eq!(build_set(keys).err(), Some(PhfError::DuplicateKey));
}

#[test]
fn build_is_reproducible() {
    let keys = random_keys(500);
    let a = build_set(keys.clone()).unwrap();
    let b = build_set(keys).unwrap();
    assert_eq!(a.map.key, b.map.key);
    assert_eq!(a.map.disps, b.map.disps);
    let mut ita = a.iter();
    let mut itb = b.iter();
    loop {
        match (ita.next(), itb.next()) {
            (None, None) => break,
            (x, y) => assert_eq!(x, y),
        }
    }
}

#[test]
fn build_single_key() {
    let m = build_map(vec![("only".to_string(), 1u8)]).unwrap();
    assert_eq!(m.len(), 1);
    assert_eq!(m.find(&"only".to_string()), Some(&1));
    assert_eq!(m.find(&"other".to_string()), None);
}
