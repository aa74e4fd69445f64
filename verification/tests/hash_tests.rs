use phf::hashing::{
    displace, hash, slot_for, LOG_MAX_SIZE, MASK, MAX_SIZE, MIX_M1, MIX_M2, SEED_BASIS,
    STEP_PRIME,
};

#[test]
fn hash_is_deterministic() {
    let a = hash("hello", 42);
    let b = hash("hello", 42);
    assert_eq!(a, b);
}

#[test]
fn hash_windows_are_bounded() {
    for (i, key) in ["", "a", "hello", "a longer key with spaces"].iter().enumerate() {
        let (g, f1, f2) = hash(key, 0x1234_5678 + i as u64);
        assert!(g < MAX_SIZE);
        assert!(f1 < MAX_SIZE);
        assert!(f2 < MAX_SIZE);
    }
}

#[test]
fn hash_seed_changes_triple() {
    let a = hash("hello", 1);
    let b = hash("hello", 2);
    assert_ne!(a, b);
}

#[test]
fn hash_matches_reference_formula() {
    let key = "ab";
    let seed: u64 = 0xdead_beef;
    let mut h: u64 = seed ^ SEED_BASIS;
    for &byte in key.as_bytes() {
        h = (h ^ (byte as u64)).wrapping_mul(STEP_PRIME);
    }
    h = (h ^ (h >> 33)).wrapping_mul(MIX_M1);
    h = (h ^ (h >> 29)).wrapping_mul(MIX_M2);
    h ^= h >> 32;
    let expected = (h & MASK, (h >> LOG_MAX_SIZE) & MASK, (h >> (2 * LOG_MAX_SIZE)) & MASK);
    assert_eq!(hash(key, seed), expected);
}

#[test]
fn displace_exact_value() {
    // d2 + f1 * d1 + f2 = 6 + 3 * 5 + 4
    assert_eq!(displace(3, 4, 5, 6), 25);
}

#[test]
fn displace_zero_pair_is_f2() {
    let (_, f1, f2) = hash("anything", 7);
    assert_eq!(displace(f1, f2, 0, 0), f2);
}

#[test]
fn slot_for_matches_displace() {
    let disps: Vec<(u32, u32)> = vec![(0, 0)];
    let seed: u64 = 99;
    let (_, _, f2) = hash("slot me", seed);
    let slot = slot_for(seed, &disps, 7, "slot me");
    assert_eq!(slot as u64, f2 % 7);
}
