use phf::builder::build_set;
use phf::error::PhfError;
use phf::set::PhfSet;

fn set_of(vals: &[&str]) -> PhfSet {
    build_set(vals.iter().map(|s| s.to_string()).collect()).unwrap()
}

fn collect(s: &PhfSet) -> Vec<String> {
    let mut out: Vec<String> = Vec::new();
    let mut it = s.iter();
    while let Some(v) = it.next() {
        out.push(v.clone());
    }
    out
}

#[test]
fn set_scenario_duplicate_fails() {
    let r = build_set(vec!["a".to_string(), "b".to_string(), "c".to_string(), "a".to_string()]);
    assert_eq!(r.err(), Some(PhfError::DuplicateKey));
}

#[test]
fn set_membership() {
    let s = set_of(&["hello", "world"]);
    assert_eq!(s.len(), 2);
    assert!(s.contains(&"hello".to_string()));
    assert!(s.contains(&"world".to_string()));
    assert!(!s.contains(&"goodbye".to_string()));
    assert!(s.contains_equiv("world"));
    assert!(!s.contains_equiv("worlds"));
}

#[test]
fn set_find_key_interns() {
    let s = set_of(&["alpha", "beta"]);
    assert_eq!(s.find_key(&"alpha".to_string()), Some(&"alpha".to_string()));
    assert_eq!(s.find_key(&"gamma".to_string()), None);
    assert_eq!(s.find_key_equiv("beta"), Some(&"beta".to_string()));
}

#[test]
fn set_algebra_matches_brute_force() {
    let sets = [
        set_of(&["a", "b", "c"]),
        set_of(&["c", "d"]),
        set_of(&["d", "e"]),
        set_of(&["a", "b"]),
        set_of(&[]),
    ];
    for x in &sets {
        for y in &sets {
            let xs = collect(x);
            let ys = collect(y);
            let brute_disjoint = xs.iter().all(|v| !ys.contains(v));
            let brute_subset = xs.iter().all(|v| ys.contains(v));
            assert_eq!(x.is_disjoint(y), brute_disjoint);
            assert_eq!(x.is_subset(y), brute_subset);
        }
    }
}

#[test]
fn set_iteration_is_stable() {
    let s = set_of(&["p", "q", "r", "s", "t"]);
    assert_eq!(collect(&s), collect(&s));
    assert_eq!(collect(&s).len(), 5);
}

#[test]
fn set_empty() {
    let s = set_of(&[]);
    assert_eq!(s.len(), 0);
    assert!(!s.contains(&"x".to_string()));
    assert!(s.is_disjoint(&s));
    assert!(s.is_subset(&s));
    let mut it = s.iter();
    assert!(it.next().is_none());
}

#[test]
fn set_iter_back_and_size_hint() {
    let s = set_of(&["x", "y", "z"]);
    let mut it = s.iter();
    assert_eq!(it.size_hint(), (3, Some(3)));
    let forward = collect(&s);
    let mut backward: Vec<String> = Vec::new();
    while let Some(v) = it.next_back() {
        backward.push(v.clone());
    }
    backward.reverse();
    assert_eq!(forward, backward);
}
