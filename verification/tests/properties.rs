use linkedslab::order::{compare, Side};
use linkedslab::SlabMap;
use std::cell::Cell;
use std::collections::BTreeMap;
use std::rc::Rc;

fn entries<const N: usize>(map: &SlabMap<u32, u32, N>) -> Vec<(u32, u32)> {
    let mut out = Vec::new();
    let mut walk = map.iter();
    while let Some((key, value)) = walk.next() {
        out.push((*key, *value));
    }
    out
}

/// A fixed run of pseudo-random pairs with keys below `span`.
fn run_of_pairs(seed: u64, count: usize, span: u32) -> Vec<(u32, u32)> {
    let mut state = seed;
    let mut out = Vec::new();
    for _ in 0..count {
        state = state.wrapping_mul(6364136223846793005).wrapping_add(1442695040888963407);
        let key = ((state >> 33) as u32) % span;
        state = state.wrapping_mul(6364136223846793005).wrapping_add(1442695040888963407);
        let value = (state >> 40) as u32;
        out.push((key, value));
    }
    out
}

fn agrees_with_reference<const N: usize>(seed: u64, count: usize, span: u32) {
    let mut map: SlabMap<u32, u32, N> = SlabMap::new();
    let mut reference: BTreeMap<u32, u32> = BTreeMap::new();
    for (key, value) in run_of_pairs(seed, count, span) {
        assert_eq!(map.insert(key, value), reference.insert(key, value));
        assert_eq!(entries(&map).len(), reference.len());
    }
    for key in 0..span + 3 {
        assert_eq!(map.get(&key), reference.get(&key));
        assert_eq!(map.contains_key(&key), reference.contains_key(&key));
        assert_eq!(map.contains_key(&key), map.get(&key).is_some());
    }
    let mut seen = entries(&map);
    assert_eq!(seen.len(), reference.len());
    for (key, value) in seen.iter() {
        assert_eq!(map.get(key), Some(value));
    }
    seen.sort();
    let expected: Vec<(u32, u32)> = reference.into_iter().collect();
    assert_eq!(seen, expected);
}

#[test]
fn get_returns_latest_value() {
    let mut map: SlabMap<u32, u32, 4> = SlabMap::new();
    let run = [(3, 1), (1, 2), (3, 3), (2, 4), (9, 5), (1, 6), (7, 7), (3, 8), (0, 9)];
    for (key, value) in run {
        map.insert(key, value);
    }
    assert_eq!(map.get(&3), Some(&8));
    assert_eq!(map.get(&1), Some(&6));
    assert_eq!(map.get(&2), Some(&4));
    assert_eq!(map.get(&9), Some(&5));
    assert_eq!(map.get(&7), Some(&7));
    assert_eq!(map.get(&0), Some(&9));
    assert_eq!(map.get(&4), None);
    agrees_with_reference::<1>(11, 300, 40);
    agrees_with_reference::<2>(12, 300, 40);
    agrees_with_reference::<4>(13, 600, 100);
    agrees_with_reference::<8>(14, 2000, 500);
}

#[test]
fn reinsert_returns_prior_and_keeps_count() {
    let mut map: SlabMap<u32, u32, 4> = SlabMap::new();
    for key in 0..10 {
        assert_eq!(map.insert(key, key), None);
    }
    assert_eq!(entries(&map).len(), 10);
    for key in 0..10 {
        assert_eq!(map.insert(key, key + 100), Some(key));
        assert_eq!(entries(&map).len(), 10);
    }
    for key in 0..10 {
        assert_eq!(map.insert(key, key + 200), Some(key + 100));
    }
    assert_eq!(entries(&map).len(), 10);
}

#[test]
fn contains_key_agrees_with_get() {
    let mut map: SlabMap<u32, u32, 3> = SlabMap::new();
    for key in [5, 15, 25, 35, 45, 10, 20] {
        map.insert(key, key);
    }
    for key in 0..50 {
        assert_eq!(map.contains_key(&key), map.get(&key).is_some());
    }
    assert!(map.contains_key(&35));
    assert!(!map.contains_key(&36));
}

#[test]
fn walk_yields_each_binding_once() {
    let mut map: SlabMap<u32, u32, 4> = SlabMap::new();
    for (key, value) in run_of_pairs(99, 200, 64) {
        map.insert(key, value);
    }
    let seen = entries(&map);
    let mut keys: Vec<u32> = seen.iter().map(|pair| pair.0).collect();
    keys.sort();
    let count = keys.len();
    keys.dedup();
    assert_eq!(keys.len(), count);
    for (key, value) in seen.iter() {
        assert_eq!(map.get(key), Some(value));
    }
    let bound = (0..64).filter(|key| map.contains_key(key)).count();
    assert_eq!(seen.len(), bound);
}

#[test]
fn clone_is_independent() {
    let mut source: SlabMap<u32, u32, 2> = SlabMap::new();
    for key in [1, 2, 3, 4, 5] {
        source.insert(key, key * 10);
    }
    let mut copy = source.clone();
    assert_eq!(entries(&copy), entries(&source));

    copy.insert(3, 0);
    copy.insert(6, 60);
    assert_eq!(source.get(&3), Some(&30));
    assert_eq!(source.get(&6), None);
    assert_eq!(entries(&source).len(), 5);

    source.insert(1, 7);
    source.insert(0, 9);
    assert_eq!(copy.get(&1), Some(&10));
    assert_eq!(copy.get(&0), None);
    assert_eq!(copy.get(&3), Some(&0));
    assert_eq!(entries(&copy).len(), 6);
}

#[test]
fn clone_of_strings_copies_every_record() {
    let mut source: SlabMap<String, String, 2> = SlabMap::new();
    for word in ["pear", "apple", "fig", "plum"] {
        source.insert(word.to_string(), word.to_uppercase());
    }
    let copy = source.clone();
    drop(source);
    assert_eq!(copy.get(&"fig".to_string()).map(|s| s.as_str()), Some("FIG"));
    assert_eq!(copy.get(&"plum".to_string()).map(|s| s.as_str()), Some("PLUM"));
    assert_eq!(copy.get(&"kiwi".to_string()), None);
}

struct Tally {
    hits: Rc<Cell<usize>>,
}

impl Drop for Tally {
    fn drop(&mut self) {
        self.hits.set(self.hits.get() + 1);
    }
}

#[test]
fn drop_releases_every_value_once() {
    let hits = Rc::new(Cell::new(0));
    let mut map: SlabMap<u32, Tally, 4> = SlabMap::new();
    for key in (0..25).rev() {
        assert!(map.insert(key, Tally { hits: hits.clone() }).is_none());
    }
    assert_eq!(hits.get(), 0);
    let old = map.insert(7, Tally { hits: hits.clone() });
    assert!(old.is_some());
    assert_eq!(hits.get(), 0);
    drop(old);
    assert_eq!(hits.get(), 1);
    drop(map);
    assert_eq!(hits.get(), 26);
}

#[test]
fn compare_tells_the_three_sides() {
    assert_eq!(compare(&1, &2), Side::Before);
    assert_eq!(compare(&2, &2), Side::Same);
    assert_eq!(compare(&3, &2), Side::After);
    assert_eq!(compare(&"a", &"b"), Side::Before);
}
