use linkedslab::SlabMap;

fn pairs<const N: usize>(map: &SlabMap<i32, i32, N>) -> Vec<(i32, i32)> {
    let mut out = Vec::new();
    let mut walk = map.iter();
    while let Some((key, value)) = walk.next() {
        out.push((*key, *value));
    }
    out
}

#[test]
fn new_map_is_empty() {
    let map: SlabMap<i32, i32, 4> = SlabMap::new();
    assert_eq!(map.get(&0), None);
    assert!(!map.contains_key(&0));
    assert_eq!(pairs(&map), vec![]);
    let mut walk = map.iter();
    assert!(walk.next().is_none());
    assert!(walk.next().is_none());
}

#[test]
fn default_map_has_segments_of_eight() {
    let mut map = SlabMap::default();
    for key in 0..9 {
        assert_eq!(map.insert(key, key * 2), None);
    }
    // Eight keys fill the head segment: the ninth finds no place in it.
    assert_eq!(map.binary_search(&8), Err(None));
    assert_eq!(map.binary_search(&7), Ok(7));
    assert_eq!(map.get(&8), Some(&16));
}

#[test]
fn full_head_takes_smaller_key() {
    let mut map: SlabMap<i32, i32, 4> = SlabMap::new();
    for key in [1, 2, 3, 4] {
        assert_eq!(map.insert(key, key * 100), None);
    }
    assert_eq!(map.insert(0, 0), None);
    for key in [0, 1, 2, 3, 4] {
        assert_eq!(map.get(&key), Some(&(key * 100)));
        assert!(map.contains_key(&key));
    }
    assert_eq!(pairs(&map), vec![(0, 0), (1, 100), (2, 200), (3, 300), (4, 400)]);
    // The head kept four records and handed its last one on.
    assert_eq!(map.binary_search(&3), Ok(3));
    assert_eq!(map.binary_search(&4), Err(None));
}

#[test]
fn end_to_end_eight_keys() {
    let mut map: SlabMap<i32, i32, 4> = SlabMap::new();
    for (key, value) in [(5, 50), (3, 30), (8, 80), (1, 10), (9, 90), (2, 20), (7, 70), (6, 60)] {
        assert_eq!(map.insert(key, value), None);
    }
    assert_eq!(map.get(&6), Some(&60));
    assert_eq!(map.get(&4), None);
    let seen = pairs(&map);
    assert_eq!(seen.len(), 8);
    let mut keys: Vec<i32> = seen.iter().map(|pair| pair.0).collect();
    keys.sort();
    keys.dedup();
    assert_eq!(keys, vec![1, 2, 3, 5, 6, 7, 8, 9]);
    for (key, value) in seen.iter() {
        assert_eq!(*value, *key * 10);
    }
    assert_eq!(
        seen,
        vec![(1, 10), (2, 20), (3, 30), (5, 50), (6, 60), (7, 70), (8, 80), (9, 90)]
    );
}

#[test]
fn descending_keys_are_all_kept() {
    let mut map: SlabMap<i32, i32, 3> = SlabMap::new();
    for key in (0..20).rev() {
        assert_eq!(map.insert(key, -key), None);
    }
    for key in 0..20 {
        assert_eq!(map.get(&key), Some(&-key));
    }
    assert_eq!(map.get(&20), None);
    assert_eq!(pairs(&map).len(), 20);
}

#[test]
fn capacity_of_one() {
    let mut map: SlabMap<i32, i32, 1> = SlabMap::new();
    for key in [4, 2, 9, 1, 7] {
        assert_eq!(map.insert(key, key + 1), None);
    }
    assert_eq!(map.insert(9, 0), Some(10));
    assert_eq!(pairs(&map), vec![(1, 2), (2, 3), (4, 5), (7, 8), (9, 0)]);
}

#[test]
fn binary_search_finds_index_or_place() {
    let mut map: SlabMap<i32, i32, 4> = SlabMap::new();
    assert_eq!(map.binary_search(&5), Err(Some(0)));
    map.insert(10, 1);
    map.insert(30, 3);
    map.insert(20, 2);
    assert_eq!(map.binary_search(&10), Ok(0));
    assert_eq!(map.binary_search(&20), Ok(1));
    assert_eq!(map.binary_search(&30), Ok(2));
    assert_eq!(map.binary_search(&5), Err(Some(0)));
    assert_eq!(map.binary_search(&15), Err(Some(1)));
    assert_eq!(map.binary_search(&25), Err(Some(2)));
    assert_eq!(map.binary_search(&35), Err(Some(3)));
    map.insert(40, 4);
    assert_eq!(map.binary_search(&35), Err(Some(3)));
    assert_eq!(map.binary_search(&45), Err(None));
}

#[test]
fn insert_inner_without_claim_binds() {
    let mut map: SlabMap<i32, i32, 2> = SlabMap::new();
    assert_eq!(map.insert_inner(1, 10, false), Ok(None));
    assert_eq!(map.insert_inner(1, 11, false), Ok(Some(10)));
    assert_eq!(map.get(&1), Some(&11));
}

#[test]
fn insert_inner_with_claim_only_overwrites() {
    let mut map: SlabMap<i32, i32, 2> = SlabMap::new();
    for key in [1, 2, 3] {
        map.insert(key, key * 10);
    }
    // A new key comes back and the map stays as it was.
    assert_eq!(map.insert_inner(4, 40, true), Err((4, 40)));
    assert_eq!(map.insert_inner(0, 0, true), Err((0, 0)));
    assert_eq!(pairs(&map), vec![(1, 10), (2, 20), (3, 30)]);
    // A key that is there is overwritten, in the head or behind it.
    assert_eq!(map.insert_inner(1, 11, true), Ok(Some(10)));
    assert_eq!(map.insert_inner(3, 33, true), Ok(Some(30)));
    assert_eq!(pairs(&map), vec![(1, 11), (2, 20), (3, 33)]);
}

#[test]
fn overwrite_keeps_the_record_in_place() {
    let mut map: SlabMap<i32, i32, 2> = SlabMap::new();
    for key in [10, 20, 30, 40, 50] {
        map.insert(key, key);
    }
    let before: Vec<i32> = pairs(&map).iter().map(|pair| pair.0).collect();
    assert_eq!(map.insert(30, -1), Some(30));
    assert_eq!(map.insert(50, -2), Some(50));
    let after = pairs(&map);
    let keys: Vec<i32> = after.iter().map(|pair| pair.0).collect();
    assert_eq!(keys, before);
    assert_eq!(after, vec![(10, 10), (20, 20), (30, -1), (40, 40), (50, -2)]);
}

#[test]
fn walk_can_be_started_again() {
    let mut map: SlabMap<i32, i32, 2> = SlabMap::new();
    for key in [3, 1, 2] {
        map.insert(key, key);
    }
    let first = pairs(&map);
    let second = pairs(&map);
    assert_eq!(first, second);
    let mut one = map.iter();
    let mut other = map.iter();
    assert_eq!(one.next(), Some((&1, &1)));
    assert_eq!(one.next(), Some((&2, &2)));
    assert_eq!(other.next(), Some((&1, &1)));
    assert_eq!(one.next(), Some((&3, &3)));
    assert_eq!(one.next(), None);
    assert_eq!(other.next(), Some((&2, &2)));
}

#[test]
fn string_values_are_handed_back() {
    let mut map: SlabMap<u64, String, 4> = SlabMap::new();
    assert_eq!(map.insert(7, "seven".to_string()), None);
    assert_eq!(map.insert(7, "sept".to_string()), Some("seven".to_string()));
    assert_eq!(map.get(&7).map(|s| s.as_str()), Some("sept"));
}
