use turbo::hash::{BuildFxHasher, FxHasher, HashMap, HashSet};

#[test]
fn test_hash_map_basic() {
    let mut map = HashMap::new();
    assert_eq!(map.len(), 0);
    assert!(map.is_empty());

    assert_eq!(map.insert("one", 1).unwrap(), None);
    assert_eq!(map.insert("two", 2).unwrap(), None);
    assert_eq!(map.len(), 2);

    assert_eq!(map.get(&"one"), Some(&1));
    assert_eq!(map.get(&"two"), Some(&2));
    assert_eq!(map.get(&"three"), None);

    assert_eq!(map.insert("one", 10).unwrap(), Some(1));
    assert_eq!(map.get(&"one"), Some(&10));

    if let Some(val) = map.get_mut(&"two") {
        *val = 20;
    }
    assert_eq!(map.get(&"two"), Some(&20));

    assert_eq!(map.remove(&"one"), Some(10));
    assert_eq!(map.len(), 1);
    assert_eq!(map.get(&"one"), None);
}

#[test]
fn test_hash_map_collisions_and_backshift() {
    let mut map = HashMap::with_capacity(8);
    for i in 0..10 {
        map.insert(i, i * 100).unwrap();
    }
    assert_eq!(map.len(), 10);

    for i in 0..10 {
        assert_eq!(map.get(&i), Some(&(i * 100)));
    }

    assert_eq!(map.remove(&4), Some(400));
    assert_eq!(map.remove(&7), Some(700));

    for &i in &[0, 1, 2, 3, 5, 6, 8, 9] {
        assert_eq!(map.get(&i), Some(&(i * 100)));
    }
}

#[test]
fn test_hash_map_entry_api() {
    let mut map = HashMap::new();

    let val_ref = map.entry("key1").or_insert(100);
    assert_eq!(*val_ref, 100);
    assert_eq!(map.get(&"key1"), Some(&100));

    let val_ref = map.entry("key1").or_insert(200);
    assert_eq!(*val_ref, 100);

    let val_ref = map.entry("key2").or_insert_with(|| 300);
    assert_eq!(*val_ref, 300);
    assert_eq!(map.get(&"key2"), Some(&300));
}

#[test]
fn test_hash_set_basic() {
    let mut set = HashSet::new();
    assert_eq!(set.len(), 0);

    assert!(set.insert("apple").unwrap());
    assert!(set.insert("banana").unwrap());
    assert!(!set.insert("apple").unwrap());

    assert!(set.contains(&"apple"));
    assert!(set.contains(&"banana"));
    assert!(!set.contains(&"cherry"));

    assert!(set.remove(&"apple"));
    assert!(!set.contains(&"apple"));
    assert_eq!(set.len(), 1);
}

#[test]
fn hash_map_capacity_grows_by_doubling() {
    let mut map: HashMap<u64, u64> = HashMap::new();
    assert_eq!(map.capacity(), 0);
    map.insert(1, 1).unwrap();
    assert_eq!(map.capacity(), 8);
    for i in 2..=6u64 {
        map.insert(i, i).unwrap();
    }
    assert_eq!(map.capacity(), 8);
    map.insert(7, 7).unwrap();
    assert_eq!(map.capacity(), 16);
    assert_eq!(map.len(), 7);
    assert_eq!(HashMap::<u8, u8>::with_capacity(9).capacity(), 16);
    assert_eq!(HashMap::<u8, u8>::with_capacity(0).capacity(), 8);
}

#[test]
fn hash_map_many_keys_survive_removals() {
    let mut map = HashMap::new();
    for i in 0..200u32 {
        assert_eq!(map.insert(i, i + 1).unwrap(), None);
    }
    for i in (0..200u32).step_by(3) {
        assert_eq!(map.remove(&i), Some(i + 1));
    }
    for i in 0..200u32 {
        let expected = if i % 3 == 0 { None } else { Some(i + 1) };
        assert_eq!(map.get(&i).copied(), expected);
    }
    let mut pairs: Vec<(u32, u32)> = map.iter().into_iter().map(|(k, v)| (*k, *v)).collect();
    pairs.sort();
    assert_eq!(pairs.len(), map.len());
    assert_eq!(pairs[0], (1, 2));
    map.clear();
    assert!(map.is_empty());
    assert_eq!(map.get(&1), None);
}

#[test]
fn hash_map_entry_on_unallocated_map_and_into_mut() {
    let mut map: HashMap<String, Vec<u8>> = HashMap::default();
    map.entry(String::from("a")).or_insert_with(Vec::new).push(1);
    map.entry(String::from("a")).or_insert_with(Vec::new).push(2);
    assert_eq!(map.get(&String::from("a")), Some(&vec![1, 2]));
    assert_eq!(map.capacity(), 8);
}

#[test]
fn fx_hasher_mixes_words() {
    let mut h = FxHasher::new();
    assert_eq!(h.finish(), 0);
    h.write_u64(1);
    assert_eq!(h.finish(), 0x51_7c_c1_b7_27_22_0a_95);
    let mut g = FxHasher::default();
    g.write(&[1, 0, 0, 0, 0, 0, 0, 0]);
    assert_eq!(g.finish(), h.finish());
    let b = BuildFxHasher;
    let _ = b;
}

#[test]
fn hash_set_iter_and_default() {
    let mut set: HashSet<char> = HashSet::default();
    for c in "hello".chars() {
        set.insert(c).unwrap();
    }
    assert_eq!(set.len(), 4);
    let mut items: Vec<char> = set.iter().into_iter().copied().collect();
    items.sort();
    assert_eq!(items, vec!['e', 'h', 'l', 'o']);
    set.clear();
    assert!(set.is_empty());
    assert_eq!(set.capacity(), 8);
}

#[test]
fn hash_map_unused_entry_leaves_map_unchanged() {
    let mut m: HashMap<u64, u64> = HashMap::new();
    m.insert(1, 10).unwrap();
    m.insert(2, 20).unwrap();
    let cap = m.capacity();
    {
        let _e = m.entry(3);
    }
    {
        let _e = m.entry(1);
    }
    assert_eq!(m.len(), 2);
    assert_eq!(m.capacity(), cap);
    assert_eq!(m.get(&1), Some(&10));
    assert_eq!(m.get(&2), Some(&20));
    assert_eq!(m.get(&3), None);
}

#[test]
fn hash_map_keeps_three_quarter_load() {
    let mut m: HashMap<u64, u64> = HashMap::new();
    for k in 0..100u64 {
        m.insert(k, k).unwrap();
        let cap = m.capacity();
        assert!(cap.is_power_of_two() && cap >= 8);
        assert!(m.len() * 4 <= cap * 3);
    }
}
