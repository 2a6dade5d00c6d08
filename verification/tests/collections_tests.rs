use turbo::collections::{Arena, DenseMap, Index};

#[test]
fn test_arena_generational_checks() {
    let mut arena = Arena::new();
    assert!(arena.is_empty());

    let idx1 = arena.insert("Value A");
    let idx2 = arena.insert("Value B");
    assert_eq!(arena.len(), 2);

    assert_eq!(arena.get(idx1), Some(&"Value A"));
    assert_eq!(arena.get(idx2), Some(&"Value B"));

    assert_eq!(arena.remove(idx1), Some("Value A"));
    assert_eq!(arena.len(), 1);

    assert_eq!(arena.get(idx1), None);

    let idx3 = arena.insert("Value C");
    assert_eq!(idx3.index(), idx1.index());
    assert_ne!(idx3.generation(), idx1.generation());

    assert_eq!(arena.get(idx1), None);
    assert_eq!(arena.get(idx3), Some(&"Value C"));
}

#[test]
fn test_arena_iteration() {
    let mut arena = Arena::new();
    let idx1 = arena.insert(10);
    let idx2 = arena.insert(20);
    arena.remove(idx1);
    let idx3 = arena.insert(30);

    let items: Vec<(Index, i32)> = arena.iter().into_iter().map(|(idx, &val)| (idx, val)).collect();
    assert_eq!(items.len(), 2);
    assert!(items.contains(&(idx2, 20)));
    assert!(items.contains(&(idx3, 30)));
}

#[test]
fn test_dense_map_contiguity_and_swap_pop() {
    let mut map = DenseMap::new();
    let idx1 = map.insert("A");
    let idx2 = map.insert("B");
    let idx3 = map.insert("C");

    assert_eq!(map.len(), 3);
    assert_eq!(map.as_slice(), &["A", "B", "C"]);
    assert_eq!(map.get(idx1), Some(&"A"));

    assert_eq!(map.remove(idx2), Some("B"));
    assert_eq!(map.len(), 2);
    assert_eq!(map.as_slice(), &["A", "C"]);

    assert_eq!(map.get(idx3), Some(&"C"));
    assert_eq!(map.get(idx2), None);

    if let Some(val) = map.get_mut(idx3) {
        *val = "New C";
    }
    assert_eq!(map.get(idx3), Some(&"New C"));
    assert_eq!(map.as_slice(), &["A", "New C"]);
}

#[test]
fn arena_generation_starts_at_one_and_advances_on_reuse() {
    let mut arena = Arena::new();
    let a = arena.insert(1u8);
    assert_eq!(a.index(), 0);
    assert_eq!(a.generation(), 1);
    arena.remove(a);
    let b = arena.insert(2u8);
    assert_eq!(b.index(), 0);
    assert_eq!(b.generation(), 2);
    assert_eq!(arena.remove(a), None);
    assert_eq!(arena.capacity() >= 1, true);
}

#[test]
fn arena_get_mut_and_clear() {
    let mut arena = Arena::with_capacity(4);
    let a = arena.insert(String::from("x"));
    if let Some(v) = arena.get_mut(a) {
        v.push('y');
    }
    assert_eq!(arena.get(a).map(|s| s.as_str()), Some("xy"));
    arena.clear();
    assert!(arena.is_empty());
    assert_eq!(arena.get(a), None);
    let stale = Index::new(7, 3);
    assert_eq!(arena.get(stale), None);
}

#[test]
fn dense_map_remove_last_and_iter() {
    let mut map = DenseMap::with_capacity(2);
    let a = map.insert(1);
    let b = map.insert(2);
    assert_eq!(map.remove(b), Some(2));
    assert_eq!(map.as_slice(), &[1]);
    let c = map.insert(3);
    assert_ne!(c, b);
    assert_eq!(map.iter().copied().collect::<Vec<i32>>(), vec![1, 3]);
    for v in map.iter_mut() {
        *v *= 10;
    }
    assert_eq!(map.as_mut_slice(), &mut [10, 30]);
    assert_eq!(map.get(a), Some(&10));
    map.clear();
    assert!(map.is_empty());
    assert_eq!(map.get(c), None);
}

#[test]
fn arena_clear_keeps_stale_indices_stale() {
    let mut a = Arena::new();
    let i1 = a.insert("A");
    a.clear();
    let i2 = a.insert("B");
    assert_eq!(a.get(i1), None);
    assert_eq!(a.get(i2), Some(&"B"));
    assert_ne!(i1, i2);
    assert_eq!(i2.index(), i1.index());
    assert_eq!(i2.generation(), i1.generation() + 1);
}

#[test]
fn dense_map_clear_keeps_stale_indices_stale() {
    let mut m = DenseMap::new();
    let i1 = m.insert(1);
    let _ = m.insert(2);
    m.clear();
    assert!(m.is_empty());
    let i2 = m.insert(3);
    assert_eq!(m.get(i1), None);
    assert_eq!(m.get(i2), Some(&3));
    assert_eq!(m.as_slice(), &[3]);
}
