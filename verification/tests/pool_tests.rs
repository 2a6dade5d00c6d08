use turbo::pool::Slab;

#[test]
fn test_slab_basic() {
    let mut slab = Slab::new();
    assert!(slab.is_empty());

    let k1 = slab.insert("apple");
    let k2 = slab.insert("banana");
    assert_eq!(slab.len(), 2);

    assert_eq!(slab.get(k1), Some(&"apple"));
    assert_eq!(slab.get(k2), Some(&"banana"));

    assert_eq!(slab.remove(k1), Some("apple"));
    assert_eq!(slab.len(), 1);
    assert_eq!(slab.get(k1), None);

    let k3 = slab.insert("cherry");
    assert_eq!(k3, k1);
    assert_eq!(slab.get(k3), Some(&"cherry"));
}

#[test]
fn slab_reuses_the_most_recently_freed_key() {
    let mut slab = Slab::with_capacity(4);
    let a = slab.insert(1);
    let b = slab.insert(2);
    let c = slab.insert(3);
    assert_eq!((a, b, c), (0, 1, 2));
    assert_eq!(slab.remove(a), Some(1));
    assert_eq!(slab.remove(c), Some(3));
    assert_eq!(slab.remove(c), None);
    assert_eq!(slab.insert(4), c);
    assert_eq!(slab.insert(5), a);
    assert_eq!(slab.insert(6), 3);
    if let Some(v) = slab.get_mut(b) {
        *v = 20;
    }
    let items: Vec<(usize, i32)> = slab.iter().into_iter().map(|(k, &v)| (k, v)).collect();
    assert_eq!(items, vec![(0, 5), (1, 20), (2, 4), (3, 6)]);
    slab.clear();
    assert!(slab.is_empty());
    assert_eq!(slab.get(b), None);
    assert_eq!(slab.remove(99), None);
}

use turbo::pool::{DefaultRecycler, NoOpRecycler, Recycler};

struct VecRecycler;
impl Recycler<Vec<i32>> for VecRecycler {
    fn recycle(&self, item: &mut Vec<i32>) {
        item.clear();
    }
}

#[test]
fn recyclers_reset_or_keep_values() {
    let mut v = Vec::with_capacity(16);
    v.push(10);
    v.push(20);
    NoOpRecycler.recycle(&mut v);
    assert_eq!(v, vec![10, 20]);
    VecRecycler.recycle(&mut v);
    assert!(v.is_empty());
    assert_eq!(v.capacity(), 16);
    let mut s = String::from("thread_test");
    DefaultRecycler.recycle(&mut s);
    assert_eq!(s, "");
}
