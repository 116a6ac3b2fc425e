//! Tests of the SparseVec keyed container.

use orderbooklib::price_levels::SparseVec;

#[test]
fn test_sparse_vec_insert() {
    let mut sv = SparseVec::<u64>::default();
    sv.insert(5, 50);
    sv.insert(10, 100);
    assert_eq!(sv.get(&5), Some(&50));
    assert_eq!(sv.get(&10), Some(&100));
}

#[test]
fn test_sparse_vec_remove() {
    let mut sv = SparseVec::<u64>::default();
    sv.insert(5, 50);
    sv.insert(10, 100);
    assert_eq!(sv.remove(&5), Some(50));
    assert_eq!(sv.get(&5), None);
}

#[test]
fn test_sparse_vec_max_min_index() {
    let mut sv = SparseVec::<u64>::default();
    sv.insert(5, 50);
    sv.insert(10, 100);
    sv.insert(3, 30);
    assert_eq!(sv.max_index(), Some(10));
    assert_eq!(sv.min_index(), Some(3));
}

#[test]
fn test_sparse_vec_replace_and_iter() {
    let mut sv = SparseVec::<u64>::default();
    assert!(sv.is_empty());
    assert_eq!(sv.insert(5, 50), None);
    assert_eq!(sv.insert(5, 55), Some(50));
    sv.insert(2, 20);
    assert!(!sv.is_empty());
    let pairs = sv.iter();
    assert_eq!(pairs.len(), 2);
    assert_eq!(pairs[0], (2, 20));
    assert_eq!(pairs[1], (5, 55));
}

#[test]
fn test_sparse_vec_get_mut() {
    let mut sv = SparseVec::<u64>::default();
    sv.insert(7, 70);
    if let Some(v) = sv.get_mut(&7) {
        *v = 77;
    }
    assert_eq!(sv.get(&7), Some(&77));
    assert!(sv.get_mut(&8).is_none());
}
