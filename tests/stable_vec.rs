use eightfold::stable_vec::StableVec;

#[test]
fn repeat() {
    let none = StableVec::from_vec(vec![false; 0]);
    assert_eq!(none.len_init(), 0);
    let full = StableVec::from_vec(vec![true; 12]);
    assert_eq!(full.len_init(), 12);
    assert_eq!(full.capacity(), 12);
    assert_eq!(full.get(11), Some(&true));
}

#[test]
fn complex() {
    let v = StableVec::from_vec(vec![0, 1, 2, 4, 4, 6, 7, 8, 9, 10, 11]);
    assert_eq!(v.len_init(), 11);
    assert_eq!(v.get(3), Some(&4));
    assert_eq!(v.get(10), Some(&11));
    assert_eq!(v.get(11), None);
}

#[test]
fn reserve() {
    let mut v: StableVec<u32> = StableVec::new();
    v.reserve(0);
    v.reserve(16);
    assert_eq!(v.capacity(), 0);
    assert_eq!(v.push(3), 0);
}

#[test]
fn push_reuses_first_free_slot() {
    let mut v = StableVec::new();
    assert_eq!(v.push('a'), 0);
    assert_eq!(v.push('b'), 1);
    assert_eq!(v.push('c'), 2);
    assert_eq!(v.remove(1), Some('b'));
    assert_eq!(v.remove(1), None);
    assert!(!v.is_init(1));
    assert_eq!(v.next_push_index(), 1);
    assert_eq!(v.push('d'), 1);
    assert_eq!(v.push('e'), 3);
    assert_eq!(v.len_init(), 4);
}

#[test]
fn set_returns_displaced_value() {
    let mut v = StableVec::from_vec(vec![5u8, 6]);
    assert_eq!(v.set(0, 9), Some(5));
    assert_eq!(v.remove(1), Some(6));
    assert_eq!(v.set(1, 7), None);
    assert_eq!(v.get(0), Some(&9));
    assert_eq!(v.get(1), Some(&7));
    assert_eq!(v.len_init(), 2);
}

#[test]
fn get_out_of_range_is_none() {
    let v = StableVec::from_vec(vec![1u8]);
    assert_eq!(v.get(1), None);
    assert_eq!(v.get(usize::MAX), None);
    assert!(!v.is_init(5));
}

#[test]
fn defragment_remaps_indices() {
    let mut v = StableVec::new();
    assert_eq!(v.push("A"), 0);
    assert_eq!(v.push("B"), 1);
    assert_eq!(v.push("C"), 2);
    assert_eq!(v.remove(1), Some("B"));
    assert!(v.is_fragmented());
    let moves = v.defragment();
    assert_eq!(moves, vec![(2, 1)]);
    assert!(!v.is_fragmented());
    assert_eq!(v.get(0), Some(&"A"));
    assert_eq!(v.get(1), Some(&"C"));
    assert_eq!(v.get(2), None);
}

#[test]
fn defragment_of_compact_store_moves_nothing() {
    let mut v = StableVec::from_vec(vec![1, 2, 3]);
    assert_eq!(v.defragment(), vec![]);
    assert_eq!(v.len_init(), 3);
}

#[test]
fn compress_drops_free_tail() {
    let mut v = StableVec::from_vec(vec![1, 2, 3, 4, 5]);
    v.remove(0);
    v.remove(2);
    let moves = v.compress();
    assert_eq!(moves, vec![(4, 0), (3, 2)]);
    assert_eq!(v.capacity(), 3);
    assert_eq!(v.get(0), Some(&5));
    assert_eq!(v.get(1), Some(&2));
    assert_eq!(v.get(2), Some(&4));
}

#[test]
fn swap_and_clear() {
    let mut v = StableVec::from_vec(vec![1, 2]);
    v.remove(0);
    v.swap(0, 1);
    assert_eq!(v.get(0), Some(&2));
    assert_eq!(v.get(1), None);
    assert_eq!(v.spare_capacity(), 1);
    v.clear();
    assert_eq!(v.len_init(), 0);
    assert_eq!(v.capacity(), 2);
}

#[test]
fn extend_from_other_moves_every_value() {
    let mut a = StableVec::from_vec(vec![1, 2, 3]);
    a.remove(1);
    let mut b = StableVec::from_vec(vec![7, 8, 9]);
    b.remove(0);
    let moves = a.extend_from_other(b);
    assert_eq!(moves, vec![(1, 1), (2, 3)]);
    assert_eq!(a.get(1), Some(&8));
    assert_eq!(a.get(3), Some(&9));
    assert_eq!(a.len_init(), 4);
}
