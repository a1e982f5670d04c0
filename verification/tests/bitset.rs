use std::rc::Rc;

use janim_backend::bitset::OffsetBitSet;

fn set_of(ids: &[usize]) -> OffsetBitSet {
    let mut s = OffsetBitSet::new();
    for &id in ids {
        s.insert(id);
    }
    s
}

#[test]
fn new_set_is_empty() {
    let s = OffsetBitSet::new();
    assert!(s.iter().is_empty());
    assert!(!s.contains(0));
    assert_eq!(s.range(), (0, 0));
}

#[test]
fn default_set_is_empty() {
    let s = OffsetBitSet::default();
    assert!(s.iter().is_empty());
}

#[test]
fn insert_then_contains() {
    let mut s = OffsetBitSet::new();
    s.insert(200);
    assert!(s.contains(200));
    assert!(!s.contains(199));
    assert!(!s.contains(201));
    // the first word holds ids 192..256
    assert_eq!(s.range(), (3, 4));
}

#[test]
fn insert_before_offset_shifts_storage() {
    let mut s = set_of(&[640]);
    s.insert(5);
    assert_eq!(s.iter(), vec![5, 640]);
    assert_eq!(s.range(), (0, 11));
}

#[test]
fn take_reports_whether_set() {
    let mut s = set_of(&[3, 70]);
    assert!(s.take(3));
    assert!(!s.take(3));
    assert!(!s.take(1000));
    assert!(!s.take(1));
    assert_eq!(s.iter(), vec![70]);
}

#[test]
fn union_keeps_every_bit() {
    let mut a = set_of(&[1, 64, 500]);
    let b = set_of(&[2, 64, 1000]);
    a.union_with(&b);
    assert_eq!(a.iter(), vec![1, 2, 64, 500, 1000]);
}

#[test]
fn union_with_empty_keeps_range() {
    let mut a = set_of(&[130]);
    a.union_with(&OffsetBitSet::new());
    assert_eq!(a.iter(), vec![130]);
    assert_eq!(a.range(), (2, 3));
}

#[test]
fn difference_removes_shared_bits() {
    let mut a = set_of(&[1, 2, 64, 500]);
    let b = set_of(&[2, 500, 900]);
    a.difference_with(&b);
    assert_eq!(a.iter(), vec![1, 64]);
    // the storage keeps its words
    assert_eq!(a.range(), (0, 8));
}

#[test]
fn difference_without_overlap_changes_nothing() {
    let mut a = set_of(&[1, 2]);
    let b = set_of(&[640]);
    a.difference_with(&b);
    assert_eq!(a.iter(), vec![1, 2]);
}

#[test]
fn iter_is_ascending() {
    let s = set_of(&[900, 3, 64, 63, 65, 0]);
    assert_eq!(s.iter(), vec![0, 3, 63, 64, 65, 900]);
}

#[test]
fn into_iter_walks_all_ids() {
    let s = Rc::new(set_of(&[7, 128, 129]));
    let mut it = s.into_iter();
    let mut got = Vec::new();
    while let Some(id) = it.next() {
        got.push(id);
    }
    assert_eq!(got, vec![7, 128, 129]);
    assert_eq!(it.next(), None);
}

#[test]
fn cleanup_drops_zero_words() {
    let mut s = set_of(&[5, 300, 700]);
    s.take(5);
    s.take(700);
    s.cleanup();
    assert_eq!(s.iter(), vec![300]);
    assert_eq!(s.range(), (4, 5));
}

#[test]
fn cleanup_of_emptied_set() {
    let mut s = set_of(&[100]);
    s.take(100);
    s.cleanup();
    assert!(s.iter().is_empty());
    let (start, end) = s.range();
    assert_eq!(start, end);
}

#[test]
fn trim_keeps_range() {
    let mut s = set_of(&[1, 60, 70, 130, 300]);
    s.trim(60, 131);
    assert_eq!(s.iter(), vec![60, 70, 130]);
    assert_eq!(s.range(), (0, 3));
}

#[test]
fn trim_empty_range_empties() {
    let mut s = set_of(&[1, 60, 70]);
    s.trim(70, 70);
    assert!(s.iter().is_empty());
    let mut t = set_of(&[1, 60, 70]);
    t.trim(80, 10);
    assert!(t.iter().is_empty());
    assert_eq!(t.range(), (0, 0));
}

#[test]
fn insert_then_take_restores() {
    let mut s = set_of(&[10, 20]);
    s.insert(15);
    assert!(s.take(15));
    assert_eq!(s.iter(), vec![10, 20]);
}
