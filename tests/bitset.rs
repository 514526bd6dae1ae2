use sudoku::BitSet;

#[test]
fn empty_bitset() {
    let s = BitSet::new();
    assert!(s.is_empty());
}

#[test]
fn insertion() {
    let mut s = BitSet::new();
    s.insert(1);
    assert!(s.contains(1));
    assert!(!s.contains(8));
    s.insert(3);
    assert!(s.contains(1));
    assert!(s.contains(3));
    assert!(!s.contains(2));
    assert!(!s.contains(6));
    assert!(!s.contains(9));
    s.insert(6);
    assert!(s.contains(1));
    assert!(s.contains(3));
    assert!(s.contains(6));
    assert!(!s.contains(2));
    assert!(!s.contains(9));
}

#[test]
fn removal() {
    let mut s = BitSet::new();
    s.insert(1);
    s.insert(3);
    s.insert(6);
    s.insert(2);
    assert!(s.contains(1));
    assert!(s.contains(3));
    assert!(s.contains(6));
    assert!(s.contains(2));
    s.remove(3);
    assert!(s.contains(1));
    assert!(!s.contains(3));
    assert!(s.contains(6));
    assert!(s.contains(2));
    s.remove(2);
    assert!(s.contains(1));
    assert!(!s.contains(3));
    assert!(s.contains(6));
    assert!(!s.contains(2));
    assert!(!s.contains(4));
    s.remove(4);
    assert!(!s.contains(4));
    assert!(s.contains(1));
    assert!(!s.contains(3));
    assert!(s.contains(6));
    assert!(!s.contains(2));
    s.remove(1);
    s.remove(6);
    assert!(s.is_empty());
}

#[test]
fn check_len() {
    let mut s = BitSet::new();
    assert_eq!(s.len(), 0);
    s.remove(3);
    assert_eq!(s.len(), 0);
    s.insert(1);
    assert_eq!(s.len(), 1);
    s.insert(1);
    s.insert(2);
    assert_eq!(s.len(), 2);
    s.insert(3);
    s.insert(5);
    s.insert(9);
    assert_eq!(s.len(), 5);
    s.remove(1);
    s.remove(2);
    s.remove(9);
    assert_eq!(s.len(), 2);
    s.remove(3);
    s.remove(5);
    assert_eq!(s.len(), 0);
}

#[test]
fn insert_then_contains_and_counts_once() {
    let mut s = BitSet::new();
    s.insert(7);
    assert!(s.contains(7));
    assert_eq!(s.len(), 1);
    s.insert(7);
    assert!(s.contains(7));
    assert_eq!(s.len(), 1);
    s.insert(4);
    assert_eq!(s.len(), 2);
    s.remove(7);
    assert!(!s.contains(7));
    assert_eq!(s.len(), 1);
}

#[test]
fn popcount_after_duplicate_inserts() {
    let mut s = BitSet::new();
    for v in [1u8, 1, 2, 3, 5, 9] {
        s.insert(v);
    }
    assert_eq!(s.len(), 5);
    s.remove(1);
    s.remove(2);
    s.remove(9);
    assert_eq!(s.len(), 2);
    assert!(s.contains(3));
    assert!(s.contains(5));
}

#[test]
fn flip_of_empty_within_digit_mask_is_all_digits() {
    let mut s = BitSet::new();
    s.flip(1022);
    assert_eq!(s.len(), 9);
    for v in 1u8..10 {
        assert!(s.contains(v));
    }
    assert!(!s.contains(0));
    assert!(!s.contains(10));
}

#[test]
fn flip_complements_within_mask() {
    let mut s = BitSet::new();
    s.insert(2);
    s.insert(5);
    s.insert(12);
    s.flip(0b0000_0000_0110_0110);
    assert!(s.contains(1));
    assert!(!s.contains(2));
    assert!(s.contains(6));
    assert!(!s.contains(5));
    assert!(!s.contains(12));
    assert_eq!(s.len(), 2);
}

#[test]
fn extend_unions() {
    let mut a = BitSet::new();
    a.insert(1);
    a.insert(4);
    let mut b = BitSet::new();
    b.insert(4);
    b.insert(8);
    a.extend(&b);
    assert!(a.contains(1));
    assert!(a.contains(4));
    assert!(a.contains(8));
    assert_eq!(a.len(), 3);
    assert_eq!(b.len(), 2);
}

#[test]
fn full_width_len() {
    let mut s = BitSet::new();
    for v in 0u8..16 {
        s.insert(v);
    }
    assert_eq!(s.len(), 16);
    assert!(!s.is_empty());
}
