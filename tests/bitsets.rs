use sudoku::indexbitset::IndexBitSet;
use sudoku::prelude::Value;
use sudoku::valuebitset::ValueBitSet;

#[test]
fn indexbitset_with_value() {
    let a = 80;
    let b = 17;
    let c = 2;

    let bitset = IndexBitSet::default().with_value(a).with_value(b);

    assert!(bitset.contains(a));
    assert!(bitset.contains(b));
    assert!(!bitset.contains(c));

    assert_eq!(bitset.len(), 2);
    assert!(!bitset.is_empty());
}

#[test]
fn indexbitset_union() {
    let a = 80;
    let b = 17;
    let c = 2;

    let bitset_a = IndexBitSet::default().with_value(a);
    let bitset_b = IndexBitSet::default().with_value(b);
    let bitset = bitset_a.with_union(&bitset_b);

    assert!(bitset.contains(a));
    assert!(bitset.contains(b));
    assert!(!bitset.contains(c));
}

#[test]
fn indexbitset_without_value() {
    let a = 80;
    let b = 17;
    let c = 2;

    let bitset = IndexBitSet::default()
        .with_value(a)
        .with_value(b)
        .with_value(c);
    let bitset = bitset.without_value(a).without_value(b);

    assert!(!bitset.contains(a));
    assert!(!bitset.contains(b));
    assert!(bitset.contains(c));
}

#[test]
fn indexbitset_from_u8_slice() {
    let a: u8 = 80;
    let b: u8 = 17;
    let c: u8 = 2;

    let bitset = IndexBitSet::from_slice([a, b].as_slice());

    assert!(bitset.contains(a as usize));
    assert!(bitset.contains(b as usize));
    assert!(!bitset.contains(c as usize));
}

#[test]
fn indexbitset_iter() {
    let a = 80;
    let b = 17;

    let bitset = IndexBitSet::default().with_value(a).with_value(b);
    let mut iter = bitset.iter();

    assert_eq!(iter.next(), Some(17));
    assert_eq!(iter.next(), Some(80));
    assert_eq!(iter.next(), None);
    assert_eq!(iter.next(), None);
}

#[test]
fn indexbitset_out_of_board_index_is_never_contained() {
    let bitset = IndexBitSet::default().with_value(80);
    assert!(!bitset.contains(81));
    assert!(!bitset.contains(127));
    assert!(!bitset.contains(usize::MAX));
}

#[test]
fn indexbitset_remove_and_union_in_place() {
    let mut set = IndexBitSet::default();
    set.insert(0);
    set.insert(40);
    set.insert(80);
    set.remove(40);
    let mut other = IndexBitSet::default();
    other.insert(1);
    set.union(&other);
    let mut iter = set.iter();
    assert_eq!(iter.next(), Some(0));
    assert_eq!(iter.next(), Some(1));
    assert_eq!(iter.next(), Some(80));
    assert_eq!(iter.next(), None);
    assert_eq!(set.len(), 3);
    assert!(IndexBitSet::default().is_empty());
}

#[test]
fn valuebitset_with_value() {
    let a: Value = 9;
    let b: Value = 5;
    let c: Value = 2;

    let bitset = ValueBitSet::default().with_value(a).with_value(b);

    assert!(bitset.contains(a));
    assert!(bitset.contains(b));
    assert!(!bitset.contains(c));

    assert_eq!(bitset.len(), 2);
    assert!(!bitset.is_empty());
}

#[test]
fn valuebitset_union() {
    let a: Value = 9;
    let b: Value = 5;
    let c: Value = 2;

    let bitset_a = ValueBitSet::default().with_value(a);
    let bitset_b = ValueBitSet::default().with_value(b);
    let bitset = bitset_a.with_union(&bitset_b);

    assert!(bitset.contains(a));
    assert!(bitset.contains(b));
    assert!(!bitset.contains(c));
}

#[test]
fn valuebitset_without_value() {
    let a: Value = 9;
    let b: Value = 5;
    let c: Value = 2;

    let bitset = ValueBitSet::default()
        .with_value(a)
        .with_value(b)
        .with_value(c);
    let bitset = bitset.without_value(a).without_value(b);

    assert!(!bitset.contains(a));
    assert!(!bitset.contains(b));
    assert!(bitset.contains(c));
}

#[test]
fn valuebitset_from_u8_slice() {
    let a: Value = 9;
    let b: Value = 5;
    let c: Value = 2;

    let bitset = ValueBitSet::from_slice([a, b].as_slice());

    assert!(bitset.contains(a));
    assert!(bitset.contains(b));
    assert!(!bitset.contains(c));
}

#[test]
fn valuebitset_iter() {
    let a: Value = 9;
    let b: Value = 5;

    let bitset = ValueBitSet::default().with_value(a).with_value(b);
    let mut iter = bitset.iter();

    assert_eq!(iter.next(), Some(b));
    assert_eq!(iter.next(), Some(a));
    assert_eq!(iter.next(), None);
    assert_eq!(iter.next(), None);
}

#[test]
fn valuebitset_non_digits_are_never_contained() {
    let full = ValueBitSet::from_slice(&[1, 2, 3, 4, 5, 6, 7, 8, 9]);
    assert_eq!(full.len(), 9);
    assert!(!full.contains(0));
    assert!(!full.contains(10));
    assert!(!full.contains(255));
}

#[test]
fn valuebitset_remove_and_union_in_place() {
    let mut set = ValueBitSet::default();
    set.insert(1);
    set.insert(4);
    set.remove(1);
    let mut other = ValueBitSet::default();
    other.insert(8);
    set.union(&other);
    assert!(!set.contains(1));
    assert!(set.contains(4));
    assert!(set.contains(8));
    assert_eq!(set.len(), 2);
    assert!(ValueBitSet::default().is_empty());
}
