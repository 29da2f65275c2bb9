use algorithms::bitset::{alignof6, BitSet};

#[test]
fn test_align() {
    assert_eq!(alignof6(32), 1);
    assert_eq!(alignof6(64), 1);
    assert_eq!(alignof6(65), 2);
}

#[test]
fn test_bitset() {
    let mut bs = BitSet::new(32);

    bs.set(0);
    bs.set(10);
    bs.set(31);

    assert!(bs.test(0));
    assert!(bs.test(10));
    assert!(bs.test(31));

    assert!(!bs.test(129));
    bs.set(129);
    assert!(bs.test(129));
}

#[test]
fn bitset_len_and_reset() {
    let mut bs = BitSet::new(0);
    assert_eq!(bs.len(), 0);
    assert!(!bs.test(0));
    bs.set(63);
    assert_eq!(bs.len(), 64);
    assert!(bs.test(63));
    assert!(!bs.test(62));
    bs.set(64);
    assert_eq!(bs.len(), 128);
    bs.reset();
    assert_eq!(bs.len(), 128);
    assert!(!bs.test(63));
    assert!(!bs.test(64));
    assert_eq!(alignof6(0), 0);
    assert_eq!(alignof6(128), 2);
}
