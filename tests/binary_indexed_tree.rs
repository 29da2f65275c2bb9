use algorithms::binary_indexed_tree::lowbit;

#[test]
fn binary_indexed_tree_lowbit() {
    assert_eq!(lowbit(0), 0);
    assert_eq!(lowbit(1), 1);
    assert_eq!(lowbit(12), 4);
    assert_eq!(lowbit(7), 1);
    assert_eq!(lowbit(8), 8);
    assert_eq!(lowbit(1 << 63), 1 << 63);
    assert_eq!(lowbit(usize::MAX), 1);
}
