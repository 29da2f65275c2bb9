use algorithms::binary_heap::build_heap;

#[test]
fn test_binary_heap() {
    let vs = [1, 5, 2, 9, 4, 7];
    let mut h = build_heap(&vs);

    assert_eq!(h.pop(), Some(9));
    assert_eq!(h.pop(), Some(7));
    assert_eq!(h.pop(), Some(5));
    assert_eq!(h.pop(), Some(4));

    h.push(3);
    h.push(0);
    h.push(7);

    assert_eq!(h.pop(), Some(7));
    assert_eq!(h.pop(), Some(3));
    assert_eq!(h.pop(), Some(2));
    assert_eq!(h.pop(), Some(1));
    assert_eq!(h.pop(), Some(0));
    assert_eq!(h.pop(), None);
}

#[test]
fn binary_heap_empty_and_duplicates() {
    let mut h = build_heap(&[]);
    assert_eq!(h.pop(), None);
    h.push(-4);
    h.push(-4);
    h.push(10);
    assert_eq!(h.pop(), Some(10));
    assert_eq!(h.pop(), Some(-4));
    assert_eq!(h.pop(), Some(-4));
    assert_eq!(h.pop(), None);
}
