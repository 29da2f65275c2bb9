use algorithms::sparse_table::{init, max};

#[test]
fn test_sparse_table_max() {
    let a = vec![3, 5, 7, 2, 1, 9];
    let f = init(&a);

    assert_eq!(max(&f, 0, 3), 7);
    assert_eq!(max(&f, 3, 4), 2);
    assert_eq!(max(&f, 4, 4), 1);
    assert_eq!(max(&f, 0, 5), 9);
}

#[test]
fn sparse_table_every_range() {
    let a: Vec<isize> = vec![-4, 12, 0, 7, 7, -30, 25, 1, 3, 8, -2];
    let f = init(&a);
    for l in 0..a.len() {
        for r in l..a.len() {
            assert_eq!(max(&f, l, r), *a[l..=r].iter().max().unwrap());
        }
    }
    let one = init(&[5]);
    assert_eq!(max(&one, 0, 0), 5);
}
