use algorithms::cartesian_tree::build_cartesian_tree;

#[test]
fn test_cartesian_tree_build() {
    let mut xs = vec![9, 3, 7, 1, 8, 12, 10, 20, 15, 18, 5]
        .into_iter()
        .enumerate()
        .map(|(i, v)| (i, v))
        .collect::<Vec<_>>();

    let root = build_cartesian_tree(&mut xs).root.unwrap();

    assert_eq!(root.w, 1);

    let (l1, r1) = (root.left.unwrap(), root.right.unwrap());
    assert_eq!(l1.w, 3);
    assert_eq!(r1.w, 5);

    let l2 = r1.left.unwrap();
    assert_eq!(l2.w, 8);

    let l3 = l2.right.unwrap();
    assert_eq!(l3.w, 10);

    let l4 = l3.right.unwrap();
    assert_eq!(l4.w, 15);

    let l5 = l4.right.unwrap();
    assert_eq!(l5.w, 18);
}

#[test]
fn cartesian_tree_sorts_input_and_handles_empty() {
    let mut empty: Vec<(usize, i64)> = vec![];
    assert!(build_cartesian_tree(&mut empty).root.is_none());
    let mut xs = vec![(3, 5), (1, 7), (2, 6)];
    let t = build_cartesian_tree(&mut xs);
    assert_eq!(xs, vec![(1, 7), (2, 6), (3, 5)]);
    let root = t.root.unwrap();
    assert_eq!((root.k, root.w), (3, 5));
    let l = root.left.unwrap();
    assert_eq!((l.k, l.w), (2, 6));
    assert_eq!(l.left.unwrap().k, 1);
}
