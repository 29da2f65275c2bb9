use algorithms::avl_tree::AVLTree;

#[test]
fn test_avl_tree() {
    let mut t = AVLTree::new();

    t.insert(1);
    t.insert(8);
    t.insert(2);
    t.insert(6);
    t.insert(3);
    t.insert(4);
    t.insert(9);
    t.insert(7);

    assert_eq!(t.root_value(), Some(3));

    t.delete(&8);
    t.delete(&2);
    t.delete(&3);

    assert_eq!(t.root_value(), Some(6));
}

#[test]
fn avl_tree_empty_and_repeat() {
    let mut t = AVLTree::new();
    assert!(t.is_empty());
    t.delete(&5);
    assert!(t.is_empty());
    t.insert(5);
    t.insert(5);
    assert_eq!(t.root_value(), Some(5));
    t.delete(&5);
    assert!(t.is_empty());
    assert_eq!(t.root_value(), None);
}
