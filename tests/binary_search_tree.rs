use algorithms::binary_search_tree::{BinarySearchNode, BinarySearchTree};

#[test]
fn test_binary_search_tree() {
    let mut t = BinarySearchTree::new();
    t.insert(1);
    t.insert(9);
    t.insert(2);
    t.insert(8);

    assert!(t.find(&2));
    assert!(t.find(&9));
    assert!(!t.find(&7));

    assert_eq!(t.max(), Some(&9));
    assert_eq!(t.min(), Some(&1));
}

#[test]
fn binary_search_tree_counts_and_empty() {
    let mut t = BinarySearchTree::new();
    assert_eq!(t.max(), None);
    assert_eq!(t.min(), None);
    assert!(!t.find(&1));
    t.insert(4);
    t.insert(4);
    assert_eq!(t.root.as_ref().map(|n| n.value), Some((4, 2)));
    let mut n = BinarySearchNode::new(10);
    n.insert(5);
    n.insert(15);
    assert_eq!(*n.min(), 5);
    assert_eq!(*n.max(), 15);
    assert!(n.find(&15));
    assert!(!n.find(&14));
}
