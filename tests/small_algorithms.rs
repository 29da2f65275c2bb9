use algorithms::array::majority_vote;
use algorithms::binary_tree::BinaryTree;
use algorithms::josephus::josephus_linear;

#[test]
fn test_majority_vote() {
    assert_eq!(majority_vote(&[1, 2, 1]), &1);
    assert_eq!(majority_vote(&[1, 1, 1]), &1);
    assert_eq!(majority_vote(&[0, 1, 1]), &1);
    assert_eq!(majority_vote(&[1, 2, 2, 3]), &2);
    assert_eq!(majority_vote(&[1, 3, 1, 2, 3, 3, 3, 4, 3]), &3);
}

#[test]
fn majority_vote_single_element() {
    assert_eq!(majority_vote(&[42]), &42);
}

#[test]
fn test_josephus() {
    assert_eq!(josephus_linear(5, 2), 2);
    assert_eq!(josephus_linear(5, 1), 4);
    assert_eq!(josephus_linear(66, 100), 6);
    assert_eq!(josephus_linear(1000, 123), 1);
}

#[test]
fn josephus_edge_cases() {
    assert_eq!(josephus_linear(0, 3), 0);
    assert_eq!(josephus_linear(1, 3), 0);
    assert_eq!(josephus_linear(7, usize::MAX), josephus_linear(7, usize::MAX % 420420));
}

#[test]
fn binary_tree_new_is_a_leaf() {
    let mut t = BinaryTree::new(3);
    assert_eq!(t.value, 3);
    assert!(t.left.is_none() && t.right.is_none());
    t.left = Some(Box::new(BinaryTree::new(1)));
    assert_eq!(t.left.as_ref().map(|n| n.value), Some(1));
}
