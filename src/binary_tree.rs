//! A plain binary tree node with owned subtrees.
use vstd::prelude::*;

verus! {

/// A binary tree: a value and two optional subtrees.
pub struct BinaryTree<T> {
    pub value: T,
    pub left: Option<Box<BinaryTree<T>>>,
    pub right: Option<Box<BinaryTree<T>>>,
}

impl<T> BinaryTree<T> {
    /// A single node holding `value`.
    pub fn new(value: T) -> (r: Self)
        ensures
            r.value == value,
            r.left.is_none(),
            r.right.is_none(),
    {
        Self { value, left: None, right: None }
    }
}

} // verus!
