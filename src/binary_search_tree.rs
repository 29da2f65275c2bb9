//! An unbalanced binary search tree of `i64` values; each node counts how
//! many times its value was inserted.
use vstd::prelude::*;

verus! {

/// A node: the value with its insertion count, and two subtrees.
pub struct BinarySearchNode {
    pub value: (i64, usize),
    pub left: Option<Box<BinarySearchNode>>,
    pub right: Option<Box<BinarySearchNode>>,
}

/// A binary search tree; empty when `root` is `None`.
pub struct BinarySearchTree {
    pub root: Option<BinarySearchNode>,
}

/// The values held by an optional subtree.
pub open spec fn keys_of(t: Option<Box<BinarySearchNode>>) -> Set<i64>
    decreases t,
{
    match t {
        None => Set::empty(),
        Some(n) => keys_of(n.left).union(keys_of(n.right)).insert(n.value.0),
    }
}

/// Search-tree order of an optional subtree.
pub open spec fn ordered_keys(t: Option<Box<BinarySearchNode>>) -> bool
    decreases t,
{
    match t {
        None => true,
        Some(n) => {
            &&& forall|x: i64| keys_of(n.left).contains(x) ==> x < n.value.0
            &&& forall|x: i64| keys_of(n.right).contains(x) ==> x > n.value.0
            &&& ordered_keys(n.left)
            &&& ordered_keys(n.right)
        },
    }
}

impl BinarySearchNode {
    /// The values of this node's subtree.
    pub open spec fn keys(self) -> Set<i64> {
        keys_of(Some(Box::new(self)))
    }

    /// Search-tree order of this node's subtree.
    pub open spec fn ordered(self) -> bool {
        ordered_keys(Some(Box::new(self)))
    }

    /// A leaf holding `value` once.
    pub fn new(value: i64) -> (r: Self)
        ensures
            r.keys() == set![value],
            r.ordered(),
            r.value == (value, 1usize),
    {
        let r = Self { value: (value, 1), left: None, right: None };
        assert(keys_of(r.left) == Set::<i64>::empty());
        assert(keys_of(r.right) == Set::<i64>::empty());
        assert(r.keys() =~= set![value]);
        assert(ordered_keys(r.left) && ordered_keys(r.right));
        r
    }

    /// Whether `v` is in this subtree.
    pub fn find(&self, v: &i64) -> (r: bool)
        requires
            self.ordered(),
        ensures
            r == self.keys().contains(*v),
        decreases *self,
    {
        if self.value.0 == *v {
            true
        } else if self.value.0 < *v {
            assert(!keys_of(self.left).contains(*v));
            match &self.right {
                None => {
                    assert(keys_of(self.right) == Set::<i64>::empty());
                    false
                },
                Some(node) => node.find(v),
            }
        } else {
            assert(!keys_of(self.right).contains(*v));
            match &self.left {
                None => {
                    assert(keys_of(self.left) == Set::<i64>::empty());
                    false
                },
                Some(node) => node.find(v),
            }
        }
    }

    /// Adds `v` below this node, or counts one more insertion of an equal
    /// value (the count stops at `usize::MAX`).
    pub fn insert(&mut self, v: i64)
        requires
            old(self).ordered(),
        ensures
            final(self).ordered(),
            final(self).keys() == old(self).keys().insert(v),
        decreases *old(self),
    {
        let ghost s0 = *self;
        if self.value.0 == v {
            self.value.1 = self.value.1.saturating_add(1);
            assert(self.keys() =~= s0.keys().insert(v));
        } else if self.value.0 < v {
            match self.right.take() {
                None => {
                    self.right = Some(Box::new(Self::new(v)));
                },
                Some(node) => {
                    let mut node = node;
                    node.insert(v);
                    self.right = Some(node);
                },
            }
            assert(keys_of(self.right) =~= keys_of(s0.right).insert(v));
            assert(self.keys() =~= s0.keys().insert(v));
        } else {
            match self.left.take() {
                None => {
                    self.left = Some(Box::new(Self::new(v)));
                },
                Some(node) => {
                    let mut node = node;
                    node.insert(v);
                    self.left = Some(node);
                },
            }
            assert(keys_of(self.left) =~= keys_of(s0.left).insert(v));
            assert(self.keys() =~= s0.keys().insert(v));
        }
    }

    /// The least value of this subtree (its leftmost node's).
    pub fn min(&self) -> (r: &i64)
        requires
            self.ordered(),
        ensures
            self.keys().contains(*r),
            forall|x: i64| self.keys().contains(x) ==> *r <= x,
        decreases *self,
    {
        match &self.left {
            None => {
                assert(keys_of(self.left) == Set::<i64>::empty());
                assert forall|x: i64| self.keys().contains(x) implies self.value.0 <= x by {
                    if keys_of(self.right).contains(x) {
                        assert(x > self.value.0);
                    }
                }
                &self.value.0
            },
            Some(l) => {
                let m = l.min();
                assert(keys_of(self.left).contains(*m));
                assert forall|x: i64| self.keys().contains(x) implies *m <= x by {
                    if keys_of(self.right).contains(x) {
                        assert(*m < self.value.0);
                    }
                }
                m
            },
        }
    }

    /// The greatest value of this subtree (its rightmost node's).
    pub fn max(&self) -> (r: &i64)
        requires
            self.ordered(),
        ensures
            self.keys().contains(*r),
            forall|x: i64| self.keys().contains(x) ==> *r >= x,
        decreases *self,
    {
        match &self.right {
            None => {
                assert(keys_of(self.right) == Set::<i64>::empty());
                assert forall|x: i64| self.keys().contains(x) implies self.value.0 >= x by {
                    if keys_of(self.left).contains(x) {
                        assert(x < self.value.0);
                    }
                }
                &self.value.0
            },
            Some(l) => {
                let m = l.max();
                assert(keys_of(self.right).contains(*m));
                assert forall|x: i64| self.keys().contains(x) implies *m >= x by {
                    if keys_of(self.left).contains(x) {
                        assert(*m > self.value.0);
                    }
                }
                m
            },
        }
    }
}

impl View for BinarySearchTree {
    type V = Set<i64>;

    open spec fn view(&self) -> Set<i64> {
        match self.root {
            None => Set::empty(),
            Some(n) => n.keys(),
        }
    }
}

impl BinarySearchTree {
    /// Search-tree order holds throughout.
    pub open spec fn wf(&self) -> bool {
        match self.root {
            None => true,
            Some(n) => n.ordered(),
        }
    }

    /// An empty tree.
    pub fn new() -> (r: Self)
        ensures
            r.wf(),
            r@ == Set::<i64>::empty(),
    {
        BinarySearchTree { root: None }
    }

    /// Adds `value` (an equal value counts once more).
    pub fn insert(&mut self, value: i64)
        requires
            old(self).wf(),
        ensures
            final(self).wf(),
            final(self)@ == old(self)@.insert(value),
    {
        match self.root.take() {
            None => {
                self.root = Some(BinarySearchNode::new(value));
            },
            Some(node) => {
                let mut node = node;
                node.insert(value);
                self.root = Some(node);
            },
        }
    }

    /// Whether `value` is in the tree.
    pub fn find(&self, value: &i64) -> (r: bool)
        requires
            self.wf(),
        ensures
            r == self@.contains(*value),
    {
        match &self.root {
            None => false,
            Some(node) => node.find(value),
        }
    }

    /// The greatest value, or `None` when empty.
    pub fn max(&self) -> (r: Option<&i64>)
        requires
            self.wf(),
        ensures
            r.is_none() == (self@ == Set::<i64>::empty()),
            r.is_some() ==> self@.contains(*r.unwrap()) && forall|x: i64|
                self@.contains(x) ==> *r.unwrap() >= x,
    {
        match &self.root {
            None => None,
            Some(node) => Some(node.max()),
        }
    }

    /// The least value, or `None` when empty.
    pub fn min(&self) -> (r: Option<&i64>)
        requires
            self.wf(),
        ensures
            r.is_none() == (self@ == Set::<i64>::empty()),
            r.is_some() ==> self@.contains(*r.unwrap()) && forall|x: i64|
                self@.contains(x) ==> *r.unwrap() <= x,
    {
        match &self.root {
            None => None,
            Some(node) => Some(node.min()),
        }
    }
}

} // verus!
