//! An AVL-balanced binary search tree holding a set of `i64` values.
//!
//! Each node stores the height of its subtree; after every change on the way
//! back up a node whose two heights differ by more than one is rotated.
//! The contracts state the set semantics and the search-tree order; the
//! height balance itself is not part of them.
use vstd::prelude::*;

verus! {

/// An AVL tree; empty when `root` is `None`.
pub struct AVLTree {
    root: Option<AVLNode>,
}

/// A node: a value, the stored height of its subtree and two subtrees.
pub struct AVLNode {
    value: i64,
    height: usize,
    left: Option<Box<AVLNode>>,
    right: Option<Box<AVLNode>>,
}

/// The values held by an optional subtree.
pub closed spec fn values_of(t: Option<Box<AVLNode>>) -> Set<i64>
    decreases t,
{
    match t {
        None => Set::empty(),
        Some(n) => values_of(n.left).union(values_of(n.right)).insert(n.value),
    }
}

/// Search-tree order of an optional subtree.
pub closed spec fn sorted_tree(t: Option<Box<AVLNode>>) -> bool
    decreases t,
{
    match t {
        None => true,
        Some(n) => {
            &&& forall|x: i64| values_of(n.left).contains(x) ==> x < n.value
            &&& forall|x: i64| values_of(n.right).contains(x) ==> x > n.value
            &&& sorted_tree(n.left)
            &&& sorted_tree(n.right)
        },
    }
}

/// The stored height of an optional subtree (0 when absent).
pub closed spec fn stored_height(t: Option<Box<AVLNode>>) -> int {
    match t {
        Some(n) => n.height as int,
        None => 0,
    }
}

/// The left stored height minus the right one, limited to the range of `isize`.
pub closed spec fn factor(n: AVLNode) -> int {
    let d = stored_height(n.left) - stored_height(n.right);
    if d > isize::MAX {
        isize::MAX as int
    } else if d < -isize::MAX {
        -isize::MAX
    } else {
        d
    }
}

/// The right child risen in `n`'s place, `n` as its left child over the
/// risen child's former left subtree.
pub closed spec fn rotated_left(n: AVLNode) -> AVLNode {
    let r = n.right.unwrap();
    AVLNode { left: Some(Box::new(AVLNode { right: r.left, ..n })), ..*r }
}

/// The left child risen in `n`'s place, `n` as its right child over the
/// risen child's former right subtree.
pub closed spec fn rotated_right(n: AVLNode) -> AVLNode {
    let l = n.left.unwrap();
    AVLNode { right: Some(Box::new(AVLNode { left: l.right, ..n })), ..*l }
}

/// What `rebalance` makes of `n`: a left side more than one level higher is
/// lifted by a right rotation, first rotating the left child left when its
/// own right side is not lower (and present); the mirror image for the right
/// side; otherwise `n` itself.
pub closed spec fn rebalanced(n: AVLNode) -> AVLNode {
    if factor(n) > 1 {
        let l = *n.left.unwrap();
        let n1 = if factor(l) <= 0 && l.right.is_some() {
            AVLNode { left: Some(Box::new(rotated_left(l))), ..n }
        } else {
            n
        };
        rotated_right(n1)
    } else if factor(n) < -1 {
        let r = *n.right.unwrap();
        let n1 = if factor(r) >= 0 && r.left.is_some() {
            AVLNode { right: Some(Box::new(rotated_right(r))), ..n }
        } else {
            n
        };
        rotated_left(n1)
    } else {
        n
    }
}

impl AVLNode {
    /// The values of this node's subtree.
    pub closed spec fn values(self) -> Set<i64> {
        values_of(Some(Box::new(self)))
    }

    /// Search-tree order of this node's subtree.
    pub closed spec fn sorted(self) -> bool {
        sorted_tree(Some(Box::new(self)))
    }

    /// Whether a left subtree is present.
    pub closed spec fn has_left(self) -> bool {
        self.left.is_some()
    }

    /// Whether a right subtree is present.
    pub closed spec fn has_right(self) -> bool {
        self.right.is_some()
    }

    /// A leaf holding `value`.
    fn new(value: i64) -> (r: Self)
        ensures
            r.values() == set![value],
            r.sorted(),
            r.left.is_none() && r.right.is_none(),
    {
        let r = Self { value, height: 0, left: None, right: None };
        assert(r.values() == values_of(Some(Box::new(r))));
        assert(values_of(r.left) == Set::<i64>::empty());
        assert(values_of(Some(Box::new(r))) == values_of(r.left).union(values_of(r.right)).insert(r.value));
        assert(r.values() =~= set![value]);
        assert(values_of(r.right) == Set::<i64>::empty());
        assert(sorted_tree(r.left) && sorted_tree(r.right));
        assert(sorted_tree(Some(Box::new(r))));
        r
    }

    /// The stored height of the left subtree minus that of the right one,
    /// limited to the range of `isize`.
    fn balance_factor(&self) -> (r: isize)
        ensures
            r == factor(*self),
            r > 0 ==> self.left.is_some(),
            r < 0 ==> self.right.is_some(),
    {
        let hl: usize = match &self.left {
            Some(t) => t.height,
            None => 0,
        };
        let hr: usize = match &self.right {
            Some(t) => t.height,
            None => 0,
        };
        if hl >= hr {
            let d = hl - hr;
            if d > isize::MAX as usize {
                isize::MAX
            } else {
                d as isize
            }
        } else {
            let d = hr - hl;
            if d > isize::MAX as usize {
                -isize::MAX
            } else {
                -(d as isize)
            }
        }
    }

    /// Recomputes the stored height from the children's stored heights.
    fn reset_height(&mut self)
        ensures
            final(self).value == old(self).value,
            final(self).left == old(self).left,
            final(self).right == old(self).right,
    {
        let hl: usize = match &self.left {
            Some(t) => t.height,
            None => 0,
        };
        let hr: usize = match &self.right {
            Some(t) => t.height,
            None => 0,
        };
        let m = if hl >= hr { hl } else { hr };
        self.height = m.saturating_add(1);
    }
}

/// Recomputes the stored height of the root of a present subtree.
fn reset_child(t: &mut Option<Box<AVLNode>>)
    ensures
        final(t).is_some() == old(t).is_some(),
        old(t).is_some() ==> final(t).unwrap().value == old(t).unwrap().value
            && final(t).unwrap().left == old(t).unwrap().left && final(t).unwrap().right == old(
            t,
        ).unwrap().right,
{
    if let Some(mut n) = t.take() {
        n.reset_height();
        *t = Some(n);
    }
}

/// Rotates left: the right child takes the node's place.
pub fn rotate_left(node: AVLNode) -> (r: AVLNode)
    requires
        node.has_right(),
    ensures
        r == rotated_left(node),
        r.values() == node.values(),
        node.sorted() ==> r.sorted(),
{
    let mut node = node;
    let ghost n0 = node;
    let right = node.right.take();
    let mut right = *right.unwrap();
    let ghost c = right;
    node.right = right.left.take();
    right.left = Some(Box::new(node));
    proof {
        let m = right.left.unwrap();
        assert(values_of(right.left) == values_of(m.left).union(values_of(m.right)).insert(m.value));
        assert(values_of(n0.right) == values_of(c.left).union(values_of(c.right)).insert(c.value));
        assert(right.values() =~= n0.values());
        if n0.sorted() {
            assert(sorted_tree(n0.right));
            assert(values_of(n0.right).contains(c.value));
            assert forall|x: i64| values_of(m.right).contains(x) implies x > m.value by {
                assert(values_of(n0.right).contains(x));
            }
            assert(sorted_tree(right.left));
        }
    }
    right
}

/// Rotates right: the left child takes the node's place.
pub fn rotate_right(node: AVLNode) -> (r: AVLNode)
    requires
        node.has_left(),
    ensures
        r == rotated_right(node),
        r.values() == node.values(),
        node.sorted() ==> r.sorted(),
{
    let mut node = node;
    let ghost n0 = node;
    let left = node.left.take();
    let mut left = *left.unwrap();
    let ghost c = left;
    node.left = left.right.take();
    left.right = Some(Box::new(node));
    proof {
        let m = left.right.unwrap();
        assert(values_of(left.right) == values_of(m.left).union(values_of(m.right)).insert(m.value));
        assert(values_of(n0.left) == values_of(c.left).union(values_of(c.right)).insert(c.value));
        assert(left.values() =~= n0.values());
        if n0.sorted() {
            assert(sorted_tree(n0.left));
            assert(values_of(n0.left).contains(c.value));
            assert forall|x: i64| values_of(m.left).contains(x) implies x < m.value by {
                assert(values_of(n0.left).contains(x));
            }
            assert(sorted_tree(left.right));
        }
    }
    left
}

/// Restores balance at `root`: when one side is more than one level higher,
/// a single or a double rotation lifts it.
pub fn rebalance(root: AVLNode) -> (r: AVLNode)
    ensures
        r == rebalanced(root),
        r.values() == root.values(),
        root.sorted() ==> r.sorted(),
{
    let mut root = root;
    let factor = root.balance_factor();
    if factor > 1 {
        let left_factor = root.left.as_ref().unwrap().balance_factor();
        if left_factor <= 0 && root.left.as_ref().unwrap().right.is_some() {
            let ghost r0 = root;
            let l = root.left.take().unwrap();
            let l2 = rotate_left(*l);
            root.left = Some(Box::new(l2));
            assert(root.values() =~= r0.values());
        }
        return rotate_right(root);
    }
    if factor < -1 {
        let right_factor = root.right.as_ref().unwrap().balance_factor();
        if right_factor >= 0 && root.right.as_ref().unwrap().left.is_some() {
            let ghost r0 = root;
            let rt = root.right.take().unwrap();
            let r2 = rotate_right(*rt);
            root.right = Some(Box::new(r2));
            assert(root.values() =~= r0.values());
        }
        return rotate_left(root);
    }
    root
}

/// Inserts `value` below `root` (nothing changes when it is present) and
/// rebalances on the way back up.
pub fn insert(root: AVLNode, value: i64) -> (r: AVLNode)
    requires
        root.sorted(),
    ensures
        r.values() == root.values().insert(value),
        r.sorted(),
    decreases root,
{
    let mut root = root;
    let ghost r0 = root;
    if root.value == value {
        assert(root.values() =~= root.values().insert(value));
        return root;
    } else if root.value > value {
        match root.left.take() {
            None => {
                root.left = Some(Box::new(AVLNode::new(value)));
            },
            Some(node) => {
                root.left = Some(Box::new(insert(*node, value)));
            },
        }
        assert(values_of(root.left) == values_of(r0.left).insert(value));
    } else {
        match root.right.take() {
            None => {
                root.right = Some(Box::new(AVLNode::new(value)));
            },
            Some(node) => {
                root.right = Some(Box::new(insert(*node, value)));
            },
        }
        assert(values_of(root.right) == values_of(r0.right).insert(value));
    }
    assert(root.values() =~= r0.values().insert(value));
    root = rebalance(root);
    let ghost r1 = root;
    reset_child(&mut root.left);
    reset_child(&mut root.right);
    root.reset_height();
    proof {
        lemma_same_links(r1, root);
    }
    root
}

/// Two nodes with the same value and the same subtrees' values and order
/// agree on values and order, whatever their stored heights.
proof fn lemma_same_links(a: AVLNode, b: AVLNode)
    requires
        a.value == b.value,
        a.left.is_some() == b.left.is_some(),
        a.right.is_some() == b.right.is_some(),
        a.left.is_some() ==> ({
            let x = a.left.unwrap();
            let y = b.left.unwrap();
            x.value == y.value && x.left == y.left && x.right == y.right
        }),
        a.right.is_some() ==> ({
            let x = a.right.unwrap();
            let y = b.right.unwrap();
            x.value == y.value && x.left == y.left && x.right == y.right
        }),
    ensures
        b.values() == a.values(),
        b.sorted() == a.sorted(),
{
    assert(values_of(b.left) == values_of(a.left));
    assert(values_of(b.right) == values_of(a.right));
    assert(sorted_tree(b.left) == sorted_tree(a.left));
    assert(sorted_tree(b.right) == sorted_tree(a.right));
}

/// Removes and answers the least value below `root`, rebalancing on the way
/// back up.
fn take_min(root: AVLNode) -> (r: (i64, Option<Box<AVLNode>>))
    requires
        root.sorted(),
    ensures
        root.values().contains(r.0),
        forall|x: i64| root.values().contains(x) ==> r.0 <= x,
        values_of(r.1) == root.values().remove(r.0),
        sorted_tree(r.1),
    decreases root,
{
    let mut root = root;
    let ghost r0 = root;
    if let Some(left) = root.left.take() {
        let (value, rest) = take_min(*left);
        root.left = rest;
        assert(values_of(r0.left).contains(value));
        assert(!values_of(r0.right).contains(value));
        assert(root.values() =~= r0.values().remove(value));
        assert forall|x: i64| r0.values().contains(x) implies value <= x by {
            if values_of(r0.right).contains(x) {
                assert(values_of(r0.left).contains(value));
            }
        }
        root = rebalance(root);
        let ghost r1 = root;
        root.reset_height();
        proof {
            lemma_same_links(r1, root);
        }
        (value, Some(Box::new(root)))
    } else {
        let rest = root.right.take();
        assert(!values_of(r0.right).contains(r0.value));
        assert(values_of(r0.left) == Set::<i64>::empty());
        assert(values_of(rest) =~= r0.values().remove(r0.value));
        (root.value, rest)
    }
}

/// Deletes `value` below `root`; answers what remains.
pub fn delete(root: AVLNode, value: &i64) -> (r: Option<Box<AVLNode>>)
    requires
        root.sorted(),
    ensures
        values_of(r) == root.values().remove(*value),
        sorted_tree(r),
    decreases root,
{
    let mut root = root;
    let ghost r0 = root;
    assert(root.value < *value ==> !values_of(r0.left).contains(*value));
    assert(root.value > *value ==> !values_of(r0.right).contains(*value));
    assert(!values_of(r0.left).contains(r0.value));
    assert(!values_of(r0.right).contains(r0.value));
    if root.value == *value {
        if let Some(right) = root.right.take() {
            let (v, rest) = take_min(*right);
            root.value = v;
            root.right = rest;
            assert(root.values() =~= r0.values().remove(*value));
            assert forall|x: i64| values_of(root.left).contains(x) implies x < v by {
                assert(values_of(r0.right).contains(v));
            }
            root = rebalance(root);
            let ghost r1 = root;
            root.reset_height();
            proof {
                lemma_same_links(r1, root);
            }
            Some(Box::new(root))
        } else {
            assert(values_of(root.left) =~= r0.values().remove(*value));
            root.left
        }
    } else if root.value < *value {
        if let Some(right) = root.right.take() {
            root.right = delete(*right, value);
            let ghost r1 = root;
            root.reset_height();
            proof {
                lemma_same_links(r1, root);
            }
        }
        assert(root.values() =~= r0.values().remove(*value));
        Some(Box::new(root))
    } else {
        if let Some(left) = root.left.take() {
            root.left = delete(*left, value);
            let ghost r1 = root;
            root.reset_height();
            proof {
                lemma_same_links(r1, root);
            }
        }
        assert(root.values() =~= r0.values().remove(*value));
        Some(Box::new(root))
    }
}

impl View for AVLTree {
    type V = Set<i64>;

    closed spec fn view(&self) -> Set<i64> {
        match self.root {
            None => Set::empty(),
            Some(n) => n.values(),
        }
    }
}

impl AVLTree {
    /// Search-tree order holds throughout.
    pub closed spec fn wf(&self) -> bool {
        match self.root {
            None => true,
            Some(n) => n.sorted(),
        }
    }

    /// An empty tree.
    pub fn new() -> (r: Self)
        ensures
            r.wf(),
            r@ == Set::<i64>::empty(),
    {
        Self { root: None }
    }

    /// Whether the tree holds no value.
    pub fn is_empty(&self) -> (r: bool)
        ensures
            r == (self@ == Set::<i64>::empty()),
    {
        match &self.root {
            None => true,
            Some(n) => {
                assert(n.values().contains(n.value));
                false
            },
        }
    }

    /// Adds `value`; a present value stays once.
    pub fn insert(&mut self, value: i64)
        requires
            old(self).wf(),
        ensures
            final(self).wf(),
            final(self)@ == old(self)@.insert(value),
    {
        match self.root.take() {
            None => {
                self.root = Some(AVLNode::new(value));
            },
            Some(node) => {
                let root = insert(node, value);
                self.root = Some(root);
            },
        }
    }

    /// Removes `value` if present.
    pub fn delete(&mut self, value: &i64)
        requires
            old(self).wf(),
        ensures
            final(self).wf(),
            final(self)@ == old(self)@.remove(*value),
    {
        if let Some(node) = self.root.take() {
            match delete(node, value) {
                None => {
                    self.root = None;
                },
                Some(n) => {
                    self.root = Some(*n);
                },
            }
        } else {
            assert(Set::<i64>::empty().remove(*value) =~= Set::<i64>::empty());
        }
    }

    /// The value at the root, if any.
    pub fn root_value(&self) -> (r: Option<i64>)
        ensures
            r.is_some() == (self@ != Set::<i64>::empty()),
            r.is_some() ==> self@.contains(r.unwrap()),
    {
        match &self.root {
            None => None,
            Some(n) => {
                assert(n.values().contains(n.value));
                Some(n.value)
            },
        }
    }
}

} // verus!
