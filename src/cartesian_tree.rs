//! Cartesian trees: a search tree on the keys that is also a min-heap on the
//! weights, built in one pass over the pairs sorted by key.
use vstd::prelude::*;
use vstd::seq_lib::{to_multiset_contains, to_multiset_update};

verus! {

/// A node: key `k`, weight `w`, and two subtrees.
pub struct Node {
    pub k: usize,
    pub w: i64,
    pub left: Option<Box<Node>>,
    pub right: Option<Box<Node>>,
}

/// A Cartesian tree; empty when `root` is `None`.
pub struct CartesianTree {
    pub root: Option<Box<Node>>,
}

/// The (key, weight) pairs in in-order sequence.
pub open spec fn inorder(t: Option<Box<Node>>) -> Seq<(usize, i64)>
    decreases t,
{
    match t {
        None => Seq::empty(),
        Some(n) => inorder(n.left).push((n.k, n.w)) + inorder(n.right),
    }
}

/// No child weighs less than its parent.
pub open spec fn min_heap(t: Option<Box<Node>>) -> bool
    decreases t,
{
    match t {
        None => true,
        Some(n) => {
            &&& (n.left is Some ==> n.left.unwrap().w >= n.w)
            &&& (n.right is Some ==> n.right.unwrap().w >= n.w)
            &&& min_heap(n.left)
            &&& min_heap(n.right)
        },
    }
}

/// Keys in non-decreasing order.
pub open spec fn sorted_by_key(s: Seq<(usize, i64)>) -> bool {
    forall|i: int, j: int| 0 <= i <= j < s.len() ==> s[i].0 <= s[j].0
}

fn new_node(x: (usize, i64)) -> (r: Box<Node>)
    ensures
        r.k == x.0 && r.w == x.1 && r.left is None && r.right is None,
{
    Box::new(Node { k: x.0, w: x.1, left: None, right: None })
}

/// Adds `x` after every pair of `root` in in-order sequence, on the right
/// spine: it goes below the last spine node not heavier than it (at the top,
/// lighter than it), and what hung there becomes its left subtree.
fn insert_into_right(root: Option<Box<Node>>, x: (usize, i64), top: bool) -> (r: Box<Node>)
    requires
        min_heap(root),
    ensures
        min_heap(Some(r)),
        inorder(Some(r)) == inorder(root).push(x),
        r.w == x.1 || (root is Some && r.w == root.unwrap().w),
    decreases root,
{
    match root {
        None => {
            let r = new_node(x);
            assert(inorder(r.left) == Seq::<(usize, i64)>::empty());
            assert(inorder(r.right) == Seq::<(usize, i64)>::empty());
            assert(inorder(Some(r)) =~= seq![x]);
            assert(min_heap(r.left) && min_heap(r.right));
            r
        },
        Some(n) => {
            let mut n = n;
            if (top && n.w > x.1) || (!top && n.w >= x.1) {
                let mut node = new_node(x);
                let ghost n0 = n;
                node.left = Some(n);
                assert(inorder(node.right) == Seq::<(usize, i64)>::empty());
                assert(inorder(node.left) == inorder(Some(n0)));
                assert(inorder(Some(node)) =~= inorder(Some(n0)).push(x));
                assert(min_heap(node.right));
                node
            } else {
                let ghost n0 = n;
                let right = n.right.take();
                let r2 = insert_into_right(right, x, false);
                n.right = Some(r2);
                assert(inorder(Some(n)) =~= inorder(Some(n0)).push(x));
                n
            }
        },
    }
}

/// Sorts the pairs by key, keeping the order of equal keys.
fn sort_by_key(xs: &mut [(usize, i64)])
    ensures
        sorted_by_key(final(xs)@),
        final(xs)@.to_multiset() == old(xs)@.to_multiset(),
{
    let n = xs.len();
    let mut i: usize = 1;
    if n <= 1 {
        return;
    }
    while i < n
        invariant
            n == xs@.len(),
            1 <= i <= n,
            xs@.to_multiset() == old(xs)@.to_multiset(),
            forall|a: int, b: int| 0 <= a <= b < i ==> xs@[a].0 <= xs@[b].0,
        decreases n - i,
    {
        let mut j = i;
        while j > 0 && xs[j - 1].0 > xs[j].0
            invariant
                n == xs@.len(),
                i < n,
                j <= i,
                xs@.to_multiset() == old(xs)@.to_multiset(),
                forall|a: int, b: int| 0 <= a <= b < j ==> xs@[a].0 <= xs@[b].0,
                forall|a: int, b: int| j <= a <= b <= i ==> xs@[a].0 <= xs@[b].0,
                forall|a: int, b: int| 0 <= a < j < b <= i ==> xs@[a].0 <= xs@[b].0,
            decreases j,
        {
            let ghost s0 = xs@;
            let a = xs[j];
            let b = xs[j - 1];
            xs[j] = b;
            xs[j - 1] = a;
            proof {
                let s1 = s0.update(j as int, b);
                to_multiset_update(s0, j as int, b);
                to_multiset_update(s1, j - 1, a);
                broadcast use vstd::multiset::group_multiset_axioms;
                assert(s0.contains(a));
                to_multiset_contains(s0, a);
                assert(s1[j - 1] == b);
                assert(s1.update(j - 1, a).to_multiset() =~= s0.to_multiset());
            }
            j -= 1;
        }
        i += 1;
    }
}

/// Sorts `xs` by key and builds the Cartesian tree of the pairs: its
/// in-order sequence is the sorted pairs and no child weighs less than its
/// parent.
pub fn build_cartesian_tree(xs: &mut [(usize, i64)]) -> (t: CartesianTree)
    ensures
        sorted_by_key(final(xs)@),
        final(xs)@.to_multiset() == old(xs)@.to_multiset(),
        inorder(t.root) == final(xs)@,
        min_heap(t.root),
{
    sort_by_key(xs);
    let mut root: Option<Box<Node>> = None;
    let mut i: usize = 0;
    while i < xs.len()
        invariant
            i <= xs@.len(),
            min_heap(root),
            inorder(root) == xs@.subrange(0, i as int),
        decreases xs@.len() - i,
    {
        let r = insert_into_right(root, xs[i], true);
        root = Some(r);
        assert(xs@.subrange(0, i + 1) =~= xs@.subrange(0, i as int).push(xs@[i as int]));
        i += 1;
    }
    assert(xs@.subrange(0, xs@.len() as int) =~= xs@);
    CartesianTree { root }
}

} // verus!
