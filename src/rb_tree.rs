//! A red-black tree mapping `u64` keys to values.
//!
//! Nodes own their children through `Box`; the upward walk of the classic
//! bottom-up repair is expressed as the return path of the recursion, so no
//! parent links are stored. Every public operation keeps the red-black
//! invariants, which `RBTree::wf` states.
use vstd::arithmetic::power2::{
    lemma2_to64, lemma_pow2_adds, lemma_pow2_strictly_increases, lemma_pow2_unfold, pow2,
};
use vstd::map::Map;
use vstd::prelude::*;

verus! {

/// The color tag of a node. An absent child counts as `Black`.
#[derive(Clone, Copy, PartialEq, Eq, Debug, Structural)]
pub enum Color {
    Red,
    Black,
}

/// A side of a node; also the direction of a rotation.
#[derive(Clone, Copy, PartialEq, Eq, Debug, Structural)]
pub enum Dir {
    Left,
    Right,
}

/// A tree node: a key with its value, the node's color and the two owned
/// subtrees.
pub struct Node<V> {
    pub color: Color,
    pub key: u64,
    pub value: V,
    pub left: Option<Box<Node<V>>>,
    pub right: Option<Box<Node<V>>>,
}

/// The color of a subtree's root; the empty subtree is black.
pub open spec fn color_of<V>(t: Option<Box<Node<V>>>) -> Color {
    match t {
        None => Color::Black,
        Some(n) => n.color,
    }
}

/// The keys held in a subtree.
pub open spec fn elems<V>(t: Option<Box<Node<V>>>) -> Set<u64>
    decreases t,
{
    match t {
        None => Set::empty(),
        Some(n) => elems(n.left).union(elems(n.right)).insert(n.key),
    }
}

/// The key-to-value map held by a subtree.
pub open spec fn content<V>(t: Option<Box<Node<V>>>) -> Map<u64, V>
    decreases t,
{
    match t {
        None => Map::empty(),
        Some(n) => content(n.left).union_prefer_right(content(n.right)).insert(n.key, n.value),
    }
}

/// Search-tree order: keys on the left below the node's key, keys on the
/// right above it.
pub open spec fn ordered<V>(t: Option<Box<Node<V>>>) -> bool
    decreases t,
{
    match t {
        None => true,
        Some(n) => {
            &&& forall|x: u64| elems(n.left).contains(x) ==> x < n.key
            &&& forall|x: u64| elems(n.right).contains(x) ==> x > n.key
            &&& ordered(n.left)
            &&& ordered(n.right)
        },
    }
}

/// Black height: the black nodes on the leftmost path, the node itself included.
pub open spec fn bh<V>(t: Option<Box<Node<V>>>) -> nat
    decreases t,
{
    match t {
        None => 0,
        Some(n) => bh(n.left) + if n.color == Color::Black { 1nat } else { 0nat },
    }
}

/// Every node's two subtrees have the same black height, so every path from a
/// node down to an absent child meets the same number of black nodes.
pub open spec fn balanced<V>(t: Option<Box<Node<V>>>) -> bool
    decreases t,
{
    match t {
        None => true,
        Some(n) => bh(n.left) == bh(n.right) && balanced(n.left) && balanced(n.right),
    }
}

/// No red node has a red child.
pub open spec fn red_ok<V>(t: Option<Box<Node<V>>>) -> bool
    decreases t,
{
    match t {
        None => true,
        Some(n) => {
            &&& (n.color == Color::Red ==> color_of(n.left) == Color::Black && color_of(
                n.right,
            ) == Color::Black)
            &&& red_ok(n.left)
            &&& red_ok(n.right)
        },
    }
}

/// A valid subtree of a red-black tree (its root may be red).
pub open spec fn rb<V>(t: Option<Box<Node<V>>>) -> bool {
    ordered(t) && balanced(t) && red_ok(t)
}

/// The number of nodes.
pub open spec fn size<V>(t: Option<Box<Node<V>>>) -> nat
    decreases t,
{
    match t {
        None => 0,
        Some(n) => 1 + size(n.left) + size(n.right),
    }
}

/// The number of nodes on the longest path from the root down to an absent child.
pub open spec fn height<V>(t: Option<Box<Node<V>>>) -> nat
    decreases t,
{
    match t {
        None => 0,
        Some(n) => 1 + if height(n.left) >= height(n.right) {
            height(n.left)
        } else {
            height(n.right)
        },
    }
}

/// The keys in in-order traversal order.
pub open spec fn inorder<V>(t: Option<Box<Node<V>>>) -> Seq<u64>
    decreases t,
{
    match t {
        None => Seq::empty(),
        Some(n) => inorder(n.left).push(n.key) + inorder(n.right),
    }
}

/// The node that a rotation of `n` toward `d` produces: the child opposite `d`
/// rises to the top and `n` becomes its child on side `d`, taking over the
/// risen child's inner subtree. Colors travel with the nodes.
pub open spec fn rotated<V>(n: Node<V>, d: Dir) -> Node<V>
    recommends
        d == Dir::Left ==> n.right.is_some(),
        d == Dir::Right ==> n.left.is_some(),
{
    match d {
        Dir::Left => {
            let r = n.right.unwrap();
            let lowered = Node {
                color: n.color,
                key: n.key,
                value: n.value,
                left: n.left,
                right: r.left,
            };
            Node {
                color: r.color,
                key: r.key,
                value: r.value,
                left: Some(Box::new(lowered)),
                right: r.right,
            }
        },
        Dir::Right => {
            let l = n.left.unwrap();
            let lowered = Node {
                color: n.color,
                key: n.key,
                value: n.value,
                left: l.right,
                right: n.right,
            };
            Node {
                color: l.color,
                key: l.key,
                value: l.value,
                left: l.left,
                right: Some(Box::new(lowered)),
            }
        },
    }
}

/// Rotates `node` toward `dir`: the child on the other side takes the node's
/// place, and the node becomes that child's child on side `dir`.
/// No color changes.
pub fn rotate<V>(node: Box<Node<V>>, dir: &Dir) -> (r: Box<Node<V>>)
    requires
        *dir == Dir::Left ==> node.right.is_some(),
        *dir == Dir::Right ==> node.left.is_some(),
    ensures
        *r == rotated(*node, *dir),
{
    let mut node = node;
    match dir {
        Dir::Left => {
            let mut right = node.right.take().unwrap();
            node.right = right.left.take();
            right.left = Some(node);
            right
        },
        Dir::Right => {
            let mut left = node.left.take().unwrap();
            node.left = left.right.take();
            left.right = Some(node);
            left
        },
    }
}


/// A red root whose children are valid subtrees, not both red: the shape an
/// insertion below a red node hands back, one red-red pair at most, at the top.
pub open spec fn infra<V>(t: Option<Box<Node<V>>>) -> bool {
    match t {
        None => false,
        Some(n) => {
            &&& n.color == Color::Red
            &&& red_ok(n.left)
            &&& red_ok(n.right)
            &&& !(color_of(n.left) == Color::Red && color_of(n.right) == Color::Red)
        },
    }
}

/// The node with color `c`.
pub open spec fn painted<V>(n: Node<V>, c: Color) -> Node<V> {
    Node { color: c, ..n }
}

/// The repair that `fix_insert_left` makes at `g`: nothing unless the left
/// child and one of its children are both red; then a recoloring when the
/// right child (the uncle) is red, else one or two rotations and a
/// recoloring of the risen node (black) and of `g` (red).
pub open spec fn fix_left_spec<V>(g: Node<V>) -> Node<V> {
    if color_of(g.left) != Color::Red {
        g
    } else {
        let p = *g.left.unwrap();
        let outer = color_of(p.left) == Color::Red;
        let inner = color_of(p.right) == Color::Red;
        if !outer && !inner {
            g
        } else if color_of(g.right) == Color::Red {
            Node {
                color: Color::Red,
                left: Some(Box::new(painted(p, Color::Black))),
                right: Some(Box::new(painted(*g.right.unwrap(), Color::Black))),
                ..g
            }
        } else {
            let g1 = if inner {
                Node { left: Some(Box::new(rotated(p, Dir::Left))), ..g }
            } else {
                g
            };
            let top = rotated(g1, Dir::Right);
            Node {
                color: Color::Black,
                right: Some(Box::new(painted(*top.right.unwrap(), Color::Red))),
                ..top
            }
        }
    }
}

/// The mirror image of `fix_left_spec`, for `fix_insert_right`.
pub open spec fn fix_right_spec<V>(g: Node<V>) -> Node<V> {
    if color_of(g.right) != Color::Red {
        g
    } else {
        let p = *g.right.unwrap();
        let outer = color_of(p.right) == Color::Red;
        let inner = color_of(p.left) == Color::Red;
        if !outer && !inner {
            g
        } else if color_of(g.left) == Color::Red {
            Node {
                color: Color::Red,
                right: Some(Box::new(painted(p, Color::Black))),
                left: Some(Box::new(painted(*g.left.unwrap(), Color::Black))),
                ..g
            }
        } else {
            let g1 = if inner {
                Node { right: Some(Box::new(rotated(p, Dir::Right))), ..g }
            } else {
                g
            };
            let top = rotated(g1, Dir::Left);
            Node {
                color: Color::Black,
                left: Some(Box::new(painted(*top.left.unwrap(), Color::Red))),
                ..top
            }
        }
    }
}

/// The subtree that inserting `k` with `v` below `t` produces: a red leaf at
/// the search position, or the value replaced in place at an equal key,
/// with the repair made at every node on the way back up.
pub open spec fn ins<V>(t: Option<Box<Node<V>>>, k: u64, v: V) -> Node<V>
    decreases t,
{
    match t {
        None => Node { color: Color::Red, key: k, value: v, left: None, right: None },
        Some(n) => if k == n.key {
            Node { value: v, ..*n }
        } else if k < n.key {
            fix_left_spec(Node { left: Some(Box::new(ins(n.left, k, v))), ..*n })
        } else {
            fix_right_spec(Node { right: Some(Box::new(ins(n.right, k, v))), ..*n })
        },
    }
}

/// The subtree with the value at key `k` replaced by `v`, all else as it was.
pub open spec fn set_value<V>(t: Option<Box<Node<V>>>, k: u64, v: V) -> Option<Box<Node<V>>>
    decreases t,
{
    match t {
        None => None,
        Some(n) => if k == n.key {
            Some(Box::new(Node { value: v, ..*n }))
        } else if k < n.key {
            Some(Box::new(Node { left: set_value(n.left, k, v), ..*n }))
        } else {
            Some(Box::new(Node { right: set_value(n.right, k, v), ..*n }))
        },
    }
}

/// Replacing a value changes no color.
proof fn lemma_set_value_colors<V>(t: Option<Box<Node<V>>>, k: u64, v: V)
    ensures
        color_of(set_value(t, k, v)) == color_of(t),
        red_ok(set_value(t, k, v)) == red_ok(t),
    decreases t,
{
    match t {
        None => {},
        Some(n) => {
            lemma_set_value_colors(n.left, k, v);
            lemma_set_value_colors(n.right, k, v);
        },
    }
}

/// The color of a subtree's root; an absent subtree is black.
fn colorof<V>(t: &Option<Box<Node<V>>>) -> (c: Color)
    ensures
        c == color_of(*t),
{
    match t {
        None => Color::Black,
        Some(n) => n.color,
    }
}

/// Sets the color of the root of a present subtree.
fn paint<V>(t: &mut Option<Box<Node<V>>>, c: Color)
    requires
        old(t).is_some(),
    ensures
        final(t).is_some(),
        *final(t).unwrap() == (Node { color: c, ..*old(t).unwrap() }),
{
    let mut n = t.take().unwrap();
    n.color = c;
    *t = Some(n);
}

/// Repairs node `g` after an insertion into its left subtree.
///
/// With `p` the left child and `u` the right one (the uncle of `p`'s
/// children): when `p` and one of its children are both red, either `p` and a
/// red `u` turn black and `g` red, or (a black `u`) `p` is first rotated so
/// that the red child is on its left, then `g` is rotated right, the risen
/// node turns black and `g` red.
fn fix_insert_left<V>(g: Box<Node<V>>) -> (r: Box<Node<V>>)
    requires
        ordered(Some(g)),
        balanced(g.left),
        balanced(g.right),
        bh(g.left) == bh(g.right),
        red_ok(g.right),
        red_ok(g.left) || infra(g.left),
        g.color == Color::Red ==> color_of(g.right) == Color::Black && red_ok(g.left),
    ensures
        elems(Some(r)) == elems(Some(g)),
        content(Some(r)) == content(Some(g)),
        ordered(Some(r)),
        balanced(Some(r)),
        bh(Some(r)) == bh(Some(g)),
        size(Some(r)) == size(Some(g)),
        g.color == Color::Black ==> red_ok(Some(r)),
        g.color == Color::Red ==> infra(Some(r)),
        *r == fix_left_spec(*g),
        red_ok(g.left) ==> r == g,
{
    let mut g = g;
    if colorof(&g.left) != Color::Red {
        return g;
    }
    let outer_red = colorof(&g.left.as_ref().unwrap().left) == Color::Red;
    let inner_red = colorof(&g.left.as_ref().unwrap().right) == Color::Red;
    if !outer_red && !inner_red {
        assert(red_ok(g.left));
        return g;
    }
    if colorof(&g.right) == Color::Red {
        let ghost g0 = g;
        paint(&mut g.left, Color::Black);
        paint(&mut g.right, Color::Black);
        g.color = Color::Red;
        proof {
            lemma_recolor(*g0.left.unwrap(), Color::Black);
            lemma_recolor(*g0.right.unwrap(), Color::Black);
            assert(red_ok(g.left) && red_ok(g.right));
        }
        return g;
    }
    let ghost g0 = g;
    proof {
        reveal_with_fuel(bh, 3);
        reveal_with_fuel(balanced, 3);
        reveal_with_fuel(red_ok, 3);
    }
    if inner_red {
        let p = g.left.take().unwrap();
        proof {
            lemma_rotated(*p, Dir::Left);
        }
        g.left = Some(rotate(p, &Dir::Left));
    }
    assert(elems(Some(g)) =~= elems(Some(g0)));
    assert(content(Some(g)) =~= content(Some(g0)));
    proof {
        lemma_rotated(*g, Dir::Right);
    }
    let mut top = rotate(g, &Dir::Right);
    let ghost t1 = top;
    top.color = Color::Black;
    paint(&mut top.right, Color::Red);
    proof {
        lemma_recolor(*t1.right.unwrap(), Color::Red);
    }
    top
}

/// Changing a node's color changes nothing but its black height.
proof fn lemma_recolor<V>(n: Node<V>, c: Color)
    ensures
        ({
            let m = Node { color: c, ..n };
            &&& elems(Some(Box::new(m))) == elems(Some(Box::new(n)))
            &&& content(Some(Box::new(m))) == content(Some(Box::new(n)))
            &&& ordered(Some(Box::new(m))) == ordered(Some(Box::new(n)))
            &&& size(Some(Box::new(m))) == size(Some(Box::new(n)))
            &&& inorder(Some(Box::new(m))) == inorder(Some(Box::new(n)))
            &&& balanced(Some(Box::new(m))) == balanced(Some(Box::new(n)))
            &&& bh(Some(Box::new(m))) == bh(n.left) + if c == Color::Black { 1nat } else { 0nat }
        }),
{
}

/// Repairs node `g` after an insertion into its right subtree; the mirror
/// image of `fix_insert_left`.
fn fix_insert_right<V>(g: Box<Node<V>>) -> (r: Box<Node<V>>)
    requires
        ordered(Some(g)),
        balanced(g.right),
        balanced(g.left),
        bh(g.right) == bh(g.left),
        red_ok(g.left),
        red_ok(g.right) || infra(g.right),
        g.color == Color::Red ==> color_of(g.left) == Color::Black && red_ok(g.right),
    ensures
        elems(Some(r)) == elems(Some(g)),
        content(Some(r)) == content(Some(g)),
        ordered(Some(r)),
        balanced(Some(r)),
        bh(Some(r)) == bh(Some(g)),
        size(Some(r)) == size(Some(g)),
        g.color == Color::Black ==> red_ok(Some(r)),
        g.color == Color::Red ==> infra(Some(r)),
        *r == fix_right_spec(*g),
        red_ok(g.right) ==> r == g,
{
    let mut g = g;
    if colorof(&g.right) != Color::Red {
        return g;
    }
    let outer_red = colorof(&g.right.as_ref().unwrap().right) == Color::Red;
    let inner_red = colorof(&g.right.as_ref().unwrap().left) == Color::Red;
    if !outer_red && !inner_red {
        assert(red_ok(g.right));
        return g;
    }
    if colorof(&g.left) == Color::Red {
        let ghost g0 = g;
        paint(&mut g.right, Color::Black);
        paint(&mut g.left, Color::Black);
        g.color = Color::Red;
        proof {
            lemma_recolor(*g0.right.unwrap(), Color::Black);
            lemma_recolor(*g0.left.unwrap(), Color::Black);
            assert(red_ok(g.right) && red_ok(g.left));
        }
        return g;
    }
    let ghost g0 = g;
    proof {
        reveal_with_fuel(bh, 3);
        reveal_with_fuel(balanced, 3);
        reveal_with_fuel(red_ok, 3);
    }
    if inner_red {
        let p = g.right.take().unwrap();
        proof {
            lemma_rotated(*p, Dir::Right);
        }
        g.right = Some(rotate(p, &Dir::Right));
    }
    assert(elems(Some(g)) =~= elems(Some(g0)));
    assert(content(Some(g)) =~= content(Some(g0)));
    proof {
        lemma_rotated(*g, Dir::Left);
    }
    let mut top = rotate(g, &Dir::Left);
    let ghost t1 = top;
    top.color = Color::Black;
    paint(&mut top.left, Color::Red);
    proof {
        lemma_recolor(*t1.left.unwrap(), Color::Red);
    }
    top
}

/// A rotation keeps the keys, their in-order sequence, the node count and the
/// search-tree order; on an ordered subtree it keeps the key-to-value map.
proof fn lemma_rotated<V>(n: Node<V>, d: Dir)
    requires
        d == Dir::Left ==> n.right.is_some(),
        d == Dir::Right ==> n.left.is_some(),
    ensures
        elems(Some(Box::new(rotated(n, d)))) == elems(Some(Box::new(n))),
        size(Some(Box::new(rotated(n, d)))) == size(Some(Box::new(n))),
        inorder(Some(Box::new(rotated(n, d)))) == inorder(Some(Box::new(n))),
        ordered(Some(Box::new(n))) ==> ordered(Some(Box::new(rotated(n, d)))),
        ordered(Some(Box::new(n))) ==> content(Some(Box::new(rotated(n, d)))) == content(
            Some(Box::new(n)),
        ),
{
    let r = rotated(n, d);
    match d {
        Dir::Left => {
            let c = n.right.unwrap();
            let m = r.left.unwrap();
            assert(elems(Some(Box::new(r))) == elems(r.left).union(elems(r.right)).insert(r.key));
            assert(elems(r.left) == elems(m.left).union(elems(m.right)).insert(m.key));
            assert(elems(n.right) == elems(c.left).union(elems(c.right)).insert(c.key));
            assert(elems(Some(Box::new(r))) =~= elems(Some(Box::new(n))));
            assert(size(r.left) == size(m.left) + size(m.right) + 1);
            assert(size(n.right) == size(c.left) + size(c.right) + 1);
            assert(inorder(r.left) == inorder(m.left).push(m.key) + inorder(m.right));
            assert(inorder(n.right) == inorder(c.left).push(c.key) + inorder(c.right));
            assert(inorder(Some(Box::new(r))) =~= inorder(Some(Box::new(n))));
            if ordered(Some(Box::new(n))) {
                assert(ordered(n.right));
                assert(elems(n.right).contains(c.key));
                assert forall|x: u64| elems(m.right).contains(x) implies x > m.key by {
                    assert(elems(n.right).contains(x));
                }
                assert(ordered(r.left));
                lemma_content_dom(n.left);
                lemma_content_dom(c.left);
                lemma_content_dom(c.right);
                assert(content(r.left) == content(m.left).union_prefer_right(content(m.right)).insert(
                    m.key,
                    m.value,
                ));
                assert(content(n.right) == content(c.left).union_prefer_right(content(c.right)).insert(
                    c.key,
                    c.value,
                ));
                assert(content(Some(Box::new(r))) =~= content(Some(Box::new(n))));
            }
        },
        Dir::Right => {
            let c = n.left.unwrap();
            let m = r.right.unwrap();
            assert(elems(Some(Box::new(r))) == elems(r.left).union(elems(r.right)).insert(r.key));
            assert(elems(r.right) == elems(m.left).union(elems(m.right)).insert(m.key));
            assert(elems(n.left) == elems(c.left).union(elems(c.right)).insert(c.key));
            assert(elems(Some(Box::new(r))) =~= elems(Some(Box::new(n))));
            assert(size(r.right) == size(m.left) + size(m.right) + 1);
            assert(size(n.left) == size(c.left) + size(c.right) + 1);
            assert(inorder(r.right) == inorder(m.left).push(m.key) + inorder(m.right));
            assert(inorder(n.left) == inorder(c.left).push(c.key) + inorder(c.right));
            assert(inorder(Some(Box::new(r))) =~= inorder(Some(Box::new(n))));
            if ordered(Some(Box::new(n))) {
                assert(ordered(n.left));
                assert(elems(n.left).contains(c.key));
                assert forall|x: u64| elems(m.left).contains(x) implies x < m.key by {
                    assert(elems(n.left).contains(x));
                }
                assert(ordered(r.right));
                lemma_content_dom(n.right);
                lemma_content_dom(c.left);
                lemma_content_dom(c.right);
                assert(content(r.right) == content(m.left).union_prefer_right(content(m.right)).insert(
                    m.key,
                    m.value,
                ));
                assert(content(n.left) == content(c.left).union_prefer_right(content(c.right)).insert(
                    c.key,
                    c.value,
                ));
                assert(content(Some(Box::new(r))) =~= content(Some(Box::new(n))));
            }
        },
    }
}


/// Inserts `k` with value `v` below `t` and repairs on the way back up.
/// Answers the value that an equal key held before, if there was one.
fn insert_rec<V>(t: Option<Box<Node<V>>>, k: u64, v: V) -> (r: (Box<Node<V>>, Option<V>))
    requires
        rb(t),
    ensures
        content(Some(r.0)) == content(t).insert(k, v),
        elems(Some(r.0)) == elems(t).insert(k),
        r.1 == (if elems(t).contains(k) { Some(content(t)[k]) } else { None::<V> }),
        size(Some(r.0)) == size(t) + if elems(t).contains(k) { 0nat } else { 1nat },
        ordered(Some(r.0)),
        balanced(Some(r.0)),
        bh(Some(r.0)) == bh(t),
        color_of(t) == Color::Black ==> red_ok(Some(r.0)),
        color_of(t) == Color::Red ==> infra(Some(r.0)),
        *r.0 == ins(t, k, v),
        elems(t).contains(k) ==> Some(r.0) == set_value(t, k, v),
    decreases t,
{
    match t {
        None => {
            let r = Box::new(Node { color: Color::Red, key: k, value: v, left: None, right: None });
            assert(content(Some(r)) =~= content(t).insert(k, v));
            (r, None)
        },
        Some(n) => {
            let mut n = n;
            proof {
                lemma_content_dom(n.left);
                lemma_content_dom(n.right);
            }
            if k == n.key {
                let mut old = v;
                core::mem::swap(&mut n.value, &mut old);
                assert(elems(Some(n)) =~= elems(t).insert(k));
                assert(content(Some(n)) =~= content(t).insert(k, v));
                (n, Some(old))
            } else if k < n.key {
                let ghost l0 = n.left;
                let (l, res) = insert_rec(n.left.take(), k, v);
                n.left = Some(l);
                proof {
                    lemma_set_value_colors(l0, k, v);
                }
                assert(!elems(n.right).contains(k));
                assert(res == (if elems(t).contains(k) { Some(content(t)[k]) } else { None::<V> })) by {
                    if elems(l0).contains(k) {
                        assert(content(t)[k] == content(l0)[k]);
                    }
                }
                let ghost n1 = n;
                let r = fix_insert_left(n);
                assert(elems(Some(n1)) =~= elems(t).insert(k));
                assert(content(Some(n1)) =~= content(t).insert(k, v));
                (r, res)
            } else {
                let ghost r0 = n.right;
                let (rt, res) = insert_rec(n.right.take(), k, v);
                n.right = Some(rt);
                proof {
                    lemma_set_value_colors(r0, k, v);
                }
                assert(!elems(n.left).contains(k));
                assert(res == (if elems(t).contains(k) { Some(content(t)[k]) } else { None::<V> })) by {
                    if elems(r0).contains(k) {
                        assert(content(t)[k] == content(r0)[k]);
                    }
                }
                let ghost n1 = n;
                let r = fix_insert_right(n);
                assert(elems(Some(n1)) =~= elems(t).insert(k));
                assert(content(Some(n1)) =~= content(t).insert(k, v));
                (r, res)
            }
        },
    }
}

/// The keys of a subtree are the keys of its map.
proof fn lemma_content_dom<V>(t: Option<Box<Node<V>>>)
    ensures
        content(t).dom() == elems(t),
    decreases t,
{
    match t {
        None => {
            assert(content(t).dom() =~= elems(t));
        },
        Some(n) => {
            lemma_content_dom(n.left);
            lemma_content_dom(n.right);
            assert(content(t).dom() =~= elems(t));
        },
    }
}

/// Repairs node `p` whose left subtree `n` lost one black node (its black
/// height is one below that of the sibling `s`). `c` and `d` are the children
/// of `s` near and far from `n`. Answers whether the whole subtree is still
/// one black node short, in which case the repair goes on one level up.
fn fix_delete_left<V>(p: Box<Node<V>>) -> (r: (Box<Node<V>>, bool))
    requires
        ordered(Some(p)),
        balanced(p.left),
        balanced(p.right),
        red_ok(p.left),
        red_ok(p.right),
        bh(p.left) + 1 == bh(p.right),
        color_of(p.left) == Color::Black,
        p.color == Color::Red ==> color_of(p.right) == Color::Black,
    ensures
        elems(Some(r.0)) == elems(Some(p)),
        content(Some(r.0)) == content(Some(p)),
        size(Some(r.0)) == size(Some(p)),
        rb(Some(r.0)),
        bh(Some(r.0)) + (if r.1 { 1nat } else { 0nat }) == bh(p.right) + (if p.color == Color::Black { 1nat } else { 0nat }),
        r.1 ==> r.0.color == Color::Black,
        r.0.color == Color::Red ==> p.color == Color::Red,
        p.color == Color::Red ==> !r.1,
    decreases (if p.color == Color::Black { 1nat } else { 0nat }),
{
    proof {
        reveal_with_fuel(bh, 3);
        reveal_with_fuel(balanced, 3);
        reveal_with_fuel(red_ok, 3);
    }
    let mut p = p;
    let ghost p_in = p;
    if colorof(&p.right) == Color::Red {
        // red sibling: turn it into the parent's place, then repair below it
        proof {
            lemma_rotated(*p, Dir::Left);
        }
        let mut top = rotate(p, &Dir::Left);
        top.color = Color::Black;
        let mut q = top.left.take().unwrap();
        let ghost q0 = q;
        q.color = Color::Red;
        proof {
            lemma_recolor(*q0, Color::Red);
        }
        let (q2, _) = fix_delete_left(q);
        top.left = Some(q2);
        assert(elems(Some(top)) =~= elems(Some(p_in)));
        assert(content(Some(top)) =~= content(Some(p_in)));
        return (top, false);
    }
    if colorof(&p.right.as_ref().unwrap().left) == Color::Red {
        // near nephew red: rotate the sibling away so the red node is far
        let s = p.right.take().unwrap();
        proof {
            lemma_rotated(*s, Dir::Right);
        }
        let mut s2 = rotate(s, &Dir::Right);
        let ghost s3 = s2;
        s2.color = Color::Black;
        paint(&mut s2.right, Color::Red);
        proof {
            lemma_recolor(*s3.right.unwrap(), Color::Red);
        }
        assert(elems(Some(s2)) =~= elems(Some(s3)));
        assert(content(Some(s2)) =~= content(Some(s3)));
        assert(ordered(Some(s2)));
        p.right = Some(s2);
        assert(elems(Some(p)) =~= elems(Some(p_in)));
        assert(content(Some(p)) =~= content(Some(p_in)));
        assert(ordered(Some(p)));
    }
    if colorof(&p.right.as_ref().unwrap().right) == Color::Red {
        // far nephew red: rotate the parent toward `n` and recolor; done
        let pc = p.color;
        let ghost p_far = p;
        proof {
            lemma_rotated(*p, Dir::Left);
        }
        let mut top = rotate(p, &Dir::Left);
        let ghost t1 = top;
        top.color = pc;
        paint(&mut top.left, Color::Black);
        paint(&mut top.right, Color::Black);
        proof {
            lemma_recolor(*t1.left.unwrap(), Color::Black);
            lemma_recolor(*t1.right.unwrap(), Color::Black);
        }
        assert(elems(Some(top)) =~= elems(Some(p_in)));
        assert(content(Some(top)) =~= content(Some(p_in)));
        assert(ordered(Some(top)));
        assert(balanced(Some(top)));
        assert(red_ok(Some(top)));
        return (top, false);
    }
    let ghost p_flat = p;
    paint(&mut p.right, Color::Red);
    proof {
        lemma_recolor(*p_flat.right.unwrap(), Color::Red);
    }
    if p.color == Color::Red {
        // red parent, black sibling and nephews: swap the two colors
        p.color = Color::Black;
        return (p, false);
    }
    // all black: the sibling turns red and the deficit moves up
    (p, true)
}

/// Repairs node `p` whose right subtree lost one black node; the mirror
/// image of `fix_delete_left`.
fn fix_delete_right<V>(p: Box<Node<V>>) -> (r: (Box<Node<V>>, bool))
    requires
        ordered(Some(p)),
        balanced(p.right),
        balanced(p.left),
        red_ok(p.right),
        red_ok(p.left),
        bh(p.right) + 1 == bh(p.left),
        color_of(p.right) == Color::Black,
        p.color == Color::Red ==> color_of(p.left) == Color::Black,
    ensures
        elems(Some(r.0)) == elems(Some(p)),
        content(Some(r.0)) == content(Some(p)),
        size(Some(r.0)) == size(Some(p)),
        rb(Some(r.0)),
        bh(Some(r.0)) + (if r.1 { 1nat } else { 0nat }) == bh(p.left) + (if p.color == Color::Black { 1nat } else { 0nat }),
        r.1 ==> r.0.color == Color::Black,
        r.0.color == Color::Red ==> p.color == Color::Red,
        p.color == Color::Red ==> !r.1,
    decreases (if p.color == Color::Black { 1nat } else { 0nat }),
{
    proof {
        reveal_with_fuel(bh, 3);
        reveal_with_fuel(balanced, 3);
        reveal_with_fuel(red_ok, 3);
    }
    let mut p = p;
    let ghost p_in = p;
    if colorof(&p.left) == Color::Red {
        // red sibling: turn it into the parent's place, then repair below it
        proof {
            lemma_rotated(*p, Dir::Right);
        }
        let mut top = rotate(p, &Dir::Right);
        top.color = Color::Black;
        let mut q = top.right.take().unwrap();
        let ghost q0 = q;
        q.color = Color::Red;
        proof {
            lemma_recolor(*q0, Color::Red);
        }
        let (q2, _) = fix_delete_right(q);
        top.right = Some(q2);
        assert(elems(Some(top)) =~= elems(Some(p_in)));
        assert(content(Some(top)) =~= content(Some(p_in)));
        return (top, false);
    }
    if colorof(&p.left.as_ref().unwrap().right) == Color::Red {
        // near nephew red: rotate the sibling away so the red node is far
        let s = p.left.take().unwrap();
        proof {
            lemma_rotated(*s, Dir::Left);
        }
        let mut s2 = rotate(s, &Dir::Left);
        let ghost s3 = s2;
        s2.color = Color::Black;
        paint(&mut s2.left, Color::Red);
        proof {
            lemma_recolor(*s3.left.unwrap(), Color::Red);
        }
        assert(elems(Some(s2)) =~= elems(Some(s3)));
        assert(content(Some(s2)) =~= content(Some(s3)));
        assert(ordered(Some(s2)));
        p.left = Some(s2);
        assert(elems(Some(p)) =~= elems(Some(p_in)));
        assert(content(Some(p)) =~= content(Some(p_in)));
        assert(ordered(Some(p)));
    }
    if colorof(&p.left.as_ref().unwrap().left) == Color::Red {
        // far nephew red: rotate the parent toward `n` and recolor; done
        let pc = p.color;
        let ghost p_far = p;
        proof {
            lemma_rotated(*p, Dir::Right);
        }
        let mut top = rotate(p, &Dir::Right);
        let ghost t1 = top;
        top.color = pc;
        paint(&mut top.right, Color::Black);
        paint(&mut top.left, Color::Black);
        proof {
            lemma_recolor(*t1.right.unwrap(), Color::Black);
            lemma_recolor(*t1.left.unwrap(), Color::Black);
        }
        assert(elems(Some(top)) =~= elems(Some(p_in)));
        assert(content(Some(top)) =~= content(Some(p_in)));
        assert(ordered(Some(top)));
        assert(balanced(Some(top)));
        assert(red_ok(Some(top)));
        return (top, false);
    }
    let ghost p_flat = p;
    paint(&mut p.left, Color::Red);
    proof {
        lemma_recolor(*p_flat.left.unwrap(), Color::Red);
    }
    if p.color == Color::Red {
        // red parent, black sibling and nephews: swap the two colors
        p.color = Color::Black;
        return (p, false);
    }
    // all black: the sibling turns red and the deficit moves up
    (p, true)
}

/// In a search-ordered subtree the node count is the number of keys.
proof fn lemma_elems_len<V>(t: Option<Box<Node<V>>>)
    requires
        ordered(t),
    ensures
        elems(t).finite(),
        elems(t).len() == size(t),
    decreases t,
{
    match t {
        None => {},
        Some(n) => {
            lemma_elems_len(n.left);
            lemma_elems_len(n.right);
            let a = elems(n.left);
            let b = elems(n.right);
            assert(a.disjoint(b)) by {
                assert forall|x: u64| a.contains(x) implies !b.contains(x) by {}
            }
            vstd::set_lib::lemma_set_disjoint_lens(a, b);
            assert(!a.union(b).contains(n.key));
        },
    }
}

/// A map from `u64` keys to values, kept in a red-black tree.
pub struct RBTree<V> {
    root: Option<Box<Node<V>>>,
    len: usize,
}

impl<V> View for RBTree<V> {
    type V = Map<u64, V>;

    closed spec fn view(&self) -> Map<u64, V> {
        content(self.root)
    }
}

impl<V> RBTree<V> {
    /// The root subtree.
    pub closed spec fn root_spec(&self) -> Option<Box<Node<V>>> {
        self.root
    }

    /// Well-formedness: search-tree order, a black root, no red node with a
    /// red child, and equal black counts on every path to an absent child;
    /// the stored length counts the nodes.
    pub open spec fn wf(&self) -> bool {
        &&& rb(self.root_spec())
        &&& color_of(self.root_spec()) == Color::Black
        &&& self.len_spec() == size(self.root_spec())
    }

    /// The stored node count.
    pub closed spec fn len_spec(&self) -> nat {
        self.len as nat
    }

    /// An empty tree.
    pub fn new() -> (r: RBTree<V>)
        ensures
            r.wf(),
            r@ == Map::<u64, V>::empty(),
            r.root_spec() == None::<Box<Node<V>>>,
    {
        let r = RBTree { root: None, len: 0 };
        assert(r@ =~= Map::<u64, V>::empty());
        r
    }

    /// Inserts `key` with `value`. When the key is present its value is
    /// replaced in place and the old value returned; otherwise a new node is
    /// added and `None` returned.
    pub fn insert(&mut self, key: u64, value: V) -> (r: Option<V>)
        requires
            old(self).wf(),
            old(self)@.dom().contains(key) || old(self)@.len() < usize::MAX,
        ensures
            final(self).wf(),
            final(self)@ == old(self)@.insert(key, value),
            r == (if old(self)@.dom().contains(key) { Some(old(self)@[key]) } else { None::<V> }),
            final(self).root_spec() == Some(
                Box::new(painted(ins(old(self).root_spec(), key, value), Color::Black)),
            ),
            old(self)@.dom().contains(key) ==> final(self).root_spec() == set_value(
                old(self).root_spec(),
                key,
                value,
            ),
    {
        proof {
            lemma_elems_len(self.root);
            lemma_content_dom(self.root);
            lemma_set_value_colors(self.root, key, value);
        }
        let (mut top, r) = insert_rec(self.root.take(), key, value);
        let ghost t1 = top;
        top.color = Color::Black;
        proof {
            lemma_recolor(*t1, Color::Black);
        }
        self.root = Some(top);
        if r.is_none() {
            self.len = self.len + 1;
        }
        r
    }

    /// Deletes `key`. Answers its value, or `None` when it was absent.
    pub fn delete(&mut self, key: &u64) -> (r: Option<V>)
        requires
            old(self).wf(),
        ensures
            final(self).wf(),
            final(self)@ == old(self)@.remove(*key),
            r == (if old(self)@.dom().contains(*key) { Some(old(self)@[*key]) } else { None::<V> }),
            !old(self)@.dom().contains(*key) ==> final(self).root_spec() == old(self).root_spec(),
    {
        proof {
            lemma_content_dom(self.root);
        }
        let (rest, r, _) = delete_rec(self.root.take(), *key);
        self.root = rest;
        if r.is_some() {
            self.len = self.len - 1;
        }
        r
    }

    /// Looks `key` up: a reference to its value, if present.
    pub fn find(&self, key: &u64) -> (r: Option<&V>)
        requires
            self.wf(),
        ensures
            r.is_some() == self@.dom().contains(*key),
            r.is_some() ==> *r.unwrap() == self@[*key],
    {
        proof {
            lemma_content_dom(self.root);
        }
        find_in(&self.root, key)
    }

    /// The number of keys held.
    pub fn len(&self) -> (r: usize)
        requires
            self.wf(),
        ensures
            r == self@.len(),
    {
        proof {
            lemma_elems_len(self.root);
            lemma_content_dom(self.root);
        }
        self.len
    }

    /// Whether the tree holds no key.
    pub fn is_empty(&self) -> (r: bool)
        requires
            self.wf(),
        ensures
            r == (self@.len() == 0),
    {
        proof {
            lemma_elems_len(self.root);
            lemma_content_dom(self.root);
        }
        self.len == 0
    }

    /// The number of nodes on the longest path from the root down to an
    /// absent child (0 for an empty tree).
    pub fn height(&self) -> (r: usize)
        requires
            self.wf(),
        ensures
            r == height(self.root_spec()),
    {
        proof {
            lemma_height_size(self.root);
        }
        height_of(&self.root)
    }

    /// The black height counting the absent children as one black level:
    /// 0 for an empty tree. Every path from the root agrees on it.
    pub fn depth(&self) -> (r: usize)
        requires
            self.wf(),
        ensures
            r == (if self.root_spec().is_none() { 0 } else { bh(self.root_spec()) + 1 }),
    {
        match &self.root {
            None => 0,
            Some(n) => {
                proof {
                    lemma_bh_size(self.root);
                    lemma_bh_fits(self.root);
                }
                n.depth()
            },
        }
    }
}

impl<V> Node<V> {
    /// The black height of this node's subtree counting the absent children
    /// as one black level. Both sides of every node agree on it.
    pub fn depth(&self) -> (r: usize)
        requires
            balanced(Some(Box::new(*self))),
            bh(Some(Box::new(*self))) < usize::MAX,
        ensures
            r == bh(Some(Box::new(*self))) + 1,
            r == bh(self.right) + 1 + (if self.color == Color::Black { 1nat } else { 0nat }),
        decreases *self,
    {
        let left_depth: usize = match &self.left {
            None => 1,
            Some(l) => l.depth(),
        };
        if self.color == Color::Black {
            left_depth + 1
        } else {
            left_depth
        }
    }
}

/// The height of `t`.
fn height_of<V>(t: &Option<Box<Node<V>>>) -> (r: usize)
    requires
        height(*t) <= usize::MAX,
    ensures
        r == height(*t),
    decreases *t,
{
    match t {
        None => 0,
        Some(n) => {
            let hl = height_of(&n.left);
            let hr = height_of(&n.right);
            if hl >= hr {
                hl + 1
            } else {
                hr + 1
            }
        },
    }
}

/// No path is longer than the node count.
proof fn lemma_height_size<V>(t: Option<Box<Node<V>>>)
    ensures
        height(t) <= size(t),
    decreases t,
{
    match t {
        None => {},
        Some(n) => {
            lemma_height_size(n.left);
            lemma_height_size(n.right);
        },
    }
}

/// Looks `k` up below `t`.
fn find_in<'a, V>(t: &'a Option<Box<Node<V>>>, k: &u64) -> (r: Option<&'a V>)
    requires
        ordered(*t),
    ensures
        r.is_some() == elems(*t).contains(*k),
        r.is_some() ==> *r.unwrap() == content(*t)[*k],
    decreases *t,
{
    match t {
        None => None,
        Some(n) => {
            proof {
                lemma_content_dom(n.left);
                lemma_content_dom(n.right);
            }
            if *k == n.key {
                Some(&n.value)
            } else if *k < n.key {
                assert(!elems(n.right).contains(*k));
                find_in(&n.left, k)
            } else {
                assert(!elems(n.left).contains(*k));
                find_in(&n.right, k)
            }
        },
    }
}

/// A subtree with equal black heights on both sides of every node holds at
/// least `2^bh - 1` nodes.
proof fn lemma_bh_size<V>(t: Option<Box<Node<V>>>)
    requires
        balanced(t),
    ensures
        size(t) + 1 >= pow2(bh(t)),
    decreases t,
{
    match t {
        None => {
            lemma2_to64();
        },
        Some(n) => {
            lemma_bh_size(n.left);
            lemma_bh_size(n.right);
            lemma_pow2_unfold(bh(n.left) + 1);
            if n.color == Color::Red {
                lemma_pow2_strictly_increases(bh(n.left), bh(n.left) + 1);
            }
        },
    }
}

/// In a subtree of at most `usize::MAX` nodes the black height stays below
/// `usize::MAX`.
proof fn lemma_bh_fits<V>(t: Option<Box<Node<V>>>)
    requires
        balanced(t),
        size(t) <= usize::MAX,
    ensures
        bh(t) < usize::MAX,
{
    lemma_bh_size(t);
    if bh(t) >= usize::MAX {
        lemma2_to64();
        lemma_pow2_strictly_increases(64, bh(t));
    }
}


/// The least key of a non-empty search-ordered subtree: its leftmost node's.
fn min_key<V>(n: &Box<Node<V>>) -> (m: u64)
    requires
        ordered(Some(*n)),
    ensures
        elems(Some(*n)).contains(m),
        forall|x: u64| elems(Some(*n)).contains(x) ==> m <= x,
    decreases *n,
{
    match &n.left {
        None => {
            assert(elems(n.left) == Set::<u64>::empty());
            assert forall|x: u64| elems(Some(*n)).contains(x) implies n.key <= x by {
                if elems(n.right).contains(x) {
                    assert(x > n.key);
                }
            }
            n.key
        },
        Some(l) => {
            let m = min_key(l);
            assert(elems(n.left).contains(m));
            assert forall|x: u64| elems(Some(*n)).contains(x) implies m <= x by {
                if elems(n.right).contains(x) {
                    assert(m < n.key);
                }
            }
            m
        },
    }
}

/// Deletes `k` below `t`. Answers the new subtree, the removed value, and
/// whether the subtree lost one black node on every path (then its root is
/// black and the caller repairs).
fn delete_rec<V>(t: Option<Box<Node<V>>>, k: u64) -> (r: (Option<Box<Node<V>>>, Option<V>, bool))
    requires
        rb(t),
    ensures
        content(r.0) == content(t).remove(k),
        elems(r.0) == elems(t).remove(k),
        r.1 == (if elems(t).contains(k) { Some(content(t)[k]) } else { None::<V> }),
        size(r.0) + (if elems(t).contains(k) { 1nat } else { 0nat }) == size(t),
        rb(r.0),
        bh(r.0) + (if r.2 { 1nat } else { 0nat }) == bh(t),
        r.2 ==> color_of(r.0) == Color::Black,
        color_of(r.0) == Color::Red ==> color_of(t) == Color::Red,
        !elems(t).contains(k) ==> r.0 == t && !r.2,
    decreases size(t), 1nat,
{
    match t {
        None => {
            assert(elems(t).remove(k) =~= Set::<u64>::empty());
            assert(content(t).remove(k) =~= Map::<u64, V>::empty());
            (None, None, false)
        },
        Some(n) => {
            let mut n = n;
            proof {
                lemma_content_dom(n.left);
                lemma_content_dom(n.right);
            }
            if k < n.key {
                let ghost l0 = n.left;
                let (l, res, short) = delete_rec(n.left.take(), k);
                n.left = l;
                assert(!elems(n.right).contains(k));
                assert(elems(Some(n)) =~= elems(t).remove(k));
                assert(content(Some(n)) =~= content(t).remove(k));
                assert(res == (if elems(t).contains(k) { Some(content(t)[k]) } else { None::<V> })) by {
                    if elems(l0).contains(k) {
                        assert(content(t)[k] == content(l0)[k]);
                    }
                }
                if short {
                    let (m, short2) = fix_delete_left(n);
                    (Some(m), res, short2)
                } else {
                    (Some(n), res, false)
                }
            } else if k > n.key {
                let ghost r0 = n.right;
                let (rt, res, short) = delete_rec(n.right.take(), k);
                n.right = rt;
                assert(!elems(n.left).contains(k));
                assert(elems(Some(n)) =~= elems(t).remove(k));
                assert(content(Some(n)) =~= content(t).remove(k));
                assert(res == (if elems(t).contains(k) { Some(content(t)[k]) } else { None::<V> })) by {
                    if elems(r0).contains(k) {
                        assert(content(t)[k] == content(r0)[k]);
                    }
                }
                if short {
                    let (m, short2) = fix_delete_right(n);
                    (Some(m), res, short2)
                } else {
                    (Some(n), res, false)
                }
            } else {
                let (rest, value, short) = delete_root(n);
                (rest, Some(value), short)
            }
        },
    }
}

/// Removes the root node of `t`. Answers the remaining subtree, the removed
/// value, and whether the subtree is one black node short on every path.
fn delete_root<V>(t: Box<Node<V>>) -> (r: (Option<Box<Node<V>>>, V, bool))
    requires
        rb(Some(t)),
    ensures
        content(r.0) == content(Some(t)).remove(t.key),
        elems(r.0) == elems(Some(t)).remove(t.key),
        r.1 == t.value,
        size(r.0) + 1 == size(Some(t)),
        rb(r.0),
        bh(r.0) + (if r.2 { 1nat } else { 0nat }) == bh(Some(t)),
        r.2 ==> color_of(r.0) == Color::Black,
        color_of(r.0) == Color::Red ==> t.color == Color::Red,
    decreases size(Some(t)), 0nat,
{
    let mut n = t;
    let k = n.key;
    proof {
        lemma_content_dom(n.left);
        lemma_content_dom(n.right);
    }
    assert(!elems(n.left).contains(k));
    assert(!elems(n.right).contains(k));
    if n.left.is_some() && n.right.is_some() {
        // two children: the successor's key and value move up, then the
        // successor is deleted from the right subtree
        let m = min_key(n.right.as_ref().unwrap());
        let (rt, mv, short) = delete_rec(n.right.take(), m);
        let mut moved = mv.unwrap();
        n.key = m;
        core::mem::swap(&mut n.value, &mut moved);
        n.right = rt;
        proof {
            lemma_content_dom(n.right);
        }
        assert(elems(Some(n)) =~= elems(Some(t)).remove(k));
        assert(content(Some(n)) =~= content(Some(t)).remove(k));
        assert forall|x: u64| elems(n.left).contains(x) implies x < m by {
            assert(elems(t.right).contains(m));
        }
        assert(ordered(Some(n)));
        assert(size(Some(n)) + 1 == size(Some(t)));
        if short {
            let (top, short2) = fix_delete_right(n);
            (Some(top), moved, short2)
        } else {
            assert(balanced(Some(n)));
            assert(red_ok(Some(n)));
            (Some(n), moved, false)
        }
    } else if n.left.is_some() {
        // one child: a red leaf below a black node; it takes the node's place
        let Node { color: _, key: _, value, left, right: _ } = *n;
        let mut c = left.unwrap();
        let ghost c0 = c;
        assert(balanced(Some(c0)));
        assert(red_ok(Some(c0)));
        assert(bh(Some(c0)) == 0);
        assert(c0.color == Color::Red);
        assert(bh(c0.left) == 0 && bh(c0.right) == 0);
        c.color = Color::Black;
        proof {
            lemma_recolor(*c0, Color::Black);
        }
        assert(elems(t.right) == Set::<u64>::empty());
        assert(content(t.right) == Map::<u64, V>::empty());
        assert(elems(Some(c)) =~= elems(Some(t)).remove(k));
        assert(content(Some(c)) =~= content(Some(t)).remove(k));
        assert(size(t.right) == 0);
        assert(size(Some(c)) + 1 == size(Some(t)));
        (Some(c), value, false)
    } else if n.right.is_some() {
        let Node { color: _, key: _, value, left: _, right } = *n;
        let mut c = right.unwrap();
        let ghost c0 = c;
        assert(balanced(Some(c0)));
        assert(red_ok(Some(c0)));
        assert(bh(Some(c0)) == 0);
        assert(c0.color == Color::Red);
        assert(bh(c0.left) == 0 && bh(c0.right) == 0);
        c.color = Color::Black;
        proof {
            lemma_recolor(*c0, Color::Black);
        }
        assert(elems(t.left) == Set::<u64>::empty());
        assert(content(t.left) == Map::<u64, V>::empty());
        assert(elems(Some(c)) =~= elems(Some(t)).remove(k));
        assert(content(Some(c)) =~= content(Some(t)).remove(k));
        assert(size(t.left) == 0);
        assert(size(Some(c)) + 1 == size(Some(t)));
        (Some(c), value, false)
    } else {
        // a leaf: removing a black one leaves the path one black short
        let black = n.color == Color::Black;
        assert(elems(t.left) == Set::<u64>::empty());
        assert(elems(t.right) == Set::<u64>::empty());
        assert(content(t.left) == Map::<u64, V>::empty());
        assert(content(t.right) == Map::<u64, V>::empty());
        assert(elems(Some(t)).remove(k) =~= Set::<u64>::empty());
        assert(content(Some(t)).remove(k) =~= Map::<u64, V>::empty());
        assert(size(Some(t)) == 1);
        let Node { color: _, key: _, value, left: _, right: _ } = *n;
        (None, value, black)
    }
}

/// Height against black height: a path meets no two red nodes in a row.
proof fn lemma_height_bh<V>(t: Option<Box<Node<V>>>)
    requires
        balanced(t),
        red_ok(t),
    ensures
        height(t) <= 2 * bh(t) + (if color_of(t) == Color::Red { 1nat } else { 0nat }),
    decreases t,
{
    match t {
        None => {},
        Some(n) => {
            lemma_height_bh(n.left);
            lemma_height_bh(n.right);
        },
    }
}

/// Height bound: a valid tree of `n` keys has no path from the root down
/// to an absent child longer than `2 * log2(n + 1)` edges, stated without
/// logarithms as `2^height <= (n + 1)^2`.
pub proof fn lemma_height_bound<V>(tree: &RBTree<V>)
    requires
        tree.wf(),
    ensures
        pow2(height(tree.root_spec())) <= (tree@.len() + 1) * (tree@.len() + 1),
{
    let t = tree.root_spec();
    lemma_height_bh(t);
    lemma_bh_size(t);
    lemma_elems_len(t);
    lemma_content_dom(t);
    let b = bh(t);
    let k = size(t) + 1;
    if height(t) < 2 * b {
        lemma_pow2_strictly_increases(height(t), 2 * b);
    }
    lemma_pow2_adds(b, b);
    let p = pow2(b);
    assert(p * p <= k * k) by (nonlinear_arith)
        requires
            p <= k,
    ;
}

/// The in-order sequence of an ordered subtree is strictly ascending and holds
/// exactly its keys.
proof fn lemma_inorder<V>(t: Option<Box<Node<V>>>)
    requires
        ordered(t),
    ensures
        forall|x: u64| elems(t).contains(x) <==> inorder(t).contains(x),
        forall|i: int, j: int| 0 <= i < j < inorder(t).len() ==> inorder(t)[i] < inorder(t)[j],
    decreases t,
{
    match t {
        None => {},
        Some(n) => {
            lemma_inorder(n.left);
            lemma_inorder(n.right);
            let l = inorder(n.left);
            let r = inorder(n.right);
            let q = inorder(t);
            assert(q == l.push(n.key) + r);
            assert forall|k: int| 0 <= k < q.len() implies (k < l.len() ==> q[k] == l[k]) && (k
                == l.len() ==> q[k] == n.key) && (k > l.len() ==> q[k] == r[k - l.len() - 1]) by {}
            assert forall|x: u64| elems(t).contains(x) <==> q.contains(x) by {
                if elems(n.left).contains(x) {
                    let k = choose|k: int| 0 <= k < l.len() && l[k] == x;
                    assert(q[k] == x);
                }
                if elems(n.right).contains(x) {
                    let k = choose|k: int| 0 <= k < r.len() && r[k] == x;
                    assert(q[k + l.len() + 1] == x);
                }
                if x == n.key {
                    assert(q[l.len() as int] == x);
                }
                if q.contains(x) {
                    let k = choose|k: int| 0 <= k < q.len() && q[k] == x;
                    if k < l.len() {
                        assert(l.contains(x));
                    } else if k > l.len() {
                        assert(r[k - l.len() - 1] == x);
                        assert(r.contains(x));
                    }
                }
            }
            assert forall|i: int, j: int| 0 <= i < j < q.len() implies q[i] < q[j] by {
                if i < l.len() {
                    assert(l.contains(l[i]));
                }
                if j > l.len() {
                    assert(r.contains(r[j - l.len() - 1]));
                }
            }
        },
    }
}

/// Ordering: an in-order traversal of a valid tree meets its keys in
/// strictly ascending order, each of them once.
pub proof fn lemma_inorder_ascending<V>(tree: &RBTree<V>)
    requires
        tree.wf(),
    ensures
        forall|x: u64| tree@.dom().contains(x) <==> inorder(tree.root_spec()).contains(x),
        forall|i: int, j: int|
            0 <= i < j < inorder(tree.root_spec()).len() ==> inorder(tree.root_spec())[i]
                < inorder(tree.root_spec())[j],
{
    lemma_inorder(tree.root_spec());
    lemma_content_dom(tree.root_spec());
}

/// The subtree that `path` leads to: `true` steps right, `false` left.
pub open spec fn child_on<V>(n: Box<Node<V>>, right: bool) -> Option<Box<Node<V>>> {
    if right {
        n.right
    } else {
        n.left
    }
}

/// `path` leads from the root of `t` down to an absent child.
pub open spec fn reaches_nil<V>(t: Option<Box<Node<V>>>, path: Seq<bool>) -> bool
    decreases path.len(),
{
    match t {
        None => path.len() == 0,
        Some(n) => path.len() > 0 && reaches_nil(child_on(n, path[0]), path.drop_first()),
    }
}

/// The black nodes met along `path` from the root of `t`.
pub open spec fn blacks_on<V>(t: Option<Box<Node<V>>>, path: Seq<bool>) -> nat
    decreases path.len(),
{
    match t {
        None => 0,
        Some(n) => (if n.color == Color::Black { 1nat } else { 0nat }) + if path.len() > 0 {
            blacks_on(child_on(n, path[0]), path.drop_first())
        } else {
            0nat
        },
    }
}

proof fn lemma_paths_agree<V>(t: Option<Box<Node<V>>>, path: Seq<bool>)
    requires
        balanced(t),
        reaches_nil(t, path),
    ensures
        blacks_on(t, path) == bh(t),
    decreases path.len(),
{
    match t {
        None => {},
        Some(n) => {
            lemma_paths_agree(child_on(n, path[0]), path.drop_first());
        },
    }
}

/// Color invariants: in every tree the operations produce, the root is
/// black, no red node has a red child, and every path from the root down to
/// an absent child meets the same number of black nodes.
pub proof fn lemma_color_invariants<V>(tree: &RBTree<V>)
    requires
        tree.wf(),
    ensures
        color_of(tree.root_spec()) == Color::Black,
        red_ok(tree.root_spec()),
        forall|path: Seq<bool>|
            #[trigger] reaches_nil(tree.root_spec(), path) ==> blacks_on(tree.root_spec(), path)
                == bh(tree.root_spec()),
{
    assert forall|path: Seq<bool>| #[trigger] reaches_nil(tree.root_spec(), path) implies blacks_on(
        tree.root_spec(),
        path,
    ) == bh(tree.root_spec()) by {
        lemma_paths_agree(tree.root_spec(), path);
    }
}

/// The set of keys after inserting each of `ks` in turn, as `insert` states
/// it of the map's domain.
pub open spec fn insert_all(s: Set<u64>, ks: Seq<u64>) -> Set<u64>
    decreases ks.len(),
{
    if ks.len() == 0 {
        s
    } else {
        insert_all(s, ks.drop_last()).insert(ks.last())
    }
}

/// The set of keys after deleting each of `ks` in turn, as `delete` states
/// it of the map's domain.
pub open spec fn delete_all(s: Set<u64>, ks: Seq<u64>) -> Set<u64>
    decreases ks.len(),
{
    if ks.len() == 0 {
        s
    } else {
        delete_all(s, ks.drop_last()).remove(ks.last())
    }
}

proof fn lemma_insert_all(s: Set<u64>, ks: Seq<u64>)
    requires
        s.finite(),
    ensures
        insert_all(s, ks).finite(),
        forall|x: u64| insert_all(s, ks).contains(x) <==> s.contains(x) || ks.contains(x),
        s.len() == 0 && ks.no_duplicates() ==> insert_all(s, ks).len() == ks.len(),
    decreases ks.len(),
{
    if ks.len() > 0 {
        let front = ks.drop_last();
        lemma_insert_all(s, front);
        assert(ks == front.push(ks.last()));
        assert forall|x: u64| ks.contains(x) <==> front.contains(x) || x == ks.last() by {
            if ks.contains(x) {
                let k = choose|k: int| 0 <= k < ks.len() && ks[k] == x;
                if k < front.len() {
                    assert(front[k] == x);
                }
            }
            if front.contains(x) {
                let k = choose|k: int| 0 <= k < front.len() && front[k] == x;
                assert(ks[k] == x);
            }
            if x == ks.last() {
                assert(ks[ks.len() - 1] == x);
            }
        }
        if s.len() == 0 && ks.no_duplicates() {
            assert(front.no_duplicates());
            assert(s == Set::<u64>::empty());
            assert(!front.contains(ks.last()));
        }
    } else {
        assert(insert_all(s, ks) == s);
    }
}

proof fn lemma_delete_all(s: Set<u64>, ks: Seq<u64>)
    requires
        s.finite(),
    ensures
        delete_all(s, ks).finite(),
        forall|x: u64| delete_all(s, ks).contains(x) <==> s.contains(x) && !ks.contains(x),
        ks.no_duplicates() && (forall|i: int| 0 <= i < ks.len() ==> s.contains(ks[i]))
            ==> delete_all(s, ks).len() + ks.len() == s.len(),
    decreases ks.len(),
{
    if ks.len() > 0 {
        let front = ks.drop_last();
        lemma_delete_all(s, front);
        assert(ks == front.push(ks.last()));
        assert forall|x: u64| ks.contains(x) <==> front.contains(x) || x == ks.last() by {
            if ks.contains(x) {
                let k = choose|k: int| 0 <= k < ks.len() && ks[k] == x;
                if k < front.len() {
                    assert(front[k] == x);
                }
            }
            if front.contains(x) {
                let k = choose|k: int| 0 <= k < front.len() && front[k] == x;
                assert(ks[k] == x);
            }
            if x == ks.last() {
                assert(ks[ks.len() - 1] == x);
            }
        }
        if ks.no_duplicates() && (forall|i: int| 0 <= i < ks.len() ==> s.contains(ks[i])) {
            assert(front.no_duplicates());
            assert forall|i: int| 0 <= i < front.len() implies s.contains(front[i]) by {
                assert(front[i] == ks[i]);
            }
            assert(!front.contains(ks.last()));
            assert(s.contains(ks[ks.len() - 1]));
        }
    } else {
        assert(delete_all(s, ks) == s);
    }
}

/// Size consistency: after inserting `n` distinct keys into an empty tree
/// and then deleting `m` distinct keys among them, exactly `n - m` keys are
/// found: those inserted and not deleted.
pub proof fn lemma_size_consistency(ins: Seq<u64>, dels: Seq<u64>)
    requires
        ins.no_duplicates(),
        dels.no_duplicates(),
        forall|i: int| 0 <= i < dels.len() ==> ins.contains(dels[i]),
    ensures
        ({
            let s = delete_all(insert_all(Set::empty(), ins), dels);
            &&& s.len() == ins.len() - dels.len()
            &&& forall|x: u64| s.contains(x) <==> ins.contains(x) && !dels.contains(x)
        }),
{
    let e = Set::<u64>::empty();
    lemma_insert_all(e, ins);
    let s = insert_all(e, ins);
    assert forall|i: int| 0 <= i < dels.len() implies s.contains(dels[i]) by {}
    lemma_delete_all(s, dels);
}

/// Round trip: inserting a key and deleting it at once leaves it absent and
/// every other key present as before, with its value unchanged.
pub proof fn lemma_insert_delete_round_trip<V>(m: Map<u64, V>, k: u64, v: V)
    ensures
        !m.insert(k, v).remove(k).dom().contains(k),
        forall|x: u64|
            x != k ==> (#[trigger] m.insert(k, v).remove(k).dom().contains(x) <==> m.dom().contains(x)),
        forall|x: u64|
            x != k && m.dom().contains(x) ==> #[trigger] m.insert(k, v).remove(k)[x] == m[x],
{
}

/// Duplicate insert: after `k` is inserted with `v1`, inserting it again with
/// `v2` finds it holding `v1` (so that call answers `Some(v1)`), and leaves a
/// single entry for `k`, holding `v2`.
pub proof fn lemma_duplicate_insert<V>(m: Map<u64, V>, k: u64, v1: V, v2: V)
    ensures
        m.insert(k, v1).dom().contains(k),
        m.insert(k, v1)[k] == v1,
        m.insert(k, v1).insert(k, v2) == m.insert(k, v2),
        m.insert(k, v1).insert(k, v2).dom() == m.dom().insert(k),
        m.insert(k, v1).insert(k, v2)[k] == v2,
{
    assert(m.insert(k, v1).insert(k, v2) =~= m.insert(k, v2));
}

} // verus!
