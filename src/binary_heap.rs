//! A max-heap of `i64` values stored level by level in a vector.
use crate::sorting::swap_vec;
use vstd::multiset::Multiset;
use vstd::prelude::*;

verus! {

/// A binary max-heap: every element is at most its parent.
pub struct BinaryHeap {
    nodes: Vec<i64>,
}

/// The parent position of a non-root position.
pub open spec fn parent(i: int) -> int {
    (i - 1) / 2
}

/// The parent relation holds at `i` (if `i` has a parent).
pub open spec fn ok_at(s: Seq<i64>, i: int) -> bool {
    i > 0 ==> s[parent(i)] >= s[i]
}

/// Every element is at most its parent.
pub open spec fn is_heap(s: Seq<i64>) -> bool {
    forall|i: int| 0 < i < s.len() ==> #[trigger] ok_at(s, i)
}

/// The parent relation holds below position `lo`, except at the children
/// of `k`; and `k`'s parent (if at or after `lo`) is at least `k`'s children.
pub open spec fn heap_below_except(s: Seq<i64>, lo: int, k: int) -> bool {
    &&& forall|i: int| 0 < i < s.len() && parent(i) >= lo && parent(i) != k ==> #[trigger] ok_at(s, i)
    &&& (k > 0 && parent(k) >= lo) ==> (forall|c: int|
        0 < c < s.len() && parent(c) == k ==> s[parent(k)] >= #[trigger] s[c])
}

/// Sifts the element at `root` down until it is at least its children.
fn down(v: &mut Vec<i64>, root: usize, Ghost(lo): Ghost<int>)
    requires
        0 <= lo <= root < old(v)@.len(),
        old(v)@.len() <= usize::MAX / 2,
        heap_below_except(old(v)@, lo, root as int),
    ensures
        final(v)@.to_multiset() == old(v)@.to_multiset(),
        final(v)@.len() == old(v)@.len(),
        forall|i: int| 0 < i < final(v)@.len() && parent(i) >= lo ==> #[trigger] ok_at(final(v)@, i),
        forall|i: int| 0 <= i < root ==> final(v)@[i] == old(v)@[i],
    decreases old(v)@.len() - root,
{
    let n = v.len();
    let mut max_idx = root;
    let left = root * 2 + 1;
    let right = root * 2 + 2;
    if left < n && v[left] > v[max_idx] {
        max_idx = left;
    }
    if right < n && v[right] > v[max_idx] {
        max_idx = right;
    }
    if max_idx != root {
        let ghost s0 = v@;
        let m = max_idx;
        swap_vec(v, max_idx, root);
        let ghost s1 = v@;
        assert forall|i: int|
            0 < i < s1.len() && parent(i) >= lo && parent(i) != m implies #[trigger] ok_at(s1, i) by {
            if parent(i) == root {
            } else if i == root {
                assert(s0[parent(root as int)] >= s0[m as int]);
            } else if i == m {
                assert(parent(m as int) == root);
            } else {
                assert(ok_at(s0, i));
            }
        }
        assert forall|c: int| 0 < c < s1.len() && parent(c) == m implies s1[parent(
            m as int,
        )] >= #[trigger] s1[c] by {
            assert(parent(m as int) == root);
            assert(ok_at(s0, c));
        }
        down(v, max_idx, Ghost(lo));
    } else {
        assert forall|i: int| 0 < i < v@.len() && parent(i) >= lo implies #[trigger] ok_at(v@, i) by {
            if parent(i) != root {
            }
        }
    }
}


/// Sifts the element at `root` up until it is at most its parent.
fn up(v: &mut Vec<i64>, root: usize)
    requires
        root < old(v)@.len(),
        forall|i: int| 0 < i < old(v)@.len() && i != root ==> #[trigger] ok_at(old(v)@, i),
        root > 0 ==> forall|c: int|
            0 < c < old(v)@.len() && parent(c) == root ==> old(v)@[parent(root as int)]
                >= #[trigger] old(v)@[c],
    ensures
        final(v)@.to_multiset() == old(v)@.to_multiset(),
        final(v)@.len() == old(v)@.len(),
        is_heap(final(v)@),
{
    let mut k = root;
    while k > 0 && v[k] > v[(k - 1) / 2]
        invariant
            k < v@.len(),
            v@.len() == old(v)@.len(),
            v@.to_multiset() == old(v)@.to_multiset(),
            forall|i: int| 0 < i < v@.len() && i != k ==> #[trigger] ok_at(v@, i),
            k > 0 ==> forall|c: int|
                0 < c < v@.len() && parent(c) == k ==> v@[parent(k as int)] >= #[trigger] v@[c],
        decreases k,
    {
        let p = (k - 1) / 2;
        let ghost s0 = v@;
        swap_vec(v, k, p);
        let ghost s1 = v@;
        assert forall|i: int| 0 < i < s1.len() && i != p implies #[trigger] ok_at(s1, i) by {
            if i == k {
            } else if parent(i) == k {
                assert(s0[parent(k as int)] >= s0[i]);
            } else if parent(i) == p {
                assert(ok_at(s0, i));
            } else {
                assert(ok_at(s0, i));
                if i == p {
                } else if parent(i) == k {
                }
            }
        }
        if p > 0 {
            assert forall|c: int| 0 < c < s1.len() && parent(c) == p implies s1[parent(p as int)]
                >= #[trigger] s1[c] by {
                assert(ok_at(s0, p as int));
                if c != k {
                    assert(ok_at(s0, c));
                }
            }
        }
        k = p;
    }
    assert forall|i: int| 0 < i < v@.len() implies #[trigger] ok_at(v@, i) by {}
}

/// In a heap the first element is the greatest.
proof fn lemma_root_max(s: Seq<i64>, i: int)
    requires
        is_heap(s),
        0 <= i < s.len(),
    ensures
        s[0] >= s[i],
    decreases i,
{
    if i > 0 {
        assert(ok_at(s, i));
        lemma_root_max(s, parent(i));
    }
}

/// Builds a heap holding the values of `vs`.
pub fn build_heap(vs: &[i64]) -> (r: BinaryHeap)
    requires
        vs@.len() <= usize::MAX / 2,
    ensures
        r.wf(),
        r@ == vs@.to_multiset(),
{
    let mut nodes: Vec<i64> = Vec::new();
    let mut k: usize = 0;
    while k < vs.len()
        invariant
            k <= vs@.len(),
            nodes@ == vs@.subrange(0, k as int),
        decreases vs@.len() - k,
    {
        nodes.push(vs[k]);
        k += 1;
    }
    assert(nodes@ == vs@);
    let n = nodes.len();
    let mut i: usize = n / 2 + 1;
    while i > 0
        invariant
            nodes@.len() == n,
            n <= usize::MAX / 2,
            i <= n / 2 + 1,
            nodes@.to_multiset() == vs@.to_multiset(),
            forall|j: int| 0 < j < n && parent(j) >= i ==> #[trigger] ok_at(nodes@, j),
        decreases i,
    {
        i -= 1;
        if i < n {
            down(&mut nodes, i, Ghost(i as int));
        } else {
            assert forall|j: int| 0 < j < n && parent(j) >= i implies #[trigger] ok_at(nodes@, j) by {}
        }
    }
    BinaryHeap { nodes }
}

impl View for BinaryHeap {
    type V = Multiset<i64>;

    closed spec fn view(&self) -> Multiset<i64> {
        self.nodes@.to_multiset()
    }
}

impl BinaryHeap {
    /// The heap order holds and the vector fits the index arithmetic.
    pub closed spec fn wf(&self) -> bool {
        is_heap(self.nodes@) && self.nodes@.len() <= usize::MAX / 2
    }

    /// The number of values held.
    pub closed spec fn len_spec(&self) -> nat {
        self.nodes@.len()
    }

    /// Adds `v`.
    pub fn push(&mut self, v: i64)
        requires
            old(self).wf(),
            old(self).len_spec() < usize::MAX / 2,
        ensures
            final(self).wf(),
            final(self)@ == old(self)@.insert(v),
            final(self).len_spec() == old(self).len_spec() + 1,
    {
        let ghost s0 = self.nodes@;
        self.nodes.push(v);
        proof {
            vstd::seq_lib::to_multiset_build(s0, v);
        }
        let idx = self.nodes.len() - 1;
        assert forall|c: int| 0 < c < self.nodes@.len() && parent(c) == idx implies self.nodes@[parent(
            idx as int,
        )] >= #[trigger] self.nodes@[c] by {}
        assert forall|i: int| 0 < i < self.nodes@.len() && i != idx implies #[trigger] ok_at(
            self.nodes@,
            i,
        ) by {
            assert(ok_at(s0, i));
        }
        up(&mut self.nodes, idx);
    }

    /// Removes and answers the greatest value, or `None` when empty.
    pub fn pop(&mut self) -> (r: Option<i64>)
        requires
            old(self).wf(),
        ensures
            final(self).wf(),
            old(self).len_spec() == 0 ==> r.is_none() && final(self)@ == old(self)@,
            old(self).len_spec() > 0 ==> ({
                let x = r.unwrap();
                &&& r.is_some()
                &&& old(self)@.contains(x)
                &&& forall|y: i64| old(self)@.contains(y) ==> y <= x
                &&& final(self)@ == old(self)@.remove(x)
                &&& final(self).len_spec() == old(self).len_spec() - 1
            }),
    {
        if self.nodes.len() == 0 {
            return None;
        }
        let ghost s0 = self.nodes@;
        proof {
            assert forall|y: i64| s0.to_multiset().contains(y) implies y <= s0[0] by {
                vstd::seq_lib::to_multiset_contains(s0, y);
                let j = choose|j: int| 0 <= j < s0.len() && s0[j] == y;
                lemma_root_max(s0, j);
            }
            vstd::seq_lib::to_multiset_contains(s0, s0[0]);
        }
        let last = self.nodes.len() - 1;
        swap_vec(&mut self.nodes, 0, last);
        let ghost s1 = self.nodes@;
        let value = self.nodes.pop();
        proof {
            assert(s1 == self.nodes@.push(s0[0]));
            vstd::seq_lib::to_multiset_build(self.nodes@, s0[0]);
            broadcast use vstd::multiset::group_multiset_axioms;
            assert(self.nodes@.to_multiset() =~= s0.to_multiset().remove(s0[0]));
        }
        if self.nodes.len() > 0 {
            assert forall|i: int| 0 < i < self.nodes@.len() && parent(i) != 0 implies #[trigger] ok_at(
                self.nodes@,
                i,
            ) by {
                assert(ok_at(s0, i));
            }
            down(&mut self.nodes, 0, Ghost(0));
        }
        value
    }
}

} // verus!
