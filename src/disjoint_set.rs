//! Disjoint sets (union-find) over `u64` elements, with union by size and
//! path compression.
use std::collections::HashMap;
use vstd::map::Map;
use vstd::prelude::*;

verus! {

broadcast use vstd::std_specs::hash::group_hash_axioms;

/// A partition of a set of elements into classes. Each element points to a
/// parent; a class's root points to itself and records the class size.
pub struct DisjointSet {
    parent: HashMap<u64, u64>,
    size: HashMap<u64, usize>,
    /// The root of each element's class.
    rep: Ghost<Map<u64, u64>>,
    /// A rank that grows strictly from an element to its parent.
    level: Ghost<Map<u64, nat>>,
}

impl DisjointSet {
    /// The elements.
    pub closed spec fn elements(&self) -> Set<u64> {
        self.parent@.dom()
    }

    /// The root of the class of `x`.
    pub closed spec fn root_of(&self, x: u64) -> u64 {
        self.rep@[x]
    }

    /// The roots of all elements.
    pub closed spec fn roots(&self) -> Map<u64, u64> {
        self.rep@
    }

    /// The ranks of all elements.
    pub closed spec fn ranks(&self) -> Map<u64, nat> {
        self.level@
    }

    /// How far the rank of `x` lies below that of its root.
    pub closed spec fn rank_gap(&self, x: u64) -> int {
        self.level@[self.rep@[x]] - self.level@[x]
    }

    /// Whether `x` and `y` are in the same class.
    pub closed spec fn same(&self, x: u64, y: u64) -> bool {
        self.rep@[x] == self.rep@[y]
    }

    /// At element `x`: its parent and root are elements, the root is its own
    /// root and parent, the parent has the same root, and the rank climbs
    /// from `x` to its parent and up to the root.
    pub closed spec fn ok_at(&self, x: u64) -> bool {
        let d = self.parent@.dom();
        let p = self.parent@[x];
        let r = self.rep@[x];
        &&& d.contains(p)
        &&& d.contains(r)
        &&& self.rep@[r] == r
        &&& self.parent@[r] == r
        &&& (p == x ==> r == x)
        &&& self.rep@[p] == r
        &&& (p != x ==> self.level@[p] > self.level@[x])
        &&& self.level@[r] >= self.level@[x]
    }

    /// The parent links lead every element to its class's root, climbing
    /// strictly in rank.
    pub closed spec fn wf(&self) -> bool {
        let d = self.parent@.dom();
        &&& self.size@.dom() == d
        &&& self.rep@.dom() == d
        &&& self.level@.dom() == d
        &&& forall|x: u64| d.contains(x) ==> #[trigger] self.ok_at(x)
    }

    /// Each element of `total` in a class of its own.
    pub fn new(total: &[u64]) -> (r: Self)
        ensures
            r.wf(),
            r.elements() == total@.to_set(),
            forall|x: u64, y: u64|
                r.elements().contains(x) && r.elements().contains(y) ==> (r.same(x, y) <==> x == y),
    {
        let mut parent: HashMap<u64, u64> = HashMap::new();
        let mut size: HashMap<u64, usize> = HashMap::new();
        let mut i: usize = 0;
        while i < total.len()
            invariant
                i <= total@.len(),
                size@.dom() == parent@.dom(),
                forall|x: u64| #[trigger] parent@.dom().contains(x) ==> parent@[x] == x,
                parent@.dom() == total@.take(i as int).to_set(),
            decreases total@.len() - i,
        {
            let v = total[i];
            parent.insert(v, v);
            size.insert(v, 1);
            assert(total@.take(i + 1) == total@.take(i as int).push(v));
            proof {
                total@.take(i as int).lemma_push_to_set_commute(v);
            }
            assert(parent@.dom() =~= total@.take(i + 1).to_set());
            i += 1;
        }
        assert(total@.take(total@.len() as int) == total@);
        let ghost d = parent@.dom();
        let r = DisjointSet {
            parent,
            size,
            rep: Ghost(Map::new(|x: u64| d.contains(x), |x: u64| x)),
            level: Ghost(Map::new(|x: u64| d.contains(x), |x: u64| 0nat)),
        };
        assert(r.rep@.dom() =~= d);
        assert(r.level@.dom() =~= d);
        assert forall|x: u64| d.contains(x) implies #[trigger] r.ok_at(x) by {}
        r
    }

    /// The root of the class of `x`; every element passed on the way is
    /// linked straight to it. The classes do not change.
    pub fn find(&mut self, x: &u64) -> (r: u64)
        requires
            old(self).wf(),
            old(self).elements().contains(*x),
        ensures
            final(self).wf(),
            final(self).elements() == old(self).elements(),
            final(self).roots() == old(self).roots(),
            final(self).ranks() == old(self).ranks(),
            r == old(self).root_of(*x),
        decreases old(self).rank_gap(*x),
    {
        assert(self.ok_at(*x));
        let p = *self.parent.get(x).unwrap();
        assert(p == self.parent@[*x]);
        if p == *x {
            return p;
        }
        assert(self.parent@.dom().contains(p));
        assert(self.ok_at(p));
        assert(self.rank_gap(p) < self.rank_gap(*x));
        let root = self.find(&p);
        let ghost s1 = *self;
        self.parent.insert(*x, root);
        assert(self.parent@.dom() =~= s1.parent@.dom());
        assert forall|y: u64| self.parent@.dom().contains(y) implies #[trigger] self.ok_at(y) by {
            assert(s1.parent@.dom().contains(y));
            assert(s1.ok_at(y));
            if y != *x {
                assert(s1.parent@.dom().contains(s1.rep@[y]));
                if s1.rep@[y] == *x {
                    assert(s1.parent@[*x] == *x);
                }
            } else {
                assert(s1.parent@.dom().contains(p));
                assert(s1.ok_at(p));
                assert(s1.level@[p] > s1.level@[*x]);
            }
        }
        root
    }

    /// Joins the classes of `a` and `b`: the root of the smaller class goes
    /// below the root of the other.
    pub fn union(&mut self, a: &u64, b: &u64)
        requires
            old(self).wf(),
            old(self).elements().contains(*a),
            old(self).elements().contains(*b),
        ensures
            final(self).wf(),
            final(self).elements() == old(self).elements(),
            forall|x: u64, y: u64|
                old(self).elements().contains(x) && old(self).elements().contains(y) ==> (
                #[trigger] final(self).same(x, y) <==> (old(self).same(x, y) || (old(self).same(
                    x,
                    *a,
                ) && old(self).same(y, *b)) || (old(self).same(x, *b) && old(self).same(y, *a)))),
    {
        let aroot = self.find(a);
        let broot = self.find(b);
        assert(self.ok_at(*a));
        assert(self.ok_at(*b));
        if aroot != broot {
            let asize = *self.size.get(&aroot).unwrap();
            let bsize = *self.size.get(&broot).unwrap();
            // class sizes only steer which root goes below; they saturate
            let total = asize.saturating_add(bsize);
            if asize < bsize {
                self.link(aroot, broot, total);
            } else {
                self.link(broot, aroot, total);
            }
        }
    }

    /// Puts root `low` below root `high`, which then holds `total` elements.
    fn link(&mut self, low: u64, high: u64, total: usize)
        requires
            old(self).wf(),
            old(self).elements().contains(low),
            old(self).elements().contains(high),
            old(self).rep@[low] == low,
            old(self).rep@[high] == high,
            low != high,
        ensures
            final(self).wf(),
            final(self).elements() == old(self).elements(),
            forall|x: u64| #[trigger]
                old(self).elements().contains(x) ==> final(self).rep@[x] == if old(self).rep@[x]
                    == low {
                    high
                } else {
                    old(self).rep@[x]
                },
    {
        let ghost s0 = *self;
        let ghost d = self.parent@.dom();
        self.parent.insert(low, high);
        self.size.insert(high, total);
        let ghost top: nat = if s0.level@[high] > s0.level@[low] {
            s0.level@[high]
        } else {
            s0.level@[low] + 1
        };
        self.rep = Ghost(
            Map::new(
                |x: u64| d.contains(x),
                |x: u64|
                    if s0.rep@[x] == low {
                        high
                    } else {
                        s0.rep@[x]
                    },
            ),
        );
        self.level = Ghost(s0.level@.insert(high, top));
        assert(self.parent@.dom() =~= d);
        assert(self.size@.dom() =~= d);
        assert(self.rep@.dom() =~= d);
        assert(self.level@.dom() =~= d);
        assert(s0.ok_at(low));
        assert(s0.ok_at(high));
        assert forall|y: u64| d.contains(y) implies #[trigger] self.ok_at(y) by {
            assert(s0.ok_at(y));
            let q0 = s0.parent@[y];
            let r0 = s0.rep@[y];
            assert(s0.ok_at(q0));
            assert(s0.ok_at(r0));
            assert(self.rep@[y] == (if r0 == low { high } else { r0 }));
            assert(self.rep@[q0] == (if s0.rep@[q0] == low { high } else { s0.rep@[q0] }));
            assert(self.rep@[high] == high);
            assert(r0 != low ==> self.rep@[r0] == r0);
            assert(d.contains(q0) && d.contains(r0));
            assert(s0.rep@[r0] == r0);
            if y == low {
                assert(s0.parent@[low] == low);
            } else if q0 == low {
                assert(s0.rep@[q0] == r0);
            }
            if y == high {
                assert(s0.parent@[high] == high);
            }
        }
    }
}

} // verus!
