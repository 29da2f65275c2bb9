//! Binary search over sorted slices, and searches for the boundary of a
//! monotone predicate.
use vstd::prelude::*;

verus! {

/// The slice is in non-decreasing order.
pub open spec fn sorted(s: Seq<i64>) -> bool {
    forall|i: int, j: int| 0 <= i <= j < s.len() ==> s[i] <= s[j]
}

/// Finds `target` in the sorted slice `v`: an index holding it, or `None`
/// when no element equals it.
pub fn binary_search(v: &[i64], target: &i64) -> (r: Option<usize>)
    requires
        sorted(v@),
    ensures
        match r {
            Some(i) => i < v@.len() && v@[i as int] == *target,
            None => !v@.contains(*target),
        },
{
    let mut low: usize = 0;
    let mut high: usize = v.len();
    while low < high
        invariant
            0 <= low <= high <= v@.len(),
            sorted(v@),
            forall|i: int| 0 <= i < low ==> v@[i] < *target,
            forall|i: int| high <= i < v@.len() ==> v@[i] > *target,
        decreases high - low,
    {
        let mid = low + (high - low) / 2;
        if v[mid] < *target {
            low = mid + 1;
        } else if v[mid] == *target {
            return Some(mid);
        } else {
            high = mid;
        }
    }
    assert forall|i: int| 0 <= i < v@.len() implies v@[i] != *target by {}
    None
}

/// The predicate `cmp` is monotone over `v`: once true, true for the rest.
pub open spec fn rising<F: Fn(&i64) -> bool>(v: Seq<i64>, cmp: F) -> bool {
    &&& forall|i: int| 0 <= i < v.len() ==> cmp.requires((&v[i],))
    &&& forall|i: int, j: int, a: bool, b: bool|
        0 <= i <= j < v.len() && cmp.ensures((&v[i],), a) && cmp.ensures((&v[j],), b) && a
            ==> b
}

/// The predicate `cmp` is antitone over `v`: once false, false for the rest.
pub open spec fn falling<F: Fn(&i64) -> bool>(v: Seq<i64>, cmp: F) -> bool {
    &&& forall|i: int| 0 <= i < v.len() ==> cmp.requires((&v[i],))
    &&& forall|i: int, j: int, a: bool, b: bool|
        0 <= i <= j < v.len() && cmp.ensures((&v[i],), a) && cmp.ensures((&v[j],), b) && b
            ==> a
}

/// The first index whose element satisfies the monotone predicate `cmp`,
/// or `None` when none does.
pub fn binary_search_first<F: Fn(&i64) -> bool>(v: &[i64], cmp: F) -> (r: Option<usize>)
    requires
        rising(v@, cmp),
    ensures
        match r {
            Some(k) => {
                &&& k < v@.len()
                &&& cmp.ensures((&v@[k as int],), true)
                &&& forall|j: int| 0 <= j < k ==> !cmp.ensures((&v@[j],), true)
            },
            None => forall|j: int| 0 <= j < v@.len() ==> !cmp.ensures((&v@[j],), true),
        },
{
    let mut index: Option<usize> = None;
    let mut low: usize = 0;
    let mut high: usize = v.len();
    while low < high
        invariant
            0 <= low <= high <= v@.len(),
            rising(v@, cmp),
            forall|j: int| 0 <= j < low ==> !cmp.ensures((&v@[j],), true),
            high < v@.len() ==> index == Some(high) && cmp.ensures((&v@[high as int],), true),
            high == v@.len() ==> index.is_none(),
        decreases high - low,
    {
        let mid = low + (high - low) / 2;
        let hit = cmp(&v[mid]);
        if hit {
            index = Some(mid);
            high = mid;
        } else {
            assert forall|j: int| 0 <= j <= mid implies !cmp.ensures((&v@[j],), true) by {
                if cmp.ensures((&v@[j],), true) {
                    assert(cmp.ensures((&v@[mid as int],), false));
                }
            }
            low = mid + 1;
        }
    }
    index
}

/// The last index whose element satisfies the antitone predicate `cmp`, or
/// `None` when none does.
pub fn binary_search_last<F: Fn(&i64) -> bool>(v: &[i64], cmp: F) -> (r: Option<usize>)
    requires
        falling(v@, cmp),
    ensures
        match r {
            Some(k) => {
                &&& k < v@.len()
                &&& cmp.ensures((&v@[k as int],), true)
                &&& forall|j: int| k < j < v@.len() ==> !cmp.ensures((&v@[j],), true)
            },
            None => forall|j: int| 0 <= j < v@.len() ==> !cmp.ensures((&v@[j],), true),
        },
{
    let mut index: Option<usize> = None;
    let mut low: usize = 0;
    let mut high: usize = v.len();
    while low < high
        invariant
            0 <= low <= high <= v@.len(),
            falling(v@, cmp),
            forall|j: int| high <= j < v@.len() ==> !cmp.ensures((&v@[j],), true),
            low > 0 ==> index == Some((low - 1) as usize) && cmp.ensures((&v@[low - 1],), true),
            low == 0 ==> index.is_none(),
        decreases high - low,
    {
        let mid = low + (high - low) / 2;
        let hit = cmp(&v[mid]);
        if hit {
            index = Some(mid);
            low = mid + 1;
        } else {
            assert forall|j: int| mid <= j < v@.len() implies !cmp.ensures((&v@[j],), true) by {
                if cmp.ensures((&v@[j],), true) {
                    assert(cmp.ensures((&v@[mid as int],), false));
                }
            }
            high = mid;
        }
    }
    index
}

} // verus!
