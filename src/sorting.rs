//! In-place sorting of `usize` slices. Each sort leaves the slice in
//! non-decreasing order holding the same multiset of values.
use vstd::multiset::Multiset;
use vstd::prelude::*;
use vstd::seq_lib::{
    lemma_multiset_commutative, to_multiset_build, to_multiset_contains, to_multiset_update,
};

verus! {

/// Non-decreasing order.
pub open spec fn sorted(s: Seq<usize>) -> bool {
    forall|i: int, j: int| 0 <= i <= j < s.len() ==> s[i] <= s[j]
}

/// Non-decreasing order within positions `lo..hi`.
pub open spec fn sorted_between(s: Seq<usize>, lo: int, hi: int) -> bool {
    forall|i: int, j: int| lo <= i <= j < hi ==> s[i] <= s[j]
}

/// Exchanges the elements at `i` and `j`.
fn swap(v: &mut [usize], i: usize, j: usize)
    requires
        i < old(v)@.len(),
        j < old(v)@.len(),
    ensures
        final(v)@ == old(v)@.update(i as int, old(v)@[j as int]).update(j as int, old(v)@[i as int]),
        final(v)@.to_multiset() == old(v)@.to_multiset(),
{
    let ghost s0 = v@;
    let a = v[i];
    let b = v[j];
    v[i] = b;
    v[j] = a;
    proof {
        let s1 = s0.update(i as int, b);
        to_multiset_update(s0, i as int, b);
        to_multiset_update(s1, j as int, a);
        assert(s1[j as int] == b);
        broadcast use vstd::multiset::group_multiset_axioms;
        assert(s0.contains(a));
        to_multiset_contains(s0, a);
        assert(s1.update(j as int, a).to_multiset() =~= s0.to_multiset());
    }
}

/// Exchanges the elements at `i` and `j` of a vector.
pub(crate) fn swap_vec<T: Copy>(v: &mut Vec<T>, i: usize, j: usize)
    requires
        i < old(v)@.len(),
        j < old(v)@.len(),
    ensures
        final(v)@ == old(v)@.update(i as int, old(v)@[j as int]).update(j as int, old(v)@[i as int]),
        final(v)@.to_multiset() == old(v)@.to_multiset(),
{
    let ghost s0 = v@;
    let a = v[i];
    let b = v[j];
    v.set(i, b);
    v.set(j, a);
    proof {
        let s1 = s0.update(i as int, b);
        to_multiset_update(s0, i as int, b);
        to_multiset_update(s1, j as int, a);
        assert(s1[j as int] == b);
        broadcast use vstd::multiset::group_multiset_axioms;
        assert(s0.contains(a));
        to_multiset_contains(s0, a);
        assert(s1.update(j as int, a).to_multiset() =~= s0.to_multiset());
    }
}

/// Bubble sort: each pass carries the greatest remaining element to the end
/// of the unsorted prefix.
pub fn bubble_sort(v: &mut [usize])
    ensures
        sorted(final(v)@),
        final(v)@.to_multiset() == old(v)@.to_multiset(),
{
    let n = v.len();
    if n <= 1 {
        return;
    }
    let mut i: usize = 0;
    while i < n - 1
        invariant
            n == v@.len(),
            i <= n - 1,
            v@.to_multiset() == old(v)@.to_multiset(),
            sorted_between(v@, n - i, n as int),
            forall|a: int, b: int| 0 <= a < n - i <= b < n ==> v@[a] <= v@[b],
        decreases n - 1 - i,
    {
        let mut j: usize = 0;
        while j < n - 1 - i
            invariant
                n == v@.len(),
                i < n - 1,
                j <= n - 1 - i,
                v@.to_multiset() == old(v)@.to_multiset(),
                sorted_between(v@, n - i, n as int),
                forall|a: int, b: int| 0 <= a < n - i <= b < n ==> v@[a] <= v@[b],
                forall|a: int| 0 <= a <= j ==> v@[a] <= v@[j as int],
            decreases n - 1 - i - j,
        {
            if v[j] > v[j + 1] {
                swap(v, j, j + 1);
            }
            j += 1;
        }
        i += 1;
    }
}

/// Selection sort: position `i` receives the least element of the rest.
pub fn selection_sort(v: &mut [usize])
    ensures
        sorted(final(v)@),
        final(v)@.to_multiset() == old(v)@.to_multiset(),
{
    let n = v.len();
    if n <= 1 {
        return;
    }
    let mut i: usize = 0;
    while i < n - 1
        invariant
            n == v@.len(),
            i <= n - 1,
            v@.to_multiset() == old(v)@.to_multiset(),
            sorted_between(v@, 0, i as int),
            forall|a: int, b: int| 0 <= a < i <= b < n ==> v@[a] <= v@[b],
        decreases n - 1 - i,
    {
        let mut min_idx = i;
        let mut j = i + 1;
        while j < n
            invariant
                n == v@.len(),
                i < j <= n,
                i <= min_idx < j,
                forall|a: int| i <= a < j ==> v@[min_idx as int] <= v@[a],
            decreases n - j,
        {
            if v[j] < v[min_idx] {
                min_idx = j;
            }
            j += 1;
        }
        swap(v, i, min_idx);
        i += 1;
    }
}

/// Insertion sort: each element sinks left past the greater ones.
pub fn insertion_sort(v: &mut [usize])
    ensures
        sorted(final(v)@),
        final(v)@.to_multiset() == old(v)@.to_multiset(),
{
    let n = v.len();
    let mut i: usize = 1;
    if n <= 1 {
        return;
    }
    while i < n
        invariant
            n == v@.len(),
            1 <= i <= n,
            v@.to_multiset() == old(v)@.to_multiset(),
            sorted_between(v@, 0, i as int),
        decreases n - i,
    {
        let mut j = i;
        while j > 0 && v[j - 1] > v[j]
            invariant
                n == v@.len(),
                i < n,
                j <= i,
                v@.to_multiset() == old(v)@.to_multiset(),
                sorted_between(v@, 0, j as int),
                sorted_between(v@, j as int, i + 1),
                forall|a: int, b: int| 0 <= a < j < b <= i ==> v@[a] <= v@[b],
            decreases j,
        {
            swap(v, j, j - 1);
            j -= 1;
        }
        i += 1;
    }
}


/// The gaps that shell sort goes through: 1, 4, 13, 40, ... (each three
/// times the previous one plus one).
pub open spec fn gap_seq(h: nat) -> bool
    decreases h,
{
    h == 1 || (h > 1 && h % 3 == 1 && gap_seq(h / 3))
}

/// Shell sort: insertion sort over elements `h` apart for gaps shrinking to 1;
/// the final pass with gap 1 leaves the slice sorted.
pub fn shell_sort(v: &mut [usize])
    ensures
        sorted(final(v)@),
        final(v)@.to_multiset() == old(v)@.to_multiset(),
{
    let n = v.len();
    let mut h: usize = 1;
    while h < n / 3
        invariant
            gap_seq(h as nat),
            1 <= h,
        decreases n - h,
    {
        assert(gap_seq((h * 3 + 1) as nat));
        h = h * 3 + 1;
    }
    while h >= 1
        invariant
            n == v@.len(),
            h >= 1 ==> gap_seq(h as nat),
            h == 0 ==> sorted(v@),
            v@.to_multiset() == old(v)@.to_multiset(),
        decreases h,
    {
        let mut i = h;
        while i < n
            invariant
                n == v@.len(),
                h >= 1,
                h <= i,
                v@.to_multiset() == old(v)@.to_multiset(),
                h == 1 ==> sorted_between(v@, 0, if i <= n { i as int } else { n as int }),
            decreases n - i,
        {
            let mut j = i;
            while j >= h && v[j - h] > v[j]
                invariant
                    n == v@.len(),
                    h >= 1,
                    i < n,
                    j <= i,
                    v@.to_multiset() == old(v)@.to_multiset(),
                    h == 1 ==> sorted_between(v@, 0, j as int),
                    h == 1 ==> sorted_between(v@, j as int, i + 1),
                    h == 1 ==> forall|a: int, b: int| 0 <= a < j < b <= i ==> v@[a] <= v@[b],
                decreases j,
            {
                swap(v, j, j - h);
                j -= h;
            }
            i += 1;
        }
        h /= 3;
    }
}

/// Cocktail shaker sort: passes alternate upward (the greatest element of
/// the unsorted middle goes to its top) and downward (the least goes to its
/// bottom) until a round makes no exchange.
pub fn cocktail_sort(v: &mut [usize])
    ensures
        sorted(final(v)@),
        final(v)@.to_multiset() == old(v)@.to_multiset(),
{
    let n = v.len();
    if n <= 1 {
        return;
    }
    let mut low: usize = 0;
    let mut high: usize = n - 1;
    let mut swapped = true;
    while swapped && low < high
        invariant
            n == v@.len(),
            low <= n,
            high < n,
            v@.to_multiset() == old(v)@.to_multiset(),
            sorted_between(v@, 0, low as int),
            forall|a: int, b: int| 0 <= a < low <= b < n ==> v@[a] <= v@[b],
            sorted_between(v@, high + 1, n as int),
            forall|a: int, b: int| 0 <= a <= high < b < n ==> v@[a] <= v@[b],
            !swapped ==> sorted(v@),
            low >= high ==> sorted(v@),
        decreases n - low,
    {
        swapped = false;
        let mut i = low + 1;
        while i <= high
            invariant
                n == v@.len(),
                low < high < n,
                low + 1 <= i <= high + 1,
                v@.to_multiset() == old(v)@.to_multiset(),
                sorted_between(v@, 0, low as int),
                forall|a: int, b: int| 0 <= a < low <= b < n ==> v@[a] <= v@[b],
                sorted_between(v@, high + 1, n as int),
                forall|a: int, b: int| 0 <= a <= high < b < n ==> v@[a] <= v@[b],
                forall|a: int| low <= a < i ==> #[trigger] v@[a] <= v@[i - 1],
                !swapped ==> sorted_between(v@, low as int, i as int),
            decreases high + 1 - i,
        {
            if v[i] < v[i - 1] {
                swap(v, i, i - 1);
                swapped = true;
            }
            i += 1;
        }
        if !swapped {
            assert(sorted(v@));
        }
        high -= 1;
        let mut k = high;
        while k > low
            invariant
                n == v@.len(),
                low <= high < n,
                low <= k <= high,
                v@.to_multiset() == old(v)@.to_multiset(),
                sorted_between(v@, 0, low as int),
                forall|a: int, b: int| 0 <= a < low <= b < n ==> v@[a] <= v@[b],
                sorted_between(v@, high + 1, n as int),
                forall|a: int, b: int| 0 <= a <= high < b < n ==> v@[a] <= v@[b],
                forall|a: int| k <= a <= high ==> v@[k as int] <= v@[a],
                !swapped ==> sorted(v@),
            decreases k - low,
        {
            if v[k] < v[k - 1] {
                swap(v, k, k - 1);
                swapped = true;
            }
            k -= 1;
        }
        low += 1;
    }
}


/// Every element in positions `lo..hi` is below `b`.
pub open spec fn all_below(s: Seq<usize>, lo: int, hi: int, b: usize) -> bool {
    forall|k: int| lo <= k < hi ==> #[trigger] s[k] < b
}

/// Every element in positions `lo..hi` is at least `b`.
pub open spec fn all_at_least(s: Seq<usize>, lo: int, hi: int, b: usize) -> bool {
    forall|k: int| lo <= k < hi ==> #[trigger] s[k] >= b
}

/// Positions `lo..hi` were rearranged among themselves: the rest is as it
/// was, and bounds that held of the range still hold.
pub open spec fn shuffled_within(s: Seq<usize>, t: Seq<usize>, lo: int, hi: int) -> bool {
    &&& s.len() == t.len()
    &&& forall|k: int| 0 <= k < s.len() && !(lo <= k < hi) ==> s[k] == t[k]
    &&& forall|b: usize| all_below(t, lo, hi, b) ==> #[trigger] all_below(s, lo, hi, b)
    &&& forall|b: usize| all_at_least(t, lo, hi, b) ==> #[trigger] all_at_least(s, lo, hi, b)
}

/// Sorts positions `lo..hi`: the first element is the pivot; smaller
/// elements gather before it, the others after, and each side is sorted in
/// turn.
fn quick_sort_range(v: &mut [usize], lo: usize, hi: usize)
    requires
        lo <= hi <= old(v)@.len(),
    ensures
        sorted_between(final(v)@, lo as int, hi as int),
        shuffled_within(final(v)@, old(v)@, lo as int, hi as int),
        final(v)@.to_multiset() == old(v)@.to_multiset(),
    decreases hi - lo,
{
    if hi - lo <= 1 {
        return;
    }
    let mut pivot = lo;
    let mut i = lo + 1;
    let mut j = hi - 1;
    let p = v[lo];
    while i <= j
        invariant
            lo <= pivot,
            pivot + 1 == i,
            i <= j + 1,
            j < hi,
            hi <= v@.len(),
            v@[pivot as int] == p,
            all_below(v@, lo as int, pivot as int, p),
            all_at_least(v@, j + 1, hi as int, p),
            shuffled_within(v@, old(v)@, lo as int, hi as int),
            v@.to_multiset() == old(v)@.to_multiset(),
        decreases j + 1 - i,
    {
        let ghost s0 = v@;
        if v[i] < v[pivot] {
            swap(v, i, pivot);
            pivot = i;
            i += 1;
        } else {
            swap(v, i, j);
            j -= 1;
        }
        proof {
            assert forall|b: usize| all_below(old(v)@, lo as int, hi as int, b) implies #[trigger] all_below(
                v@,
                lo as int,
                hi as int,
                b,
            ) by {
                assert(all_below(s0, lo as int, hi as int, b));
                assert forall|k: int| lo <= k < hi implies #[trigger] v@[k] < b by {
                    assert(s0[k] < b);
                }
            }
            assert forall|b: usize| all_at_least(old(v)@, lo as int, hi as int, b) implies #[trigger] all_at_least(
                v@,
                lo as int,
                hi as int,
                b,
            ) by {
                assert(all_at_least(s0, lo as int, hi as int, b));
                assert forall|k: int| lo <= k < hi implies #[trigger] v@[k] >= b by {
                    assert(s0[k] >= b);
                }
            }
        }
    }
    let ghost s1 = v@;
    quick_sort_range(v, lo, pivot);
    let ghost s2 = v@;
    assert(all_below(s2, lo as int, pivot as int, p));
    quick_sort_range(v, pivot + 1, hi);
    let ghost s3 = v@;
    assert(all_at_least(s3, pivot + 1, hi as int, p));
    assert(all_below(s3, lo as int, pivot as int, p));
    assert forall|b: usize| all_below(old(v)@, lo as int, hi as int, b) implies #[trigger] all_below(
        v@,
        lo as int,
        hi as int,
        b,
    ) by {
        assert(all_below(s1, lo as int, hi as int, b));
        assert(all_below(s1, lo as int, pivot as int, b));
        assert(all_below(s2, lo as int, pivot as int, b));
        assert(all_below(s2, pivot + 1, hi as int, b));
        assert(all_below(s3, pivot + 1, hi as int, b));
        assert(s3[pivot as int] == s1[pivot as int]);
        assert forall|k: int| lo <= k < hi implies #[trigger] v@[k] < b by {
            if k < pivot {
                assert(s2[k] == s3[k]);
            }
        }
    }
    assert forall|b: usize| all_at_least(old(v)@, lo as int, hi as int, b) implies #[trigger] all_at_least(
        v@,
        lo as int,
        hi as int,
        b,
    ) by {
        assert(all_at_least(s1, lo as int, hi as int, b));
        assert(all_at_least(s1, lo as int, pivot as int, b));
        assert(all_at_least(s2, lo as int, pivot as int, b));
        assert(all_at_least(s2, pivot + 1, hi as int, b));
        assert(all_at_least(s3, pivot + 1, hi as int, b));
        assert(s3[pivot as int] == s1[pivot as int]);
        assert forall|k: int| lo <= k < hi implies #[trigger] v@[k] >= b by {
            if k < pivot {
                assert(s2[k] == s3[k]);
            }
        }
    }
    assert forall|a: int, b: int| lo <= a <= b < hi implies v@[a] <= v@[b] by {
        if a < pivot {
            assert(s3[a] == s2[a]);
            assert(s3[a] < p);
        }
        if b < pivot {
            assert(s3[b] == s2[b]);
        }
        if a == pivot {
            assert(s3[a] == p);
        }
        if b == pivot {
            assert(s3[b] == p);
        }
        if b > pivot {
            assert(s3[b] >= p);
        }
        if a > pivot {
            assert(s3[a] >= p);
        }
    }
}

/// Quick sort, with the first element of each range as its pivot.
pub fn quick_sort(v: &mut [usize])
    ensures
        sorted(final(v)@),
        final(v)@.to_multiset() == old(v)@.to_multiset(),
{
    let n = v.len();
    quick_sort_range(v, 0, n);
}


/// A copy of positions `lo..hi`.
fn copy_range(v: &[usize], lo: usize, hi: usize) -> (r: Vec<usize>)
    requires
        lo <= hi <= v@.len(),
    ensures
        r@ == v@.subrange(lo as int, hi as int),
{
    let mut r: Vec<usize> = Vec::new();
    let mut k = lo;
    while k < hi
        invariant
            lo <= k <= hi,
            hi <= v@.len(),
            r@ == v@.subrange(lo as int, k as int),
        decreases hi - k,
    {
        r.push(v[k]);
        k += 1;
    }
    r
}

/// Merge sort: both halves are copied out, sorted, and merged back.
pub fn merge_sort(v: &mut [usize])
    ensures
        final(v)@.len() == old(v)@.len(),
        sorted(final(v)@),
        final(v)@.to_multiset() == old(v)@.to_multiset(),
    decreases old(v)@.len(),
{
    let n = v.len();
    if n <= 1 {
        return;
    }
    let mid = n / 2;
    let mut a = copy_range(v, 0, mid);
    let mut b = copy_range(v, mid, n);
    proof {
        assert(v@ == a@ + b@);
        lemma_multiset_commutative(a@, b@);
    }
    merge_sort(a.as_mut_slice());
    merge_sort(b.as_mut_slice());
    let ghost ma = a@.to_multiset();
    let ghost mb = b@.to_multiset();
    proof {
        broadcast use vstd::seq_lib::group_to_multiset_ensures;
        broadcast use vstd::multiset::group_multiset_axioms;

        assert(v@.subrange(0, 0) =~= Seq::<usize>::empty());
        assert(a@.take(0) =~= Seq::<usize>::empty());
        assert(b@.take(0) =~= Seq::<usize>::empty());
        assert(Seq::<usize>::empty().to_multiset() =~= Multiset::<usize>::empty());
        assert(Multiset::<usize>::empty().add(Multiset::<usize>::empty()) =~= Multiset::<usize>::empty());
    }
    let mut i: usize = 0;
    let mut j: usize = 0;
    while i < a.len() || j < b.len()
        invariant
            n == v@.len(),
            a@.len() + b@.len() == n,
            i <= a@.len(),
            j <= b@.len(),
            sorted(a@),
            sorted(b@),
            a@.to_multiset() == ma,
            b@.to_multiset() == mb,
            sorted_between(v@, 0, i + j),
            v@.subrange(0, i + j).to_multiset() == a@.take(i as int).to_multiset().add(
                b@.take(j as int).to_multiset(),
            ),
            i + j > 0 && i < a@.len() ==> v@[i + j - 1] <= a@[i as int],
            i + j > 0 && j < b@.len() ==> v@[i + j - 1] <= b@[j as int],
        decreases a@.len() + b@.len() - i - j,
    {
        let ghost pre = v@.subrange(0, i + j);
        let take_a = if i >= a.len() {
            false
        } else if j >= b.len() {
            true
        } else {
            a[i] < b[j]
        };
        if take_a {
            let x = a[i];
            v[i + j] = x;
            proof {
                assert(v@.subrange(0, i + j + 1) == pre.push(x));
                to_multiset_build(pre, x);
                assert(a@.take(i + 1) == a@.take(i as int).push(x));
                to_multiset_build(a@.take(i as int), x);
                broadcast use vstd::multiset::group_multiset_axioms;
                assert(v@.subrange(0, i + j + 1).to_multiset() =~= a@.take(i + 1).to_multiset().add(
                    b@.take(j as int).to_multiset(),
                ));
            }
            i += 1;
        } else {
            let x = b[j];
            v[i + j] = x;
            proof {
                assert(v@.subrange(0, i + j + 1) == pre.push(x));
                to_multiset_build(pre, x);
                assert(b@.take(j + 1) == b@.take(j as int).push(x));
                to_multiset_build(b@.take(j as int), x);
                broadcast use vstd::multiset::group_multiset_axioms;
                assert(v@.subrange(0, i + j + 1).to_multiset() =~= a@.take(i as int).to_multiset().add(
                    b@.take(j + 1).to_multiset(),
                ));
            }
            j += 1;
        }
    }
    proof {
        assert(v@.subrange(0, n as int) == v@);
        assert(a@.take(a@.len() as int) == a@);
        assert(b@.take(b@.len() as int) == b@);
    }
}


/// The parent relation holds at `i` within the first `m` positions, for
/// positions whose parent is at or after `lo`, except below `k`.
pub open spec fn heap_ok(s: Seq<usize>, m: int, lo: int, k: int) -> bool {
    &&& forall|i: int|
        0 < i < m && (i - 1) / 2 >= lo && (i - 1) / 2 != k ==> #[trigger] s[(i - 1) / 2] >= s[i]
    &&& (k > 0 && (k - 1) / 2 >= lo) ==> (forall|c: int|
        0 < c < m && (c - 1) / 2 == k ==> s[(k - 1) / 2] >= #[trigger] s[c])
}

/// Every element in positions `lo..hi` is at most `b`.
pub open spec fn all_at_most(s: Seq<usize>, lo: int, hi: int, b: usize) -> bool {
    forall|k: int| lo <= k < hi ==> #[trigger] s[k] <= b
}

/// Sifts the element at `start` down within the first `m` positions.
fn sift_down(v: &mut [usize], start: usize, m: usize, Ghost(lo): Ghost<int>)
    requires
        0 <= lo <= start < m <= old(v)@.len(),
        m <= usize::MAX / 2,
        heap_ok(old(v)@, m as int, lo, start as int),
    ensures
        final(v)@.len() == old(v)@.len(),
        final(v)@.to_multiset() == old(v)@.to_multiset(),
        heap_ok(final(v)@, m as int, lo, -1),
        forall|i: int| 0 <= i < final(v)@.len() && !(start <= i < m) ==> final(v)@[i] == old(v)@[i],
        forall|b: usize|
            all_at_most(old(v)@, start as int, m as int, b) ==> #[trigger] all_at_most(
                final(v)@,
                start as int,
                m as int,
                b,
            ),
    decreases m - start,
{
    let mut max_idx = start;
    let left = start * 2 + 1;
    let right = start * 2 + 2;
    if left < m && v[left] > v[max_idx] {
        max_idx = left;
    }
    if right < m && v[right] > v[max_idx] {
        max_idx = right;
    }
    if max_idx != start {
        let ghost s0 = v@;
        let c = max_idx;
        swap(v, max_idx, start);
        let ghost s1 = v@;
        assert forall|i: int|
            0 < i < m && (i - 1) / 2 >= lo && (i - 1) / 2 != c implies #[trigger] s1[(i - 1) / 2]
                >= s1[i] by {
            if (i - 1) / 2 == start {
            } else if i == start {
                assert(s0[(i - 1) / 2] >= s0[c as int]);
            } else if i == c {
            } else {
                assert(s0[(i - 1) / 2] >= s0[i]);
            }
        }
        assert forall|d: int| 0 < d < m && (d - 1) / 2 == c implies s1[(c - 1) / 2] >= #[trigger] s1[d] by {
            assert(s0[(d - 1) / 2] >= s0[d]);
        }
        sift_down(v, max_idx, m, Ghost(lo));
        assert forall|b: usize| all_at_most(s0, start as int, m as int, b) implies #[trigger] all_at_most(
            v@,
            start as int,
            m as int,
            b,
        ) by {
            assert forall|k: int| start <= k < m implies #[trigger] v@[k] <= b by {
                assert(s0[k] <= b);
                assert(s1[k] <= b) by {
                    if k == start {
                        assert(s0[c as int] <= b);
                    } else if k == c {
                        assert(s0[start as int] <= b);
                    }
                }
                assert(all_at_most(s1, c as int, m as int, b)) by {
                    assert forall|q: int| c <= q < m implies #[trigger] s1[q] <= b by {
                        if q == c {
                            assert(s0[start as int] <= b);
                        } else {
                            assert(s0[q] <= b);
                        }
                    }
                }
                assert(all_at_most(v@, c as int, m as int, b));
                if k < c {
                    assert(v@[k] == s1[k]);
                }
            }
        }
    } else {
        assert forall|i: int| 0 < i < m && (i - 1) / 2 >= lo implies #[trigger] v@[(i - 1) / 2] >= v@[i] by {
        }
    }
}

/// In a heap over the first `m` positions the first element is the greatest.
proof fn lemma_heap_top(s: Seq<usize>, m: int, i: int)
    requires
        heap_ok(s, m, 0, -1),
        0 <= i < m <= s.len(),
    ensures
        s[0] >= s[i],
    decreases i,
{
    if i > 0 {
        assert(s[(i - 1) / 2] >= s[i]);
        lemma_heap_top(s, m, (i - 1) / 2);
    }
}

/// Heap sort: the slice is made a max-heap, then the top is moved behind the
/// shrinking heap again and again.
pub fn heap_sort(v: &mut [usize])
    requires
        old(v)@.len() <= usize::MAX / 2,
    ensures
        sorted(final(v)@),
        final(v)@.to_multiset() == old(v)@.to_multiset(),
{
    let n = v.len();
    if n <= 1 {
        return;
    }
    let mut i: usize = n / 2 + 1;
    while i > 0
        invariant
            n == v@.len(),
            2 <= n <= usize::MAX / 2,
            i <= n / 2 + 1,
            v@.to_multiset() == old(v)@.to_multiset(),
            forall|j: int| 0 < j < n && (j - 1) / 2 >= i ==> #[trigger] v@[(j - 1) / 2] >= v@[j],
        decreases i,
    {
        i -= 1;
        if i < n {
            sift_down(v, i, n, Ghost(i as int));
        }
    }
    let mut end = n - 1;
    while end > 0
        invariant
            n == v@.len(),
            2 <= n <= usize::MAX / 2,
            end < n,
            v@.to_multiset() == old(v)@.to_multiset(),
            heap_ok(v@, end + 1, 0, -1),
            sorted_between(v@, end + 1, n as int),
            forall|a: int, b: int| 0 <= a <= end < b < n ==> v@[a] <= v@[b],
        decreases end,
    {
        let ghost s0 = v@;
        proof {
            assert forall|a: int| 0 <= a <= end implies #[trigger] s0[a] <= s0[0] by {
                lemma_heap_top(s0, end + 1, a);
            }
        }
        swap(v, 0, end);
        let ghost s1 = v@;
        assert forall|i: int| 0 < i < end && (i - 1) / 2 != 0 implies #[trigger] s1[(i - 1) / 2] >= s1[i] by {
            assert(s0[(i - 1) / 2] >= s0[i]);
        }
        proof {
            assert(all_at_most(s1, 0, end as int, s1[end as int])) by {
                assert forall|k: int| 0 <= k < end implies #[trigger] s1[k] <= s1[end as int] by {
                    if k == 0 {
                        assert(s0[end as int] <= s0[0]);
                    } else {
                        assert(s0[k] <= s0[0]);
                    }
                }
            }
        }
        sift_down(v, 0, end, Ghost(0));
        proof {
            assert(all_at_most(v@, 0, end as int, s1[end as int]));
            assert forall|a: int, b: int| 0 <= a <= end - 1 < b < n implies v@[a] <= v@[b] by {
                assert(v@[a] <= s1[end as int]);
                if b > end {
                    assert(s0[0] <= s0[b]);
                }
            }
        }
        end -= 1;
    }
}


/// The sum of the first `k` counters.
pub open spec fn total(c: Seq<usize>, k: int) -> int
    decreases k,
{
    if k <= 0 {
        0
    } else {
        total(c, k - 1) + c[k - 1]
    }
}

proof fn lemma_total_bump(c: Seq<usize>, x: int, k: int)
    requires
        0 <= x < c.len(),
        0 <= k <= c.len(),
        c[x] < usize::MAX,
    ensures
        total(c.update(x, (c[x] + 1) as usize), k) == total(c, k) + if x < k { 1int } else { 0int },
    decreases k,
{
    if k > 0 {
        lemma_total_bump(c, x, k - 1);
    }
}

proof fn lemma_total_grows(c: Seq<usize>, a: int, b: int)
    requires
        0 <= a <= b <= c.len(),
    ensures
        total(c, a) <= total(c, b),
    decreases b - a,
{
    if a < b {
        lemma_total_grows(c, a, b - 1);
    }
}

/// Counting sort of values below `up_bound`: count each value, then write
/// the values back in increasing order, each as often as it was counted.
pub fn countint_sort(v: &mut [usize], up_bound: usize)
    requires
        forall|i: int| 0 <= i < old(v)@.len() ==> old(v)@[i] < up_bound,
    ensures
        sorted(final(v)@),
        final(v)@.to_multiset() == old(v)@.to_multiset(),
{
    broadcast use vstd::seq_lib::group_to_multiset_ensures;
    broadcast use vstd::multiset::group_multiset_axioms;

    let n = v.len();
    let ghost ms = v@.to_multiset();
    let mut counter: Vec<usize> = Vec::new();
    let mut u: usize = 0;
    while u < up_bound
        invariant
            u <= up_bound,
            counter@.len() == u,
            forall|x: int| 0 <= x < u ==> #[trigger] counter@[x] == 0,
        decreases up_bound - u,
    {
        counter.push(0);
        u += 1;
    }
    assert forall|k: int| 0 <= k <= up_bound implies #[trigger] total(counter@, k) == 0 by {
        lemma_total_zero(counter@, k);
    }
    assert(v@.take(0) =~= Seq::<usize>::empty());
    let mut i: usize = 0;
    while i < n
        invariant
            n == v@.len(),
            v@ == old(v)@,
            i <= n,
            counter@.len() == up_bound,
            forall|j: int| 0 <= j < n ==> v@[j] < up_bound,
            forall|x: int| 0 <= x < up_bound ==> #[trigger] counter@[x] == v@.take(i as int).to_multiset().count(x as usize),
            total(counter@, up_bound as int) == i,
        decreases n - i,
    {
        let x = v[i];
        assert(v@.take(i + 1) == v@.take(i as int).push(x));
        let ghost c0 = counter@;
        proof {
            lemma_total_has(c0, x as int, up_bound as int);
        }
        let cx = counter[x];
        counter.set(x, cx + 1);
        proof {
            lemma_total_bump(c0, x as int, up_bound as int);
            to_multiset_build(v@.take(i as int), x);
            assert(v@.take(i + 1).to_multiset() =~= v@.take(i as int).to_multiset().insert(x));
        }
        i += 1;
    }
    assert(v@.take(n as int) == v@);
    assert forall|x: usize| x >= up_bound implies ms.count(x) == 0 by {
        if ms.count(x) > 0 {
            vstd::seq_lib::to_multiset_contains(old(v)@, x);
        }
    }
    let mut index: usize = 0;
    let mut val: usize = 0;
    assert(v@.take(0) =~= Seq::<usize>::empty());
    while val < up_bound
        invariant
            n == v@.len(),
            counter@.len() == up_bound,
            val <= up_bound,
            forall|x: int| 0 <= x < up_bound ==> #[trigger] counter@[x] == ms.count(x as usize),
            total(counter@, up_bound as int) == n,
            index == total(counter@, val as int),
            sorted(v@.take(index as int)),
            forall|j: int| 0 <= j < index ==> v@[j] < val,
            forall|x: usize| #[trigger] v@.take(index as int).to_multiset().count(x) == if x < val {
                ms.count(x)
            } else {
                0
            },
        decreases up_bound - val,
    {
        let times = counter[val];
        proof {
            lemma_total_grows(counter@, val + 1, up_bound as int);
        }
        let mut c: usize = 0;
        while c < times
            invariant
                n == v@.len(),
                counter@.len() == up_bound,
                val < up_bound,
                times == counter@[val as int],
                times == ms.count(val),
                c <= times,
                index == total(counter@, val as int) + c,
                total(counter@, val + 1) <= n,
                sorted(v@.take(index as int)),
                forall|j: int| 0 <= j < index ==> v@[j] <= val,
                forall|x: usize| #[trigger] v@.take(index as int).to_multiset().count(x) == if x < val {
                    ms.count(x)
                } else if x == val {
                    c as nat
                } else {
                    0
                },
            decreases times - c,
        {
            let ghost w0 = v@.take(index as int);
            v[index] = val;
            assert(v@.take(index + 1) == w0.push(val));
            proof {
                to_multiset_build(w0, val);
                assert(v@.take(index + 1).to_multiset() =~= w0.to_multiset().insert(val));
            }
            index += 1;
            c += 1;
        }
        val += 1;
    }
    assert(v@.take(index as int) == v@);
    assert(v@.to_multiset() =~= ms);
}

proof fn lemma_total_has(c: Seq<usize>, x: int, k: int)
    requires
        0 <= x < k <= c.len(),
    ensures
        total(c, k) >= c[x],
    decreases k,
{
    if k - 1 > x {
        lemma_total_has(c, x, k - 1);
    }
    lemma_total_grows(c, 0, k - 1);
    lemma_total_nonneg(c, k - 1);
}

proof fn lemma_total_nonneg(c: Seq<usize>, k: int)
    requires
        0 <= k <= c.len(),
    ensures
        total(c, k) >= 0,
    decreases k,
{
    if k > 0 {
        lemma_total_nonneg(c, k - 1);
    }
}

proof fn lemma_total_zero(c: Seq<usize>, k: int)
    requires
        0 <= k <= c.len(),
        forall|x: int| 0 <= x < c.len() ==> #[trigger] c[x] == 0,
    ensures
        total(c, k) == 0,
    decreases k,
{
    if k > 0 {
        lemma_total_zero(c, k - 1);
    }
}

} // verus!
