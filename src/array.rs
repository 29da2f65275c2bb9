//! Boyer-Moore majority vote.
use vstd::prelude::*;

verus! {

/// How many times `x` occurs in `s`.
pub open spec fn occurrences(s: Seq<i64>, x: i64) -> nat
    decreases s.len(),
{
    if s.len() == 0 {
        0
    } else {
        occurrences(s.drop_last(), x) + if s.last() == x { 1nat } else { 0nat }
    }
}

/// The candidate of a single majority-vote pass: a reference to an element of
/// `arr`, which is the majority element whenever one occurs in more than half
/// of the positions.
pub fn majority_vote(arr: &[i64]) -> (r: &i64)
    requires
        arr@.len() > 0,
    ensures
        arr@.contains(*r),
        forall|x: i64| 2 * occurrences(arr@, x) > arr@.len() ==> *r == x,
{
    let n = arr.len();
    let mut count: usize = 0;
    let mut e: usize = 0;
    let mut i: usize = 0;
    while i < n
        invariant
            n == arr@.len(),
            i <= n,
            e < n,
            count <= i,
            forall|x: i64|
                x != arr@[e as int] ==> 2 * occurrences(arr@.take(i as int), x) + count <= i,
            2 * occurrences(arr@.take(i as int), arr@[e as int]) <= i + count,
        decreases n - i,
    {
        assert(arr@.take(i + 1).drop_last() == arr@.take(i as int));
        assert(arr@.take(i + 1).last() == arr@[i as int]);
        assert forall|x: i64|
            occurrences(#[trigger] arr@.take(i + 1), x) == occurrences(arr@.take(i as int), x)
                + if arr@[i as int] == x { 1nat } else { 0nat } by {}
        let ghost e0 = arr@[e as int];
        let ghost c0 = count;
        if count == 0 {
            e = i;
            count = 1;
        } else if arr[i] == arr[e] {
            count += 1;
        } else {
            count -= 1;
        }
        proof {
            let v = arr@[i as int];
            assert forall|x: i64| x != arr@[e as int] implies 2 * #[trigger] occurrences(
                arr@.take(i + 1),
                x,
            ) + count <= i + 1 by {
                if x != e0 {
                    assert(2 * occurrences(arr@.take(i as int), x) + c0 <= i);
                } else {
                    assert(2 * occurrences(arr@.take(i as int), x) <= i + c0);
                }
            }
            let y = arr@[e as int];
            if y != e0 {
                assert(2 * occurrences(arr@.take(i as int), y) + c0 <= i);
            } else {
                assert(2 * occurrences(arr@.take(i as int), y) <= i + c0);
            }
        }
        i += 1;
    }
    assert(arr@.take(n as int) == arr@);
    &arr[e]
}

} // verus!
