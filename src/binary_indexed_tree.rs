//! The lowest-set-bit step by which binary indexed (Fenwick) trees move.
use vstd::prelude::*;

verus! {

/// `r` is the lowest set bit of `n`: a power of two, set in `n`, with no
/// set bit of `n` below it.
pub open spec fn is_low_bit(n: u64, r: u64) -> bool {
    &&& r > 0
    &&& r & (r - 1) as u64 == 0
    &&& n & r == r
    &&& n & (r - 1) as u64 == 0
}

/// The lowest set bit of `n` (0 for 0).
pub fn lowbit(n: usize) -> (r: usize)
    ensures
        n == 0 ==> r == 0,
        n > 0 ==> is_low_bit(n as u64, r as u64),
{
    if n == 0 {
        return 0;
    }
    let x = n as u64;
    let m = !x;
    assert(m < 0xFFFF_FFFF_FFFF_FFFFu64) by (bit_vector)
        requires
            m == !x,
            x > 0,
    ;
    // x & -x in two's complement
    let y = x & (m + 1);
    assert(y > 0 && y & (y - 1) as u64 == 0 && x & y == y && x & (y - 1) as u64 == 0 && y <= x)
        by (bit_vector)
        requires
            m == !x,
            x > 0,
            y == x & (m + 1) as u64,
    ;
    y as usize
}

} // verus!
