//! Sparse tables: after a table of maxima over power-of-two ranges is built,
//! the maximum of any range is two lookups.
use vstd::arithmetic::power2::{
    lemma2_to64, lemma_pow2_pos, lemma_pow2_strictly_increases, lemma_pow2_unfold, pow2,
};
use vstd::prelude::*;

verus! {

/// The maximum of `s[a..b]` (a non-empty range).
pub open spec fn range_max(s: Seq<isize>, a: int, b: int) -> isize
    recommends
        a < b,
    decreases b - a,
{
    if b - a <= 1 {
        s[a]
    } else {
        let m = range_max(s, a, b - 1);
        if m >= s[b - 1] {
            m
        } else {
            s[b - 1]
        }
    }
}

/// A sparse table for the values in row 0: row `k` holds at position `i` the
/// maximum of row `k - 1` at `i` and at `i + 2^(k-1)`, so the maximum of the
/// `2^k` values from `i`; there is a row for every `k` with `2^k` at most the
/// number of values.
#[verifier::opaque]
pub open spec fn table_ok(f: Seq<Vec<isize>>) -> bool {
    let n = f[0]@.len();
    &&& 1 <= f.len() <= 64
    &&& n <= usize::MAX / 2
    &&& pow2((f.len() - 1) as nat) <= n + 1
    &&& pow2(f.len() as nat) > n
    &&& forall|k: int| 0 <= k < f.len() ==> #[trigger] f[k]@.len() + pow2(k as nat) == n + 1
    &&& forall|k: int, i: int|
        1 <= k < f.len() && 0 <= i < f[k]@.len() ==> #[trigger] f[k]@[i] == ({
            let a = f[k - 1]@[i];
            let b = f[k - 1]@[i + pow2((k - 1) as nat)];
            if a >= b {
                a
            } else {
                b
            }
        })
}

proof fn lemma_split(s: Seq<isize>, a: int, m: int, b: int)
    requires
        a < m < b,
    ensures
        range_max(s, a, b) == ({
            let x = range_max(s, a, m);
            let y = range_max(s, m, b);
            if x >= y {
                x
            } else {
                y
            }
        }),
    decreases b - a,
{
    if b - 1 > m {
        lemma_split(s, a, m, b - 1);
    }
}

proof fn lemma_rows(f: Seq<Vec<isize>>, k: int, i: int)
    requires
        table_ok(f),
        0 <= k < f.len(),
        0 <= i < f[k]@.len(),
    ensures
        f[k]@[i] == range_max(f[0]@, i, i + pow2(k as nat)),
    decreases k,
{
    reveal(table_ok);
    if k == 0 {
        lemma2_to64();
    } else {
        let h = pow2((k - 1) as nat);
        lemma_pow2_unfold(k as nat);
        lemma_pow2_pos((k - 1) as nat);
        lemma2_to64();
        assert(f[k]@.len() + 2 * h == f[0]@.len() + 1);
        assert(f[k - 1]@.len() + h == f[0]@.len() + 1);
        lemma_rows(f, k - 1, i);
        lemma_rows(f, k - 1, i + h);
        lemma_split(f[0]@, i, i + h, i + 2 * h);
    }
}

/// The number of whole rows for `n` values: the least `k` with `2^k > n`.
fn row_count(n: usize) -> (k: usize)
    requires
        n <= usize::MAX / 2,
    ensures
        1 <= k <= 64,
        pow2((k - 1) as nat) <= n + 1,
        pow2(k as nat) > n,
{
    proof {
        lemma2_to64();
    }
    let mut k: usize = 1;
    let mut p: usize = 2;
    while p <= n
        invariant
            1 <= k <= 63,
            p == pow2(k as nat),
            pow2((k - 1) as nat) <= n + 1,
            n <= usize::MAX / 2,
        decreases 64 - k,
    {
        proof {
            lemma_pow2_unfold((k + 1) as nat);
            lemma_pow2_unfold(64);
            lemma2_to64();
            if k >= 63 {
                assert(p == pow2(63));
            }
        }
        assert(k < 63);
        p = p * 2;
        k += 1;
    }
    k
}

/// Builds the sparse table of `v`: row 0 is `v` itself.
pub fn init(v: &[isize]) -> (f: Vec<Vec<isize>>)
    requires
        v@.len() <= usize::MAX / 2,
    ensures
        table_ok(f@),
        f@[0]@ == v@,
{
    let n = v.len();
    let rows = row_count(n);
    let mut f: Vec<Vec<isize>> = Vec::new();
    let mut first: Vec<isize> = Vec::new();
    let mut i: usize = 0;
    while i < n
        invariant
            n == v@.len(),
            i <= n,
            first@ == v@.subrange(0, i as int),
        decreases n - i,
    {
        first.push(v[i]);
        i += 1;
    }
    assert(first@ == v@);
    proof {
        lemma2_to64();
    }
    f.push(first);
    let mut k: usize = 1;
    let mut half: usize = 1;
    while k < rows
        invariant
            1 <= k <= rows <= 64,
            n == v@.len(),
            n <= usize::MAX / 2,
            pow2((rows - 1) as nat) <= n + 1,
            pow2(rows as nat) > n,
            half == pow2((k - 1) as nat),
            f@.len() == k,
            f@[0]@ == v@,
            forall|j: int| 0 <= j < f@.len() ==> #[trigger] f@[j]@.len() + pow2(j as nat) == n + 1,
            forall|j: int, a: int|
                1 <= j < f@.len() && 0 <= a < f@[j]@.len() ==> #[trigger] f@[j]@[a] == ({
                    let x = f@[j - 1]@[a];
                    let y = f@[j - 1]@[a + pow2((j - 1) as nat)];
                    if x >= y {
                        x
                    } else {
                        y
                    }
                }),
        decreases rows - k,
    {
        proof {
            lemma_pow2_unfold(k as nat);
            if k < rows - 1 {
                lemma_pow2_strictly_increases(k as nat, (rows - 1) as nat);
            }
        }
        let width = n + 1 - 2 * half;
        let mut row: Vec<isize> = Vec::new();
        let mut a: usize = 0;
        while a < width
            invariant
                1 <= k < rows,
                f@.len() == k,
                half == pow2((k - 1) as nat),
                width + 2 * half == n + 1,
                f@[k - 1]@.len() + half == n + 1,
                a <= width,
                row@.len() == a,
                forall|b: int| 0 <= b < a ==> #[trigger] row@[b] == ({
                    let x = f@[k - 1]@[b];
                    let y = f@[k - 1]@[b + half];
                    if x >= y {
                        x
                    } else {
                        y
                    }
                }),
            decreases width - a,
        {
            let x = f[k - 1][a];
            let y = f[k - 1][a + half];
            row.push(if x >= y { x } else { y });
            a += 1;
        }
        f.push(row);
        k += 1;
        half = half * 2;
    }
    proof {
        reveal(table_ok);
    }
    f
}

/// The greatest `k` with `2^k <= len`, and `2^k`.
fn floor_log2(len: usize) -> (r: (usize, usize))
    requires
        1 <= len <= usize::MAX / 2,
    ensures
        r.1 == pow2(r.0 as nat),
        r.1 <= len < 2 * r.1,
{
    let mut k: usize = 0;
    let mut p: usize = 1;
    proof {
        lemma2_to64();
    }
    while p * 2 <= len
        invariant
            p == pow2(k as nat),
            1 <= p <= len,
            len <= usize::MAX / 2,
            k < 64,
        decreases len - p,
    {
        proof {
            lemma_pow2_unfold((k + 1) as nat);
            lemma2_to64();
            if k + 1 >= 64 {
                lemma_pow2_unfold(64);
                if k + 1 > 64 {
                    lemma_pow2_strictly_increases(64, (k + 1) as nat);
                }
            }
        }
        p = p * 2;
        k += 1;
    }
    (k, p)
}

/// The sizes that a sparse table promises.
proof fn lemma_table_shape(f: Seq<Vec<isize>>, k: int)
    requires
        table_ok(f),
    ensures
        1 <= f.len() <= 64,
        f[0]@.len() <= usize::MAX / 2,
        pow2(f.len() as nat) > f[0]@.len(),
        0 <= k < f.len() ==> f[k]@.len() + pow2(k as nat) == f[0]@.len() + 1,
{
    reveal(table_ok);
}

/// Two overlapping power-of-two ranges that cover `a..b` give its maximum.
proof fn lemma_cover(s: Seq<isize>, a: int, b: int, q: int)
    requires
        1 <= q <= b - a < 2 * q,
    ensures
        range_max(s, a, b) == ({
            let x = range_max(s, a, a + q);
            let y = range_max(s, b - q, b);
            if x >= y {
                x
            } else {
                y
            }
        }),
{
    if b - q > a {
        lemma_split(s, a, b - q, b);
        lemma_split(s, a, b - q, a + q);
        if a + q < b {
            lemma_split(s, b - q, a + q, b);
        }
    }
}

/// The maximum of the values at positions `l..=r` of the table's row 0.
pub fn max(f: &[Vec<isize>], l: usize, r: usize) -> (m: isize)
    requires
        table_ok(f@),
        l <= r < f@[0]@.len(),
    ensures
        m == range_max(f@[0]@, l as int, r + 1),
{
    proof {
        lemma_table_shape(f@, 0);
    }
    let len = r - l + 1;
    let (k, p) = floor_log2(len);
    proof {
        lemma_table_shape(f@, k as int);
        let n = f@[0]@.len();
        if k >= f@.len() {
            if k > f@.len() {
                lemma_pow2_strictly_increases(f@.len() as nat, k as nat);
            }
        }
        assert(f@[k as int]@.len() + p == n + 1);
        lemma_rows(f@, k as int, l as int);
        lemma_rows(f@, k as int, r + 1 - p);
        lemma_cover(f@[0]@, l as int, r + 1, p as int);
    }
    let x = f[k][l];
    let y = f[k][r + 1 - p];
    if x >= y {
        x
    } else {
        y
    }
}

} // verus!
