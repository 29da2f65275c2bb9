//! Knuth-Morris-Pratt string search over bytes.
use vstd::prelude::*;
use vstd::string::StringSliceAdditionalSpecFns;

verus! {

/// `len` is the length of a border of `t[..=i]`: a proper prefix of it that
/// is also its suffix.
pub open spec fn is_border(t: Seq<u8>, i: int, len: int) -> bool {
    &&& 0 <= len <= i
    &&& forall|q: int| 0 <= q < len ==> #[trigger] t[q] == t[i + 1 - len + q]
}

/// A border of a border is a border: if `t[..=i]` has a border of length
/// `j` and `t[..j]` one of length `b`, then `t[..=i]` has one of length `b`.
proof fn lemma_border_of_border(t: Seq<u8>, i: int, j: int, b: int)
    requires
        0 < j,
        is_border(t, i, j),
        is_border(t, j - 1, b),
    ensures
        is_border(t, i, b),
{
    assert forall|q: int| 0 <= q < b implies #[trigger] t[q] == t[i + 1 - b + q] by {
        assert(t[q] == t[j - b + q]);
        assert(t[j - b + q] == t[i + 1 - j + (j - b + q)]);
    }
}

/// A shorter border of `t[..=i]` is also a border of its longer border.
proof fn lemma_border_within(t: Seq<u8>, i: int, j: int, l: int)
    requires
        0 < l < j,
        is_border(t, i, j),
        is_border(t, i, l),
    ensures
        is_border(t, j - 1, l),
{
    assert forall|q: int| 0 <= q < l implies #[trigger] t[q] == t[j - l + q] by {
        assert(t[q] == t[i + 1 - l + q]);
        assert(t[j - l + q] == t[i + 1 - j + (j - l + q)]);
    }
}

/// Extending the longest border of `t[..i]` that the next byte continues
/// gives the longest border of `t[..=i]`.
proof fn lemma_extend_border(t: Seq<u8>, i: int, j: int)
    requires
        1 <= i < t.len(),
        0 <= j <= i - 1,
        is_border(t, i - 1, j),
        forall|l: int| j < l <= i - 1 && #[trigger] is_border(t, i - 1, l) ==> t[l] != t[i],
        j == 0 || t[i] == t[j],
    ensures
        longest_border(t, i, if t[i] == t[j] { j + 1 } else { 0 }),
{
    let len = if t[i] == t[j] { j + 1 } else { 0 };
    if t[i] == t[j] {
        assert forall|q: int| 0 <= q < j + 1 implies #[trigger] t[q] == t[i + 1 - (j + 1) + q] by {
            if q < j {
                assert(t[q] == t[(i - 1) + 1 - j + q]);
            }
        }
    }
    assert forall|l: int| len < l <= i implies !#[trigger] is_border(t, i, l) by {
        if is_border(t, i, l) {
            assert(is_border(t, i - 1, l - 1)) by {
                assert forall|q: int| 0 <= q < l - 1 implies #[trigger] t[q] == t[(i - 1) + 1 - (l
                    - 1) + q] by {
                    assert(t[q] == t[i + 1 - l + q]);
                }
            }
            assert(t[l - 1] == t[i + 1 - l + (l - 1)]);
            if l - 1 > j {
                assert(t[l - 1] != t[i]);
            }
        }
    }
}

/// `len` is the length of the longest border of `t[..=i]`.
pub open spec fn longest_border(t: Seq<u8>, i: int, len: int) -> bool {
    &&& is_border(t, i, len)
    &&& forall|l: int| len < l <= i ==> !#[trigger] is_border(t, i, l)
}

/// The prefix function of `s`: entry `i` is the length of the longest border
/// of `s[..=i]`, found by extending the longest border of `s[..i]` or falling
/// back to shorter ones.
pub fn prefix_n(s: &str) -> (p: Vec<usize>)
    ensures
        p@.len() == s.spec_bytes().len(),
        forall|i: int| 0 <= i < p@.len() ==> #[trigger] longest_border(s.spec_bytes(), i, p@[i] as int),
{
    let chars = s.as_bytes();
    let ghost t = chars@;
    let n = chars.len();
    let mut p: Vec<usize> = Vec::new();
    if n == 0 {
        return p;
    }
    p.push(0);
    let mut i: usize = 1;
    while i < n
        invariant
            t == chars@,
            t == s.spec_bytes(),
            n == t.len(),
            1 <= i <= n,
            p@.len() == i,
            forall|k: int| 0 <= k < i ==> #[trigger] longest_border(t, k, p@[k] as int),
        decreases n - i,
    {
        let mut j = p[i - 1];
        assert(longest_border(t, i - 1, j as int));
        // `j` is the length of a border of t[..i]
        while j > 0 && chars[i] != chars[j]
            invariant
                t == chars@,
                n == t.len(),
                1 <= i < n,
                p@.len() == i,
                forall|k: int| 0 <= k < i ==> #[trigger] longest_border(t, k, p@[k] as int),
                j <= i - 1,
                is_border(t, i - 1, j as int),
                forall|l: int| j < l <= i - 1 && #[trigger] is_border(t, i - 1, l) ==> t[l] != t[i as int],
            decreases j,
        {
            let ghost j0 = j as int;
            let b = p[j - 1];
            assert(longest_border(t, j0 - 1, b as int));
            proof {
                lemma_border_of_border(t, i - 1, j0, b as int);
                assert forall|l: int| b < l <= i - 1 && #[trigger] is_border(t, i - 1, l) implies t[l]
                    != t[i as int] by {
                    if l < j0 {
                        lemma_border_within(t, i - 1, j0, l);
                    }
                }
            }
            j = b;
        }
        proof {
            lemma_extend_border(t, i as int, j as int);
        }
        if chars[i] == chars[j] {
            j += 1;
        }
        p.push(j);
        i += 1;
    }
    p
}

/// `t[..len]` is a suffix of `s[..i]`.
pub open spec fn ends_with(s: Seq<u8>, t: Seq<u8>, i: int, len: int) -> bool {
    &&& 0 <= len <= i
    &&& len <= t.len()
    &&& forall|q: int| 0 <= q < len ==> #[trigger] t[q] == s[i - len + q]
}

/// `t` occurs in `s` at position `j`.
pub open spec fn occurs_at(s: Seq<u8>, t: Seq<u8>, j: int) -> bool {
    0 <= j && j + t.len() <= s.len() && s.subrange(j, j + t.len()) == t
}

proof fn lemma_occurs_ends(s: Seq<u8>, t: Seq<u8>, j: int)
    requires
        0 <= j,
        j + t.len() <= s.len(),
    ensures
        occurs_at(s, t, j) <==> ends_with(s, t, j + t.len(), t.len() as int),
{
    if ends_with(s, t, j + t.len(), t.len() as int) {
        assert(s.subrange(j, j + t.len()) =~= t);
    }
    if occurs_at(s, t, j) {
        assert forall|q: int| 0 <= q < t.len() implies #[trigger] t[q] == s[j + t.len() - t.len()
            + q] by {
            assert(s.subrange(j, j + t.len())[q] == s[j + q]);
        }
    }
}

/// The first position at which `t` occurs in `s`, or `None` when it occurs
/// nowhere.
pub fn kmp(s: &str, t: &str) -> (r: Option<usize>)
    requires
        t.spec_bytes().len() > 0,
    ensures
        match r {
            Some(i) => {
                &&& occurs_at(s.spec_bytes(), t.spec_bytes(), i as int)
                &&& forall|j: int| 0 <= j < i ==> !occurs_at(s.spec_bytes(), t.spec_bytes(), j)
            },
            None => forall|j: int| 0 <= j ==> !occurs_at(s.spec_bytes(), t.spec_bytes(), j),
        },
{
    let p = prefix_n(t);
    let tb = t.as_bytes();
    let sb = s.as_bytes();
    let ghost ss = sb@;
    let ghost ts = tb@;
    let n = tb.len();
    let mut k: usize = 0;
    let mut i: usize = 0;
    while i < sb.len()
        invariant
            tb@ == t.spec_bytes(),
            sb@ == s.spec_bytes(),
            ss == sb@,
            ts == tb@,
            n == ts.len(),
            n > 0,
            p@.len() == n,
            forall|a: int| 0 <= a < n ==> #[trigger] longest_border(ts, a, p@[a] as int),
            i <= ss.len(),
            k < n,
            ends_with(ss, ts, i as int, k as int),
            forall|l: int| k < l <= n ==> !#[trigger] ends_with(ss, ts, i as int, l),
            forall|e: int| e <= i ==> !#[trigger] ends_with(ss, ts, e, n as int),
        decreases ss.len() - i,
    {
        let v = sb[i];
        let ghost k_start = k as int;
        while k > 0 && v != tb[k]
            invariant
                tb@ == t.spec_bytes(),
                ss == sb@,
                ts == tb@,
                n == ts.len(),
                p@.len() == n,
                forall|a: int| 0 <= a < n ==> #[trigger] longest_border(ts, a, p@[a] as int),
                i < ss.len(),
                v == ss[i as int],
                k < n,
                ends_with(ss, ts, i as int, k as int),
                forall|l: int| k < l < n && #[trigger] ends_with(ss, ts, i as int, l) ==> ts[l] != v,
                !ends_with(ss, ts, i as int, n as int),
            decreases k,
        {
            let ghost k0 = k as int;
            let b = p[k - 1];
            assert(longest_border(ts, k0 - 1, b as int));
            proof {
                assert forall|q: int| 0 <= q < b implies #[trigger] ts[q] == ss[i - b + q] by {
                    assert(ts[q] == ts[k0 - b + q]);
                    assert(ts[k0 - b + q] == ss[i - k0 + (k0 - b + q)]);
                }
                assert forall|l: int| b < l < n && #[trigger] ends_with(ss, ts, i as int, l) implies ts[l]
                    != v by {
                    if l < k0 {
                        assert(is_border(ts, k0 - 1, l)) by {
                            assert forall|q: int| 0 <= q < l implies #[trigger] ts[q] == ts[k0 - l + q] by {
                                assert(ts[q] == ss[i - l + q]);
                                assert(ts[k0 - l + q] == ss[i - k0 + (k0 - l + q)]);
                            }
                        }
                    } else if l == k0 {
                    }
                }
            }
            k = b;
        }
        let ghost k1 = k as int;
        if v == tb[k] {
            k += 1;
        } else {
            k = 0;
        }
        proof {
            assert(ends_with(ss, ts, i + 1, k as int)) by {
                if k > 0 {
                    assert forall|q: int| 0 <= q < k implies #[trigger] ts[q] == ss[i + 1 - k + q] by {
                        if q < k1 {
                            assert(ts[q] == ss[i - k1 + q]);
                        }
                    }
                }
            }
            assert forall|l: int| k < l <= n implies !#[trigger] ends_with(ss, ts, i + 1, l) by {
                if ends_with(ss, ts, i + 1, l) {
                    assert(ends_with(ss, ts, i as int, l - 1)) by {
                        assert forall|q: int| 0 <= q < l - 1 implies #[trigger] ts[q] == ss[i - (l
                            - 1) + q] by {
                            assert(ts[q] == ss[i + 1 - l + q]);
                        }
                    }
                    assert(ts[l - 1] == ss[i + 1 - l + (l - 1)]);
                    if l - 1 > k1 {
                        assert(ts[l - 1] != v);
                    }
                }
            }
        }
        i += 1;
        if k == n {
            proof {
                lemma_occurs_ends(ss, ts, i - n);
                assert forall|j: int| 0 <= j < i - n implies !occurs_at(ss, ts, j) by {
                    lemma_occurs_ends(ss, ts, j);
                    assert(!ends_with(ss, ts, j + n, n as int));
                }
            }
            return Some(i - k);
        }
    }
    proof {
        assert forall|j: int| 0 <= j implies !occurs_at(ss, ts, j) by {
            if j + n <= ss.len() {
                lemma_occurs_ends(ss, ts, j);
                assert(!ends_with(ss, ts, j + n, n as int));
            }
        }
    }
    None
}

} // verus!
