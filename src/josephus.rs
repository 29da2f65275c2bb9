//! The Josephus problem, solved by its linear recurrence.
use vstd::arithmetic::div_mod::lemma_add_mod_noop;
use vstd::prelude::*;

verus! {

/// The position (from 0) of the survivor among `n` people when every `k`-th
/// is removed: `J(0) = 0` and `J(i) = (J(i - 1) + k) mod i`.
pub open spec fn survivor(n: nat, k: nat) -> nat
    decreases n,
{
    if n == 0 {
        0
    } else {
        (survivor((n - 1) as nat, k) + k) % n
    }
}

/// The survivor's position among `n` people counting `k` at a time.
pub fn josephus_linear(n: usize, k: usize) -> (r: usize)
    ensures
        r == survivor(n as nat, k as nat),
{
    let mut idx: usize = 0;
    let mut i: usize = 0;
    while i < n
        invariant
            i <= n,
            idx == survivor(i as nat, k as nat),
            i > 0 ==> idx < i,
            i == 0 ==> idx == 0,
        decreases n - i,
    {
        i = i + 1;
        proof {
            lemma_add_mod_noop(idx as int, k as int, i as int);
            vstd::arithmetic::div_mod::lemma_mod_twice(k as int, i as int);
            assert((idx as int) % (i as int) == idx as int) by {
                vstd::arithmetic::div_mod::lemma_small_mod(idx as nat, i as nat);
            }
        }
        let step = k % i;
        proof {
            lemma_add_mod_noop(idx as int, step as int, i as int);
            vstd::arithmetic::div_mod::lemma_small_mod(step as nat, i as nat);
            if idx + step >= i {
                vstd::arithmetic::div_mod::lemma_fundamental_div_mod_converse(
                    idx + step,
                    i as int,
                    1,
                    idx + step - i,
                );
            } else {
                vstd::arithmetic::div_mod::lemma_small_mod((idx + step) as nat, i as nat);
            }
        }
        // (idx + step) mod i, without leaving the range of usize
        idx = if idx >= i - step {
            idx - (i - step)
        } else {
            idx + step
        };
    }
    idx
}

} // verus!
