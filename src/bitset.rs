//! A growable set of small non-negative integers, one bit per member, packed
//! into 64-bit words.
use vstd::prelude::*;

verus! {

/// Positions `0..len()` are stored; setting a position beyond grows the set.
pub struct BitSet {
    length: usize,
    bits: Vec<u64>,
}

const ALIGN: usize = 6;

const WORD_SIZE: usize = 64;

/// Whether bit `b` of word `w` is one.
pub open spec fn bit_of(w: u64, b: nat) -> bool {
    (w >> (b as u64)) & 1u64 == 1u64
}

proof fn lemma_bit_set(w: u64, b: u64, j: u64)
    requires
        b < 64,
        j < 64,
    ensures
        ((w | (1u64 << b)) >> j) & 1u64 == 1u64 <==> (j == b || (w >> j) & 1u64 == 1u64),
{
    assert(((w | (1u64 << b)) >> j) & 1u64 == 1u64 <==> (j == b || (w >> j) & 1u64 == 1u64))
        by (bit_vector)
        requires
            b < 64,
            j < 64,
    ;
}

proof fn lemma_bit_test(w: u64, b: u64)
    requires
        b < 64,
    ensures
        (w & (1u64 << b) != 0u64) == ((w >> b) & 1u64 == 1u64),
{
    assert((w & (1u64 << b) != 0u64) == ((w >> b) & 1u64 == 1u64)) by (bit_vector)
        requires
            b < 64,
    ;
}

proof fn lemma_zero_word(j: u64)
    ensures
        (0u64 >> j) & 1u64 != 1u64,
{
    assert((0u64 >> j) & 1u64 != 1u64) by (bit_vector);
}

proof fn lemma_split(n: usize)
    ensures
        n >> 6usize == n / 64,
        n & 63usize == n % 64,
{
    assert(n >> 6usize == n / 64) by (bit_vector);
    assert(n & 63usize == n % 64) by (bit_vector);
}

/// The number of 64-bit words needed for `n` bits: `n / 64` rounded up.
pub fn alignof6(n: usize) -> (r: usize)
    ensures
        r == (n + 63) / 64,
{
    proof {
        lemma_split(n);
    }
    if n & (WORD_SIZE - 1) == 0 {
        return n >> ALIGN;
    }
    (n >> ALIGN) + 1
}

/// The position of bit `n` within its word.
fn word_index(n: usize) -> (r: usize)
    ensures
        r == n % 64,
{
    proof {
        lemma_split(n);
    }
    n & (WORD_SIZE - 1)
}

impl BitSet {
    /// The stored length is the number of bits in the words.
    pub closed spec fn wf(&self) -> bool {
        self.length == self.bits@.len() * 64
    }

    /// The number of positions stored.
    pub closed spec fn len_spec(&self) -> nat {
        self.length as nat
    }

    /// Whether `i` is a member.
    pub closed spec fn has(&self, i: nat) -> bool {
        i < self.length && bit_of(self.bits@[(i / 64) as int], i % 64)
    }

    /// An empty set with room for at least `cap` positions, rounded up to
    /// whole words.
    pub fn new(cap: usize) -> (r: Self)
        requires
            cap <= usize::MAX - 63,
        ensures
            r.wf(),
            r.len_spec() == (cap + 63) / 64 * 64,
            forall|i: nat| !r.has(i),
    {
        let size = alignof6(cap);
        let bits: Vec<u64> = vec![0; size];
        let r = Self { length: size * WORD_SIZE, bits };
        assert forall|i: nat| !r.has(i) by {
            if i < r.length {
                lemma_zero_word((i % 64) as u64);
            }
        }
        r
    }

    /// The number of positions stored (a multiple of 64).
    pub fn len(&self) -> (r: usize)
        ensures
            r == self.len_spec(),
    {
        self.length
    }

    /// Removes every member; the length stays.
    pub fn reset(&mut self)
        requires
            old(self).wf(),
        ensures
            final(self).wf(),
            final(self).len_spec() == old(self).len_spec(),
            forall|i: nat| !final(self).has(i),
    {
        let n = self.bits.len();
        let mut k: usize = 0;
        while k < n
            invariant
                n == self.bits@.len(),
                self.length == old(self).length,
                self.length == n * 64,
                k <= n,
                forall|w: int| 0 <= w < k ==> self.bits@[w] == 0u64,
            decreases n - k,
        {
            self.bits.set(k, 0);
            k += 1;
        }
        assert forall|i: nat| !self.has(i) by {
            if i < self.length {
                lemma_zero_word((i % 64) as u64);
            }
        }
    }

    /// Grows the set to hold at least `length` positions, adding whole words.
    fn extend(&mut self, length: usize)
        requires
            old(self).wf(),
            old(self).length < length <= usize::MAX - 127,
        ensures
            final(self).wf(),
            final(self).length >= length,
            final(self).length <= length + 63,
            forall|i: nat| final(self).has(i) == old(self).has(i),
    {
        let new_size = alignof6(length - self.length);
        let mut k: usize = 0;
        while k < new_size
            invariant
                self.bits@.len() == old(self).bits@.len() + k,
                self.length == old(self).length,
                k <= new_size,
                forall|w: int| 0 <= w < old(self).bits@.len() ==> self.bits@[w] == old(self).bits@[w],
                forall|w: int| old(self).bits@.len() <= w < self.bits@.len() ==> self.bits@[w] == 0u64,
            decreases new_size - k,
        {
            self.bits.push(0);
            k += 1;
        }
        self.length = self.length + new_size * WORD_SIZE;
        assert forall|i: nat| self.has(i) == old(self).has(i) by {
            if old(self).length <= i < self.length {
                lemma_zero_word((i % 64) as u64);
            }
        }
    }

    /// Adds `pos`, growing the set first when `pos` lies beyond it.
    pub fn set(&mut self, pos: usize)
        requires
            old(self).wf(),
            pos <= usize::MAX - 128,
        ensures
            final(self).wf(),
            final(self).len_spec() >= old(self).len_spec(),
            final(self).len_spec() > pos,
            forall|i: nat| final(self).has(i) == (i == pos || old(self).has(i)),
    {
        if pos >= self.length {
            self.extend(pos + 1);
        }
        let ghost s1 = *self;
        assert forall|i: nat| s1.has(i) == old(self).has(i) by {}
        proof {
            lemma_split(pos);
        }
        let w = pos >> ALIGN;
        let b = word_index(pos);
        let old_word = self.bits[w];
        self.bits.set(w, old_word | (1u64 << (b as u64)));
        assert forall|i: nat| self.has(i) == (i == pos || old(self).has(i)) by {
            assert(s1.has(i) == old(self).has(i));
            if i < self.length && i / 64 == w {
                lemma_bit_set(old_word, b as u64, (i % 64) as u64);
            }
        }
    }

    /// Whether `pos` is a member.
    pub fn test(&self, pos: usize) -> (r: bool)
        requires
            self.wf(),
        ensures
            r == self.has(pos as nat),
    {
        if pos >= self.length {
            return false;
        }
        proof {
            lemma_split(pos);
        }
        let b = word_index(pos);
        proof {
            lemma_bit_test(self.bits@[(pos / 64) as int], b as u64);
        }
        self.bits[pos >> ALIGN] & (1u64 << (b as u64)) != 0
    }
}

} // verus!
