//! CRC-32 (the reflected form of polynomial 0x04C11DB7), computed a byte at
//! a time through a 256-entry table.
use vstd::prelude::*;

verus! {

/// The polynomial 0x04C11DB7 with its 32 bits in reverse order.
pub const POLY: u32 = 0xEDB8_8320;

/// Bit `k` of `x`.
pub open spec fn bit(x: u32, k: u32) -> u32 {
    (x >> k) & 1u32
}

/// One step of the bitwise division: shift right, and fold the polynomial in
/// when a one bit drops out.
pub open spec fn crc_step(c: u32) -> u32 {
    if c & 1u32 == 1u32 {
        (c >> 1u32) ^ POLY
    } else {
        c >> 1u32
    }
}

/// `k` steps of the bitwise division.
pub open spec fn crc_steps(c: u32, k: nat) -> u32
    decreases k,
{
    if k == 0 {
        c
    } else {
        crc_step(crc_steps(c, (k - 1) as nat))
    }
}

/// The register after feeding the bytes `data` to the register `init`: each
/// byte is folded into the low bits and divided through in eight steps,
/// which is what the table entry `crc_steps(i, 8)` precomputes.
pub open spec fn crc_fold(init: u32, data: Seq<u8>) -> u32
    decreases data.len(),
{
    if data.len() == 0 {
        init
    } else {
        let c = crc_fold(init, data.drop_last());
        (c >> 8u32) ^ crc_steps((c ^ (data.last() as u32)) & 0xFFu32, 8)
    }
}

/// The CRC-32 of `data`: the register starts all ones and ends inverted.
pub open spec fn crc32_of(data: Seq<u8>) -> u32 {
    crc_fold(0xFFFF_FFFFu32, data) ^ 0xFFFF_FFFFu32
}

proof fn lemma_shift_in(v: u32, b: u32, k: u32)
    requires
        b <= 1,
        k < 31,
    ensures
        ((v << 1u32) | b) & 1u32 == b,
        (((v << 1u32) | b) >> 0u32) & 1u32 == b,
        (((v << 1u32) | b) >> ((k + 1) as u32)) & 1u32 == (v >> k) & 1u32,
{
    assert(((v << 1u32) | b) & 1u32 == b) by (bit_vector)
        requires
            b <= 1,
    ;
    assert((((v << 1u32) | b) >> 0u32) & 1u32 == b) by (bit_vector)
        requires
            b <= 1,
    ;
    let k1: u32 = (k + 1) as u32;
    assert((((v << 1u32) | b) >> k1) & 1u32 == (v >> k) & 1u32) by (bit_vector)
        requires
            k < 31,
            b <= 1,
            k1 == k + 1,
    ;
}

/// The 32 bits of `u` in reverse order.
pub fn reverse_u32(u: u32) -> (r: u32)
    ensures
        forall|k: u32| k < 32 ==> #[trigger] bit(r, k) == bit(u, (31 - k) as u32),
{
    let mut v: u32 = 0;
    let mut i: u32 = 0;
    while i < 32
        invariant
            i <= 32,
            forall|k: u32| k < i ==> #[trigger] bit(v, k) == bit(u, (i - 1 - k) as u32),
        decreases 32 - i,
    {
        let b = (u >> i) & 1;
        assert(b <= 1) by (bit_vector)
            requires
                b == (u >> i) & 1u32,
        ;
        let ghost v0 = v;
        v = (v << 1) | b;
        assert forall|k: u32| k < i + 1 implies #[trigger] bit(v, k) == bit(u, (i - k) as u32) by {
            if k == 0 {
                lemma_shift_in(v0, b, 0);
            } else {
                lemma_shift_in(v0, b, (k - 1) as u32);
                assert(bit(v0, (k - 1) as u32) == bit(u, (i - 1 - (k - 1)) as u32));
            }
        }
        i += 1;
    }
    v
}

/// The table entry for byte value `i`: eight division steps on `i`.
fn table_entry(i: u32) -> (r: u32)
    ensures
        r == crc_steps(i, 8),
{
    let mut v: u32 = i;
    let mut j: u32 = 0;
    while j < 8
        invariant
            j <= 8,
            v == crc_steps(i, j as nat),
        decreases 8 - j,
    {
        if v & 0x01 == 1 {
            v = (v >> 1) ^ POLY;
        } else {
            v >>= 1;
        }
        j += 1;
    }
    v
}

/// The 256-entry table: entry `i` is `crc_steps(i, 8)`.
fn make_crc32_table() -> (t: Vec<u32>)
    ensures
        t@.len() == 256,
        forall|i: int| 0 <= i < 256 ==> #[trigger] t@[i] == crc_steps(i as u32, 8),
{
    let mut table: Vec<u32> = Vec::new();
    let mut i: u32 = 0;
    while i < 256
        invariant
            i <= 256,
            table@.len() == i,
            forall|k: int| 0 <= k < i ==> #[trigger] table@[k] == crc_steps(k as u32, 8),
        decreases 256 - i,
    {
        table.push(table_entry(i));
        i += 1;
    }
    table
}

/// The CRC-32 of `data`.
pub fn crc32(data: &[u8]) -> (r: u32)
    ensures
        r == crc32_of(data@),
{
    let table = make_crc32_table();
    let mut crc: u32 = 0xFFFFFFFF;
    let mut k: usize = 0;
    while k < data.len()
        invariant
            k <= data@.len(),
            table@.len() == 256,
            forall|i: int| 0 <= i < 256 ==> #[trigger] table@[i] == crc_steps(i as u32, 8),
            crc == crc_fold(0xFFFF_FFFFu32, data@.take(k as int)),
        decreases data@.len() - k,
    {
        let v = data[k];
        let index: u32 = (crc ^ (v as u32)) & 0xFF;
        assert(index < 256) by (bit_vector)
            requires
                index == (crc ^ (v as u32)) & 0xFFu32,
        ;
        assert(data@.take(k + 1).drop_last() == data@.take(k as int));
        crc = (crc >> 8) ^ table[index as usize];
        k += 1;
    }
    assert(data@.take(data@.len() as int) == data@);
    crc ^ 0xFFFFFFFF
}

} // verus!
