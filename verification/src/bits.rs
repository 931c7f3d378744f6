//! Shifts and masks restated as division and remainder.

use vstd::prelude::*;

verus! {

/// Right shifts of a 64-bit value are divisions by powers of two.
pub proof fn lemma_shr_u64(x: u64)
    ensures
        x >> 16u64 == x / 0x1_0000,
        x >> 17u64 == x / 0x2_0000,
        x >> 32u64 == x / 0x1_0000_0000,
        x >> 33u64 == x / 0x2_0000_0000,
{
    vstd::arithmetic::power2::lemma2_to64();
    vstd::arithmetic::power2::lemma2_to64_rest();
    vstd::bits::lemma_u64_shr_is_div(x, 16);
    vstd::bits::lemma_u64_shr_is_div(x, 17);
    vstd::bits::lemma_u64_shr_is_div(x, 32);
    vstd::bits::lemma_u64_shr_is_div(x, 33);
}

/// Shifts and masks of a 32-bit value as division and remainder.
pub proof fn lemma_fields_u32(x: u32)
    by (bit_vector)
    ensures
        x >> 1u32 == x / 2,
        x >> 16u32 == x / 0x1_0000,
        (x >> 8u32) & 0xffu32 == (x / 0x100) % 0x100,
        x & 0xffu32 == x % 0x100,
        x & 0x7fff_ffffu32 == x % 0x8000_0000,
{
}

/// Shifts and masks of a byte as division and remainder.
pub proof fn lemma_fields_u8(b: u8)
    by (bit_vector)
    ensures
        b & 31u8 == b % 32,
        b >> 5u8 == b / 32,
{
}

/// Shifts and masks of a word as division and remainder.
pub proof fn lemma_fields_usize(b: usize)
    by (bit_vector)
    ensures
        b >> 1usize == b / 2,
        (b & 1usize == 0) == (b % 2 == 0),
        b & 3usize == b % 4,
        b >> 4usize == b / 16,
        b & 0x1fusize == b % 32,
        ((b >> 5usize) & 1usize != 0) == ((b / 32) % 2 == 1),
        (b >> 6usize) & 0x3fusize == (b / 64) % 64,
        b >> 12usize == b / 4096,
        b & !0xfffusize == (b / 4096) * 4096,
{
}

} // verus!
