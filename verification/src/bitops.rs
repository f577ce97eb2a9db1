//! Facts about single bits of 64-bit words, shared by the capability,
//! signal and frame bitmaps.

use vstd::prelude::*;

verus! {

/// Whether bit `b` (counted from the least significant bit) of `word` is set.
pub open spec fn bit_of(word: u64, b: int) -> bool {
    0 <= b < 64 && (word >> (b as u64)) & 1u64 == 1u64
}

/// Setting bit `b` sets it and leaves every other bit alone.
pub proof fn lemma_set_bit(word: u64, b: u64, j: u64)
    requires
        b < 64,
        j < 64,
    ensures
        ((word | (1u64 << b)) >> j) & 1u64 == 1u64 <==> (j == b || (word >> j) & 1u64 == 1u64),
{
    assert(((word | (1u64 << b)) >> j) & 1u64 == 1u64 <==> (j == b || (word >> j) & 1u64 == 1u64)) by (bit_vector)
        requires
            b < 64,
            j < 64,
    ;
}

/// Clearing bit `b` clears it and leaves every other bit alone.
pub proof fn lemma_clear_bit(word: u64, b: u64, j: u64)
    requires
        b < 64,
        j < 64,
    ensures
        ((word & !(1u64 << b)) >> j) & 1u64 == 1u64 <==> (j != b && (word >> j) & 1u64 == 1u64),
{
    assert(((word & !(1u64 << b)) >> j) & 1u64 == 1u64 <==> (j != b && (word >> j) & 1u64 == 1u64)) by (bit_vector)
        requires
            b < 64,
            j < 64,
    ;
}

/// Testing a bit with a mask agrees with `bit_of`.
pub proof fn lemma_test_bit(word: u64, b: u64)
    requires
        b < 64,
    ensures
        ((word & (1u64 << b)) != 0) == ((word >> b) & 1u64 == 1u64),
{
    assert(((word & (1u64 << b)) != 0) == ((word >> b) & 1u64 == 1u64)) by (bit_vector)
        requires
            b < 64,
    ;
}

/// The all-zero word has no bit set; the all-one word has every bit set.
pub proof fn lemma_zero_and_full_words(j: u64)
    requires
        j < 64,
    ensures
        (0u64 >> j) & 1u64 == 0u64,
        (0xffff_ffff_ffff_ffffu64 >> j) & 1u64 == 1u64,
{
    assert((0u64 >> j) & 1u64 == 0u64 && (0xffff_ffff_ffff_ffffu64 >> j) & 1u64 == 1u64) by (bit_vector)
        requires
            j < 64,
    ;
}

/// Values of the flag combinations that page-table code builds.
pub proof fn lemma_flag_constants()
    ensures
        0u64 & 0x1u64 == 0u64,
        0x1u64 | 0x2u64 | 0x4u64 == 0x7u64,
        0x1u64 | 0x4u64 | 0x2u64 == 0x7u64,
        0x1u64 | 0x4u64 == 0x5u64,
        0x1u64 | 0x2u64 | 0x4u64 | 0x80u64 == 0x87u64,
        0x0u64 | 0x87u64 == 0x87u64,
        0x200000u64 | 0x87u64 == 0x200087u64,
        0xE00000u64 | 0x87u64 == 0xE00087u64,
        0x1u64 | 0x2u64 | 0x80u64 == 0x83u64,
        0x0u64 | 0x83u64 == 0x83u64,
        0x200000u64 | 0x83u64 == 0x200083u64,
        !0x2u64 == 0xFFFF_FFFF_FFFF_FFFDu64,
        (103u64 & 0xff) as u8 == 103u8,
        ((103u64 >> 8u64) & 0xff) as u8 == 0u8,
        (((103u64 >> 16u64) & 0xff) as u8) & 0x0Fu8 == 0u8,
{
    assert({
        &&& 0u64 & 0x1u64 == 0u64
        &&& 0x1u64 | 0x2u64 | 0x4u64 == 0x7u64
        &&& 0x1u64 | 0x4u64 | 0x2u64 == 0x7u64
        &&& 0x1u64 | 0x4u64 == 0x5u64
        &&& 0x1u64 | 0x2u64 | 0x4u64 | 0x80u64 == 0x87u64
        &&& 0x0u64 | 0x87u64 == 0x87u64
        &&& 0x200000u64 | 0x87u64 == 0x200087u64
        &&& 0xE00000u64 | 0x87u64 == 0xE00087u64
        &&& 0x1u64 | 0x2u64 | 0x80u64 == 0x83u64
        &&& 0x0u64 | 0x83u64 == 0x83u64
        &&& 0x200000u64 | 0x83u64 == 0x200083u64
        &&& !0x2u64 == 0xFFFF_FFFF_FFFF_FFFDu64
        &&& (103u64 & 0xff) as u8 == 103u8
        &&& ((103u64 >> 8u64) & 0xff) as u8 == 0u8
        &&& (((103u64 >> 16u64) & 0xff) as u8) & 0x0Fu8 == 0u8
    }) by (bit_vector);
}

} // verus!
