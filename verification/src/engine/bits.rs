//! Bit-level view of 64-bit occupancy masks.
//!
//! A bitboard assigns one bit per board square (square `s` is bit `s`).
//! `sq_bit` is the reading every contract in the engine uses; the lemmas
//! here relate it to the bitwise operators the executable code applies.

use vstd::prelude::*;

verus! {

/// True iff bit `s` of mask `m` is set. Meaningful for `s < 64`.
pub open spec fn sq_bit(m: u64, s: u64) -> bool {
    (m >> s) & 1u64 == 1u64
}

/// A bit of a union is set iff it is set on either side.
pub broadcast proof fn lemma_bit_or(a: u64, b: u64, i: u64)
    by (bit_vector)
    requires
        i < 64,
    ensures
        #[trigger] sq_bit(a | b, i) <==> sq_bit(a, i) || sq_bit(b, i),
{
}

/// A bit of an intersection is set iff it is set on both sides.
pub broadcast proof fn lemma_bit_and(a: u64, b: u64, i: u64)
    by (bit_vector)
    requires
        i < 64,
    ensures
        #[trigger] sq_bit(a & b, i) <==> sq_bit(a, i) && sq_bit(b, i),
{
}

/// Masking with a complement clears exactly the bits of the mask.
pub broadcast proof fn lemma_bit_andnot(a: u64, b: u64, i: u64)
    by (bit_vector)
    requires
        i < 64,
    ensures
        #[trigger] sq_bit(a & !b, i) <==> sq_bit(a, i) && !sq_bit(b, i),
{
}

/// Complement flips every bit.
pub broadcast proof fn lemma_bit_not(a: u64, i: u64)
    by (bit_vector)
    requires
        i < 64,
    ensures
        #[trigger] sq_bit(!a, i) <==> !sq_bit(a, i),
{
}

/// A one-bit mask has exactly its own bit set.
pub broadcast proof fn lemma_bit_single(j: u64, i: u64)
    by (bit_vector)
    requires
        i < 64,
        j < 64,
    ensures
        #[trigger] sq_bit(1u64 << j, i) <==> i == j,
{
}

/// A bit of an exclusive or is set iff exactly one side has it.
pub broadcast proof fn lemma_bit_xor(a: u64, b: u64, i: u64)
    by (bit_vector)
    requires
        i < 64,
    ensures
        #[trigger] sq_bit(a ^ b, i) <==> (sq_bit(a, i) != sq_bit(b, i)),
{
}

/// Shifting the all-ones mask left keeps exactly the high bits.
pub broadcast proof fn lemma_bit_shl_ones(i: u64, j: u64)
    by (bit_vector)
    requires
        i < 64,
        j < 64,
    ensures
        #[trigger] sq_bit(0xFFFF_FFFF_FFFF_FFFFu64 << i, j) <==> j >= i,
{
}

/// The zero mask is the identity of union.
pub broadcast proof fn lemma_or_zero(x: u64)
    by (bit_vector)
    ensures
        #[trigger] (x | 0u64) == x,
        #[trigger] (0u64 | x) == x,
{
}

/// A single extracted bit is either zero or one.
pub proof fn lemma_bit_is_01(m: u64, i: u64)
    by (bit_vector)
    ensures
        (m >> i) & 1u64 == 1u64 || (m >> i) & 1u64 == 0u64,
{
}

/// The zero mask has no bit set.
pub broadcast proof fn lemma_bit_zero(i: u64)
    by (bit_vector)
    requires
        i < 64,
    ensures
        !(#[trigger] sq_bit(0u64, i)),
{
}

/// Two masks that agree on every bit are equal.
pub proof fn lemma_bit_ext(a: u64, b: u64)
    requires
        forall|i: u64| i < 64 ==> (sq_bit(a, i) <==> sq_bit(b, i)),
    ensures
        a == b,
{
    if a != b {
        let x = a ^ b;
        assert(x != 0) by (bit_vector)
            requires
                a != b,
                x == a ^ b,
        ;
        vstd::std_specs::bits::axiom_u64_trailing_zeros(x);
        let i = vstd::std_specs::bits::u64_trailing_zeros(x) as u64;
        assert(i < 64 && (x >> i) & 1u64 == 1u64);
        assert(sq_bit(a, i) != sq_bit(b, i)) by (bit_vector)
            requires
                i < 64,
                (x >> i) & 1u64 == 1u64,
                x == a ^ b,
        ;
        assert(false);
    }
}

/// Tests one bit of a mask.
pub fn test_bit(m: u64, i: u64) -> (r: bool)
    requires
        i < 64,
    ensures
        r == sq_bit(m, i),
{
    proof {
        lemma_bit_is_01(m, i);
    }
    (m >> i) & 1u64 == 1u64
}

pub broadcast group group_bits {
    lemma_bit_or,
    lemma_bit_and,
    lemma_bit_andnot,
    lemma_bit_not,
    lemma_bit_single,
    lemma_bit_zero,
    lemma_bit_xor,
    lemma_bit_shl_ones,
    lemma_or_zero,
}

} // verus!
