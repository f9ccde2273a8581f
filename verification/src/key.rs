//! Keys for numbers that are written as a sign and a magnitude: integers that
//! stand in the same order as the numbers.
//!
//! Such a number is given as 64 bits, the sign first: set for a number below
//! zero. Read as integers, the bits of two numbers that are not below zero
//! stand in the order of the numbers, but those of two numbers below zero stand
//! in the opposite order. The key keeps the sign and turns the rest around
//! where the sign is set.

use vstd::prelude::*;

verus! {

/// The key of `bits`: `bits` itself where the sign is not set, else `bits`
/// with its low 63 bits flipped.
pub open spec fn order_key(bits: i64) -> i64 {
    if bits >= 0 {
        bits
    } else {
        bits ^ 0x7fff_ffff_ffff_ffffi64
    }
}

/// Flipping the low 63 bits of a negative integer mirrors it within the
/// negative integers: the least becomes -1 and -1 the least.
pub proof fn lemma_flip_mirrors(bits: i64)
    requires
        bits < 0,
    ensures
        (bits ^ 0x7fff_ffff_ffff_ffffi64) == i64::MIN - 1 - bits,
        (bits ^ 0x7fff_ffff_ffff_ffffi64) < 0,
{
    assert(bits < 0 ==> (bits ^ 0x7fff_ffff_ffff_ffffi64) < 0 && (bits ^ 0x7fff_ffff_ffff_ffffi64)
        + bits + 1 == -0x8000_0000_0000_0000i64) by (bit_vector);
}

/// Computes the key of `bits`.
pub fn key_of_bits(bits: i64) -> (key: i64)
    ensures
        key == order_key(bits),
        bits >= 0 ==> key == bits,
        bits < 0 ==> key == i64::MIN - 1 - bits,
        (key < 0) == (bits < 0),
        order_key(key) == bits,
{
    if bits >= 0 {
        bits
    } else {
        proof {
            lemma_flip_mirrors(bits);
            lemma_flip_mirrors((i64::MIN - 1 - bits) as i64);
        }
        bits ^ 0x7fff_ffff_ffff_ffffi64
    }
}

} // verus!
