//! Facts that tie the machine's shift and mask operations to the arithmetic
//! of the bit-stream model.
use vstd::prelude::*;

verus! {

use vstd::arithmetic::power2::{pow2, lemma_pow2_pos, lemma_pow2_adds, lemma2_to64, lemma2_to64_rest};
use vstd::bits::{
    low_bits_mask,
    lemma_u64_shl_is_mul,
    lemma_u64_shr_is_div,
    lemma_u64_pow2_no_overflow,
    lemma_u64_low_bits_mask_is_mod,
    lemma_u32_shl_is_mul,
    lemma_u32_shr_is_div,
    lemma_u32_pow2_no_overflow,
};
use vstd::arithmetic::mul::{lemma_mul_strict_inequality, lemma_mul_is_commutative, lemma_mul_inequality};
use crate::stream::{bits_of, lemma_bits_low, lemma_bits_bound};

pub proof fn lemma_pow2_32()
    ensures
        pow2(32) == 0x1_0000_0000,
        pow2(0) == 1,
        pow2(1) == 2,
        pow2(2) == 4,
        pow2(8) == 256,
{
    lemma2_to64();
}

/// `1 << k` on 64-bit words is `2^k`.
pub proof fn lemma_one_shl64(k: u64)
    requires
        k < 64,
    ensures
        (1u64 << k) == pow2(k as nat),
        ((1u64 << k) - 1) as nat == low_bits_mask(k as nat),
        pow2(k as nat) <= u64::MAX,
{
    lemma_u64_pow2_no_overflow(k as nat);
    lemma_u64_shl_is_mul(1, k);
}

/// `1 << k` on 32-bit words is `2^k`.
pub proof fn lemma_one_shl32(k: u32)
    requires
        k < 32,
    ensures
        (1u32 << k) == pow2(k as nat),
        pow2(k as nat) <= u32::MAX,
{
    lemma_u32_pow2_no_overflow(k as nat);
    lemma_u32_shl_is_mul(1, k);
}

/// Masking with the low `k` bits keeps the value modulo `2^k`.
pub proof fn lemma_mask64(x: u64, k: u64)
    requires
        k < 64,
    ensures
        (x & (((1u64 << k) - 1) as u64)) as nat == x as nat % pow2(k as nat),
        (x & (((1u64 << k) - 1) as u64)) as nat == bits_of(x as nat, 0, k as nat),
{
    lemma_one_shl64(k);
    lemma_pow2_pos(k as nat);
    assert(((1u64 << k) - 1) as u64 == low_bits_mask(k as nat) as u64);
    lemma_u64_low_bits_mask_is_mod(x, k as nat);
    assert(x % (pow2(k as nat) as u64) == x as nat % pow2(k as nat));
    lemma_bits_low(x as nat, k as nat);
}

/// Shifting right by `k` divides by `2^k`.
pub proof fn lemma_shr64(x: u64, k: u64)
    requires
        k < 64,
    ensures
        (x >> k) as nat == x as nat / pow2(k as nat),
{
    lemma_u64_shr_is_div(x, k);
}

/// Shifting left by `k` multiplies by `2^k` where nothing is lost.
pub proof fn lemma_shl64(x: u64, k: u64)
    requires
        k < 64,
        x * pow2(k as nat) <= u64::MAX,
    ensures
        (x << k) as nat == x * pow2(k as nat),
{
    lemma_u64_shl_is_mul(x, k);
}

/// A 32-bit word shifted left by less than 32 places fits in 64 bits.
pub proof fn lemma_word_shl_fits(d: u32, k: u64)
    requires
        k < 32,
    ensures
        (d as u64) * pow2(k as nat) < pow2(64),
        ((d as u64) << k) as nat == d as nat * pow2(k as nat),
{
    lemma2_to64();
    lemma2_to64_rest();
    lemma_pow2_pos(k as nat);
    vstd::arithmetic::power2::lemma_pow2_strictly_increases(k as nat, 32);
    lemma_mul_inequality(d as int, 0xffff_ffff, pow2(k as nat) as int);
    lemma_mul_strict_inequality(pow2(k as nat) as int, pow2(32) as int, 0xffff_ffff);
    lemma_mul_is_commutative(pow2(k as nat) as int, 0xffff_ffff);
    lemma_shl64(d as u64, k);
}

/// Or-ing in bits above the occupied ones adds them.
pub proof fn lemma_or_disjoint64(a: u64, d: u32, k: u64)
    requires
        k < 32,
        a < (1u64 << k),
    ensures
        (a | ((d as u64) << k)) == a + ((d as u64) << k),
{
    assert((a | ((d as u64) << k)) == a + ((d as u64) << k)) by (bit_vector)
        requires
            k < 32,
            a < (1u64 << k),
    ;
}

/// `x as u32` keeps the low 32 bits.
pub proof fn lemma_truncate32(x: u64)
    ensures
        (x as u32) as nat == bits_of(x as nat, 0, 32),
{
    assert((x as u32) as u64 == x & 0xffff_ffff) by (bit_vector);
    lemma_mask64(x, 32);
    assert(((1u64 << 32u64) - 1) as u64 == 0xffff_ffffu64) by (bit_vector);
}

/// Right shift of a 32-bit word.
pub proof fn lemma_shr32(x: u32, k: u32)
    requires
        k < 32,
    ensures
        (x >> k) as nat == x as nat / pow2(k as nat),
{
    lemma_u32_shr_is_div(x, k);
}

/// Masking a 32-bit word with the low `k` bits.
pub proof fn lemma_mask32(x: u32, k: u32)
    requires
        k < 32,
    ensures
        (x & (((1u32 << k) - 1) as u32)) as nat == x as nat % pow2(k as nat),
{
    assert((x & (((1u32 << k) - 1) as u32)) as u64 == (x as u64) & (((1u64 << (k as u64)) - 1) as u64)) by (bit_vector)
        requires
            k < 32,
    ;
    lemma_mask64(x as u64, k as u64);
}

} // verus!
