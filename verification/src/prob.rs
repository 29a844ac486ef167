//! Adaptive binary probabilities of the PPMd models.
use vstd::prelude::*;

verus! {

/// Number of bits of the integer part of a binary-context probability.
pub const PPMD_INT_BITS: u32 = 7;

/// Number of bits of the adaptation period of a binary-context probability.
pub const PPMD_PERIOD_BITS: u32 = 7;

/// The scale of binary-context probabilities: `1 << (INT_BITS + PERIOD_BITS)`.
pub const PPMD_BIN_SCALE: u32 = 16384;

/// `(summ + 2^(shift - round)) >> shift`: the rounded mean of an adaptive sum.
pub open spec fn get_mean_spec(summ: int, shift: int, round: int) -> int {
    (summ + vstd::arithmetic::power2::pow2((shift - round) as nat)) / (vstd::arithmetic::power2::pow2(shift as nat) as int)
}

/// The rounded mean `(summ + 2^(shift - round)) >> shift`.
pub fn ppmd_get_mean_spec(summ: u32, shift: u32, round: u32) -> (r: u32)
    requires
        round <= shift < 32,
        summ + vstd::arithmetic::power2::pow2((shift - round) as nat) <= u32::MAX,
    ensures
        r == get_mean_spec(summ as int, shift as int, round as int),
{
    proof {
        vstd::arithmetic::power2::lemma_pow2_pos((shift - round) as nat);
        vstd::bits::lemma_u32_shl_is_mul(1, (shift - round) as u32);
        vstd::arithmetic::power2::lemma_pow2_pos(shift as nat);
        vstd::bits::lemma_u32_shr_is_div(
            (summ + vstd::arithmetic::power2::pow2((shift - round) as nat)) as u32,
            shift,
        );
    }
    let add: u32 = 1u32 << (shift - round);
    (summ + add) >> shift
}

/// The mean step of a binary-context probability: `(summ + 32) >> 7`.
pub open spec fn get_mean(summ: int) -> int {
    (summ + 32) / 128
}

/// The mean step `(summ + 2^(PERIOD_BITS - 2)) >> PERIOD_BITS` by which a
/// binary-context probability moves.
pub fn ppmd_get_mean(summ: u32) -> (r: u32)
    requires
        summ <= u32::MAX - 32,
    ensures
        r == get_mean(summ as int),
{
    proof {
        vstd::arithmetic::power2::lemma2_to64();
    }
    ppmd_get_mean_spec(summ, PPMD_PERIOD_BITS, 2)
}

/// A binary-context probability after the symbol of the context missed:
/// `prob - get_mean(prob)`.
pub open spec fn update_prob_1(prob: int) -> int {
    prob - get_mean(prob)
}

/// A binary-context probability after the symbol of the context was hit:
/// `prob + 2^INT_BITS - get_mean(prob)`.
pub open spec fn update_prob_0(prob: int) -> int {
    prob + 128 - get_mean(prob)
}

/// Lowers a binary-context probability after a miss.
pub fn ppmd_update_prob_1(prob: u32) -> (r: u32)
    requires
        prob <= u32::MAX - 32,
    ensures
        r == update_prob_1(prob as int),
        r <= prob,
{
    let m = ppmd_get_mean(prob);
    prob - m
}

/// Raises a binary-context probability after a hit.
pub fn ppmd_update_prob_0(prob: u32) -> (r: u32)
    requires
        prob <= 0xFFFF,
    ensures
        r == update_prob_0(prob as int),
{
    let m = ppmd_get_mean(prob);
    prob + 128 - m
}

} // verus!
