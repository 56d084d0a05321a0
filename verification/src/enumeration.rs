//! The range of all indices of a curve, and the offset pattern of a level.

use vstd::prelude::*;
use vstd::arithmetic::power2::pow2;
use vstd::bits::{lemma_usize_pow2_no_overflow, lemma_usize_shl_is_mul};
use crate::cell_lemmas::lemma_last_bits;
use crate::curve::weight;
use crate::digit_lemmas::lemma_weight;
use crate::machine_lemmas::{lemma_append_digit, lemma_append_digit_value, lemma_digits_in_word};
use crate::word_lemmas::lemma_fits;

verus! {

/// The word that `level` rounds of shifting by `dim` bits and setting the
/// lowest bit build from zero; bits shifted beyond the word are lost.
pub open spec fn offset_pattern(dim: usize, level: nat) -> usize
    decreases level,
{
    if level == 0 {
        0
    } else {
        (offset_pattern(dim, (level - 1) as nat) << dim) | 1
    }
}

/// The number whose `level` digits in base `2^dim` are all 1.
pub open spec fn all_ones_digits(dim: usize, level: nat) -> nat
    decreases level,
{
    if level == 0 {
        0
    } else {
        all_ones_digits(dim, (level - 1) as nat) * pow2(dim as nat) + 1
    }
}

/// Where `level` digits of `dim` bits fit a word, the offset pattern is the
/// number whose `level` digits are all 1.
pub proof fn lemma_offset_value(dim: usize, level: usize)
    requires
        1 <= dim < usize::BITS,
        dim * level <= usize::BITS,
    ensures
        offset_pattern(dim, level as nat) == all_ones_digits(dim, level as nat),
        all_ones_digits(dim, level as nat) < weight(dim, level as nat),
    decreases level,
{
    lemma_weight(dim, 0);
    if level > 0 {
        let n = (level - 1) as usize;
        assert(dim * n <= dim * level) by (nonlinear_arith)
            requires
                n <= level,
        ;
        lemma_offset_value(dim, n);
        let h = offset_pattern(dim, n as nat);
        lemma_last_bits(dim);
        lemma_fits(dim, 0, 0, 0);
        vstd::arithmetic::power2::lemma2_to64();
        vstd::arithmetic::power2::lemma_pow2_strictly_increases(0, dim as nat);
        lemma_append_digit_value(dim, h as nat, 1, n as nat, 0);
        lemma_digits_in_word(dim, level, level as nat);
        lemma_append_digit(dim, h, 1);
    }
}

/// Get the range of all Hilbert indices for a given level.
///
/// The return value is equal to `0..2^(D * level)`.
pub fn indices<const D: usize>(level: usize) -> (r: std::ops::Range<usize>)
    requires
        D * level < usize::BITS,
    ensures
        r.start == 0,
        r.end == pow2(D as nat * level as nat),
{
    let n = D * level;
    proof {
        lemma_usize_pow2_no_overflow(n as nat);
        lemma_usize_shl_is_mul(1, n);
    }
    0..(1usize << n)
}

/// The word with bit `D * k` set for every `k` below `level`, as far as the
/// word reaches.
pub fn offset<const D: usize>(level: usize) -> (ofs: usize)
    requires
        D < usize::BITS,
    ensures
        ofs == offset_pattern(D, level as nat),
{
    let mut ofs: usize = 0;
    for k in 0..level
        invariant
            D < usize::BITS,
            ofs == offset_pattern(D, k as nat),
    {
        ofs = (ofs << D) | 1;
    }
    ofs
}

} // verus!
