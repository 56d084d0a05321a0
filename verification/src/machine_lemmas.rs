//! How the shifts and masks of the machine's words read and write the digits
//! of an index and the bits of a coordinate.

use vstd::prelude::*;
use vstd::arithmetic::power2::{lemma2_to64, lemma2_to64_rest, lemma_pow2_pos, lemma_pow2_strictly_increases, pow2};
use vstd::bits::{
    lemma_usize_low_bits_mask_is_mod, lemma_usize_pow2_no_overflow, lemma_usize_shl_is_mul,
    lemma_usize_shr_is_div, low_bits_mask,
};
use crate::curve::{digit, weight};
use crate::digit_lemmas::lemma_weight;
use crate::word_lemmas::lemma_low_mask_is_pow2;
use crate::words::{fits, low_mask};

verus! {

/// A power of two whose exponent is at most the width of a word is at most
/// one more than the largest word.
pub proof fn lemma_pow2_in_word(n: nat)
    requires
        n <= usize::BITS,
    ensures
        pow2(n) <= usize::MAX + 1,
{
    lemma2_to64();
    lemma2_to64_rest();
    if n < usize::BITS {
        lemma_pow2_strictly_increases(n, usize::BITS as nat);
    }
}

/// Powers of two grow with the exponent.
pub proof fn lemma_pow2_monotonic(a: nat, b: nat)
    requires
        a <= b,
    ensures
        pow2(a) <= pow2(b),
{
    if a < b {
        lemma_pow2_strictly_increases(a, b);
    }
}

/// Where `level` digits of `dim` bits fit a word, the weight of digit `n`, for
/// `n` up to `level`, is at most one more than the largest word.
pub proof fn lemma_digits_in_word(dim: usize, level: usize, n: nat)
    requires
        dim * level <= usize::BITS,
        n <= level,
    ensures
        weight(dim, n) <= usize::MAX + 1,
        dim * n <= usize::BITS,
{
    assert(dim * n <= dim * level) by (nonlinear_arith)
        requires
            n <= level,
    ;
    lemma_pow2_in_word(dim as nat * n);
}

/// Appending the digit `w` to the `n` digits `h` gives `n + 1` digits, which
/// stand before `i` further digits as `h` stands before `i + 1`.
pub proof fn lemma_append_digit_value(dim: usize, h: nat, w: nat, n: nat, i: nat)
    requires
        h < weight(dim, n),
        w < pow2(dim as nat),
    ensures
        h * pow2(dim as nat) + w < weight(dim, n + 1),
        h * weight(dim, i + 1) + w * weight(dim, i) == (h * pow2(dim as nat) + w) * weight(dim, i),
{
    lemma_weight(dim, n);
    lemma_weight(dim, i);
    let b = pow2(dim as nat);
    let m = weight(dim, n);
    let u = weight(dim, i);
    assert(h * b + w < m * b) by (nonlinear_arith)
        requires
            h < m,
            w < b,
    ;
    assert(h * (u * b) + w * u == (h * b + w) * u) by (nonlinear_arith);
}

/// Shifting `h` by `dim` bits and setting the low bits to the word `w`
/// appends `w` to `h` as a digit.
pub proof fn lemma_append_digit(dim: usize, h: usize, w: usize)
    requires
        dim < usize::BITS,
        fits(w, dim),
        h * pow2(dim as nat) + w <= usize::MAX,
    ensures
        (h << dim) | w == h * pow2(dim as nat) + w,
{
    lemma_pow2_pos(dim as nat);
    assert(h * pow2(dim as nat) <= usize::MAX) by (nonlinear_arith)
        requires
            h * pow2(dim as nat) + w <= usize::MAX,
    ;
    lemma_usize_shl_is_mul(h, dim);
    assert(((h << dim) | w) == (h << dim) + w) by (bit_vector)
        requires
            dim < usize::BITS,
            w <= !(!0usize << dim),
    ;
}

/// Shifting `p` by one bit and setting the low bit to `b` appends `b` to `p`.
pub proof fn lemma_append_bit(p: usize, b: usize)
    requires
        b <= 1,
        2 * p + 1 <= usize::MAX,
    ensures
        (p << 1) | b == 2 * p + b,
{
    lemma2_to64();
    lemma_usize_shl_is_mul(p, 1);
    assert(((p << 1) | b) == (p << 1) + b) by (bit_vector)
        requires
            b <= 1,
    ;
}

/// A bit of a shifted word is the bit of the word at the sum of the positions.
pub proof fn lemma_shifted_bit(x: usize, a: usize, k: usize)
    by (bit_vector)
    requires
        a + k < usize::BITS,
    ensures
        ((x >> a) >> k) & 1 == (x >> ((a + k) as usize)) & 1,
{
}

/// The `dim` bits of `x` from position `i * dim` up are digit `i` of `x`.
pub proof fn lemma_digit_by_mask(dim: usize, x: usize, i: usize)
    requires
        dim < usize::BITS,
        i * dim < usize::BITS,
    ensures
        (x >> ((i * dim) as usize)) & low_mask(dim) == digit(dim, x as nat, i as nat),
{
    let s = (i * dim) as usize;
    let y = x >> s;
    lemma_usize_shr_is_div(x, s);
    lemma_usize_low_bits_mask_is_mod(y, dim as nat);
    lemma_low_mask_is_pow2(dim);
    lemma_usize_pow2_no_overflow(dim as nat);
    assert(low_bits_mask(dim as nat) as usize == low_mask(dim));
    assert(dim as nat * i as nat == s) by (nonlinear_arith)
        requires
            s == i * dim,
    ;
}

} // verus!
