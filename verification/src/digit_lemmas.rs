//! Positional notation: the digits of an index in base `2^dim`, and the bits
//! of a coordinate.

use vstd::prelude::*;
use vstd::arithmetic::div_mod::{
    lemma_fundamental_div_mod, lemma_fundamental_div_mod_converse, lemma_mod_breakdown,
};
use vstd::arithmetic::power2::{lemma_pow2_adds, lemma_pow2_pos, lemma_pow2_unfold, lemma2_to64, pow2};
use crate::curve::{digit, weight};
use crate::word_lemmas::lemma_low_mask_is_pow2;
use crate::words::{coord_bit, fits};

verus! {

/// The weights of the digits are the powers of `2^dim`.
pub proof fn lemma_weight(dim: usize, i: nat)
    ensures
        weight(dim, 0) == 1,
        weight(dim, i) > 0,
        pow2(dim as nat) > 0,
        weight(dim, i + 1) == weight(dim, i) * pow2(dim as nat),
{
    lemma2_to64();
    lemma_pow2_pos(dim as nat * i);
    lemma_pow2_pos(dim as nat);
    lemma_pow2_adds(dim as nat * i, dim as nat);
    assert(dim as nat * (i + 1) == dim as nat * i + dim as nat) by (nonlinear_arith);
    assert(dim as nat * 0 == 0);
}

/// The low `i + 1` digits of `k` are digit `i` and the low `i` digits.
pub proof fn lemma_digit_split(dim: usize, k: nat, i: nat)
    ensures
        k % weight(dim, i + 1) == weight(dim, i) * digit(dim, k, i) + k % weight(dim, i),
        digit(dim, k, i) < pow2(dim as nat),
        k % weight(dim, i) < weight(dim, i),
{
    lemma_weight(dim, i);
    lemma_mod_breakdown(k as int, weight(dim, i) as int, pow2(dim as nat) as int);
}

/// A digit in base `2^dim` is a word of `dim` bits.
pub proof fn lemma_digit_fits(dim: usize, k: nat, i: nat)
    requires
        dim < usize::BITS,
    ensures
        digit(dim, k, i) <= usize::MAX,
        fits(digit(dim, k, i) as usize, dim),
{
    lemma_digit_split(dim, k, i);
    lemma_low_mask_is_pow2(dim);
}

/// The low `i + 1` bits of `x` are bit `i` and the low `i` bits.
pub proof fn lemma_bit_split(x: nat, i: nat)
    ensures
        x % pow2(i + 1) == pow2(i) * coord_bit(x, i) + x % pow2(i),
        coord_bit(x, i) <= 1,
        x % pow2(i) < pow2(i),
        pow2(i + 1) == 2 * pow2(i),
{
    lemma_pow2_pos(i);
    lemma_pow2_unfold(i + 1);
    lemma_mod_breakdown(x as int, pow2(i) as int, 2);
}

/// A number below `m * b` is written in one way as a multiple of `m` below
/// `m * b` plus a rest below `m`.
pub proof fn lemma_split_unique(m: nat, a: nat, r: nat, b: nat, s: nat)
    requires
        r < m,
        s < m,
        m * a + r == m * b + s,
    ensures
        a == b,
        r == s,
{
    let x = (m * a + r) as int;
    assert(m * a == a * m) by (nonlinear_arith);
    assert(m * b == b * m) by (nonlinear_arith);
    lemma_fundamental_div_mod_converse(x, m as int, a as int, r as int);
    lemma_fundamental_div_mod_converse(x, m as int, b as int, s as int);
}

/// The digits of an index whose low `i + 1` digits are all zero, or all the
/// largest digit.
pub proof fn lemma_digit_extremes(dim: usize, k: nat, i: nat)
    ensures
        k % weight(dim, i + 1) == 0 ==> digit(dim, k, i) == 0 && k % weight(dim, i) == 0,
        k % weight(dim, i + 1) == weight(dim, i + 1) - 1 ==> digit(dim, k, i) == pow2(dim as nat) - 1
            && k % weight(dim, i) == weight(dim, i) - 1,
{
    lemma_weight(dim, i);
    lemma_digit_split(dim, k, i);
    let m = weight(dim, i);
    let b = pow2(dim as nat);
    let w = digit(dim, k, i);
    let r = k % m;
    if k % weight(dim, i + 1) == 0 {
        assert(w == 0 && r == 0) by (nonlinear_arith)
            requires
                m * w + r == 0,
                m > 0,
        ;
    }
    if k % weight(dim, i + 1) == weight(dim, i + 1) - 1 {
        assert(w == b - 1 && r == m - 1) by (nonlinear_arith)
            requires
                m * w + r == m * b - 1,
                m > 0,
                w < b,
                r < m,
        ;
    }
}

/// The digits of the predecessor of an index: digit `i` stays unless the low
/// `i` digits of the index are zero; then it falls by one and the low digits
/// of the predecessor are all the largest.
pub proof fn lemma_digit_predecessor(dim: usize, k: nat, i: nat)
    requires
        k >= 1,
    ensures
        k % weight(dim, i) != 0 ==> digit(dim, (k - 1) as nat, i) == digit(dim, k, i) && (k - 1) as nat
            % weight(dim, i) != weight(dim, i) - 1 && ((k - 1) as nat % weight(dim, i)) + 1 == k
            % weight(dim, i),
        k % weight(dim, i) == 0 && k % weight(dim, i + 1) != 0 ==> digit(dim, k, i) >= 1 && digit(
            dim,
            (k - 1) as nat,
            i,
        ) == digit(dim, k, i) - 1 && (k - 1) as nat % weight(dim, i) == weight(dim, i) - 1,
{
    lemma_weight(dim, i);
    lemma_digit_split(dim, k, i);
    let m = weight(dim, i) as int;
    let b = pow2(dim as nat) as int;
    let q = k as int / m;
    let r = k as int % m;
    lemma_fundamental_div_mod(k as int, m);
    assert(m * q == q * m) by (nonlinear_arith);
    if r != 0 {
        lemma_fundamental_div_mod_converse(k - 1, m, q, r - 1);
    } else if k % weight(dim, i + 1) != 0 {
        let w = digit(dim, k, i) as int;
        assert(w >= 1) by (nonlinear_arith)
            requires
                m * w != 0,
                w >= 0,
        ;
        assert((q - 1) * m + (m - 1) == k - 1) by (nonlinear_arith)
            requires
                q * m == k,
        ;
        lemma_fundamental_div_mod_converse(k - 1, m, q - 1, m - 1);
        lemma_fundamental_div_mod(q, b);
        let t = q / b;
        assert(b * t == t * b) by (nonlinear_arith);
        lemma_fundamental_div_mod_converse(q - 1, b, t, w - 1);
    }
}

} // verus!
