//! The primitives on `D`-bit words out of which the curve is composed: Gray
//! code, rotation inside a `D`-bit field, the entry and direction of each
//! sub-cube, and the digit transform.

use vstd::prelude::*;
use vstd::arithmetic::power2::pow2;
use crate::word_lemmas::{
    lemma_all_ones, lemma_gray_inverse, lemma_low_mask_is_pow2, lemma_plane_fold_bits,
    lemma_shifted_bit_is_coord_bit, lemma_trailing_zeros_bound,
};

verus! {

/// The word whose low `dim` bits are set and whose other bits are clear.
pub open spec fn low_mask(dim: usize) -> usize {
    !(!0usize << dim)
}

/// Whether `x` is a word of `dim` bits: no bit at position `dim` or above is set.
pub open spec fn fits(x: usize, dim: usize) -> bool {
    x <= low_mask(dim)
}

/// The binary-reflected Gray code of `i`.
pub open spec fn gray_code(i: usize) -> usize {
    i ^ (i >> 1)
}

/// `g` combined by XOR with `g >> 1`, ..., `g >> (k - 1)`.
pub open spec fn gray_fold(g: usize, k: usize) -> usize
    decreases k,
{
    if k <= 1 {
        g
    } else {
        gray_fold(g, (k - 1) as usize) ^ (g >> ((k - 1) as usize))
    }
}

/// The inverse of the Gray code on words of `dim` bits.
pub open spec fn gray_inverse(dim: usize, g: usize) -> usize {
    gray_fold(g, dim)
}

/// The number of trailing zero bits of `x`; the full width for zero.
pub open spec fn trailing_zeros_of(x: usize) -> nat
    decreases x,
{
    if x == 0 {
        usize::BITS as nat
    } else if x % 2 == 1 {
        0
    } else {
        1 + trailing_zeros_of(x / 2)
    }
}

/// The number of trailing one bits of `i`, which is also the position of its
/// lowest zero bit.
pub open spec fn trailing_ones(i: usize) -> nat {
    trailing_zeros_of(!i)
}

/// The axis along which the curve leaves sub-cube `i` of a cell of `dim`
/// dimensions, before the cell's orientation is applied.
pub open spec fn direction_map(dim: usize, i: usize) -> usize {
    if i == 0 {
        0
    } else if i & 1 == 0 {
        (trailing_ones((i - 1) as usize) % (dim as nat)) as usize
    } else {
        (trailing_ones(i) % (dim as nat)) as usize
    }
}

/// The corner through which the curve enters sub-cube `i` of a cell, before
/// the cell's orientation is applied.
pub open spec fn entry_map(i: usize) -> usize {
    if i == 0 {
        0
    } else {
        gray_code((2 * ((i - 1) / 2)) as usize)
    }
}

/// Rotation of the `dim`-bit word `b` to the left by `s < dim` positions.
pub open spec fn rotl(dim: usize, b: usize, s: usize) -> usize {
    (low_mask(dim) & (b << s)) ^ (b >> ((dim - s) as usize))
}

/// Rotation of the `dim`-bit word `b` to the right by `s < dim` positions.
pub open spec fn rotr(dim: usize, b: usize, s: usize) -> usize {
    (b >> s) ^ ((b << ((dim - s) as usize)) & low_mask(dim))
}

/// Rotation to the left by `i` positions, taken modulo `dim`.
pub open spec fn rotate_left_word(dim: usize, b: usize, i: usize) -> usize {
    rotl(dim, b, i % dim)
}

/// Rotation to the right by `i` positions, taken modulo `dim`.
pub open spec fn rotate_right_word(dim: usize, b: usize, i: usize) -> usize {
    rotr(dim, b, i % dim)
}

/// The amount by which the digit transform rotates in direction `d`.
pub open spec fn turn(dim: usize, d: usize) -> usize {
    ((d + 1) % (dim as int)) as usize
}

/// The digit transform: takes the cell entered at corner `e` in direction `d`
/// to the cell in standard orientation.
pub open spec fn transform(dim: usize, b: usize, e: usize, d: usize) -> usize {
    rotr(dim, b ^ e, turn(dim, d))
}

/// The inverse of the digit transform.
pub open spec fn transform_inverse(dim: usize, b: usize, e: usize, d: usize) -> usize {
    rotl(dim, b, turn(dim, d)) ^ e
}

/// Bit `i` of the coordinate `x`.
pub open spec fn coord_bit(x: nat, i: nat) -> nat {
    (x / pow2(i)) % 2
}

/// Bit `j` of the word `l`.
pub open spec fn word_bit(l: usize, j: usize) -> nat {
    ((l >> j) & 1) as nat
}

/// The word that packs bit `i` of the first `k` coordinates of `p`,
/// coordinate `j` giving bit `j`.
pub open spec fn plane_fold(p: Seq<nat>, i: nat, k: usize) -> usize
    decreases k,
{
    if k == 0 {
        0
    } else {
        plane_fold(p, i, (k - 1) as usize) ^ ((coord_bit(p[k - 1], i) as usize) << ((k - 1) as usize))
    }
}

/// Bit plane `i` of the point `p`.
pub open spec fn plane_word(p: Seq<nat>, i: nat) -> usize {
    plane_fold(p, i, p.len() as usize)
}

/// The coordinates of a grid point as natural numbers.
pub open spec fn coordinates(p: Seq<usize>) -> Seq<nat> {
    Seq::new(p.len(), |j: int| p[j] as nat)
}

/// `usize::trailing_zeros` of std: the number of trailing zero bits of the
/// argument, which for zero is the width of `usize`.
pub assume_specification[ usize::trailing_zeros ](x: usize) -> (r: u32)
    ensures
        r == trailing_zeros_of(x),
;

/// The number of sub-cubes of a cell, less one: `2^D - 1`.
pub fn max<const D: usize>() -> (m: usize)
    requires
        D < usize::BITS,
    ensures
        m == low_mask(D),
        m + 1 == pow2(D as nat),
{
    proof {
        lemma_low_mask_is_pow2(D);
        lemma_all_ones();
    }
    !(usize::MAX << D)
}

/// Gray code.
pub fn gc(i: usize) -> (r: usize)
    ensures
        r == gray_code(i),
{
    i ^ (i >> 1)
}

/// Inverse of the Gray code on `D`-bit words.
pub fn gc_inv<const D: usize>(g: usize) -> (r: usize)
    requires
        D < usize::BITS,
    ensures
        r == gray_inverse(D, g),
        D >= 1 && fits(g, D) ==> fits(r, D) && gray_code(r) == g,
{
    proof {
        if D >= 1 && fits(g, D) {
            lemma_gray_inverse(D, g);
        }
    }
    let mut r = g;
    let mut j: usize = 1;
    while j < D
        invariant
            1 <= j,
            j <= D || (D == 0 && j == 1),
            D < usize::BITS,
            r == gray_fold(g, j),
        decreases D - j,
    {
        r = r ^ (g >> j);
        j += 1;
    }
    r
}

/// The number of trailing one bits of `i`.
pub fn g(i: usize) -> (r: usize)
    ensures
        r == trailing_ones(i),
        r <= usize::BITS,
{
    proof {
        lemma_trailing_zeros_bound(!i);
    }
    (!i).trailing_zeros() as usize
}

/// The direction of sub-cube `i`.
pub fn dmap<const D: usize>(i: usize) -> (r: usize)
    requires
        D >= 1,
    ensures
        r == direction_map(D, i),
        r < D,
{
    if i == 0 {
        0
    } else if i & 1 == 0 {
        g(i - 1) % D
    } else {
        g(i) % D
    }
}

/// The entry corner of sub-cube `i`.
pub fn emap(i: usize) -> (r: usize)
    ensures
        r == entry_map(i),
{
    if i == 0 {
        0
    } else {
        gc(2 * ((i - 1) / 2))
    }
}

/// Rotation to the right inside a field of `D` bits.
pub fn rotate_right<const D: usize>(b: usize, i: usize) -> (r: usize)
    requires
        1 <= D < usize::BITS,
    ensures
        r == rotate_right_word(D, b, i),
{
    let i = i % D;
    (b >> i) ^ ((b << (D - i)) & max::<D>())
}

/// Rotation to the left inside a field of `D` bits.
pub fn rotate_left<const D: usize>(b: usize, i: usize) -> (r: usize)
    requires
        1 <= D < usize::BITS,
    ensures
        r == rotate_left_word(D, b, i),
{
    let i = i % D;
    (max::<D>() & (b << i)) ^ (b >> (D - i))
}

/// The digit transform.
pub fn t<const D: usize>(b: usize, e: usize, d: usize) -> (r: usize)
    requires
        1 <= D < usize::BITS,
        d < D,
    ensures
        r == transform(D, b, e, d),
{
    rotate_right::<D>(b ^ e, d + 1)
}

/// The inverse of the digit transform.
pub fn t_inv<const D: usize>(b: usize, e: usize, d: usize) -> (r: usize)
    requires
        1 <= D < usize::BITS,
        d < D,
    ensures
        r == transform_inverse(D, b, e, d),
{
    rotate_left::<D>(b, d + 1) ^ e
}

/// Packs bit `i` of every coordinate of `p` into one word, the first
/// coordinate giving the least significant bit.
pub fn reduce<const D: usize>(p: &[usize; D], i: usize) -> (l: usize)
    requires
        D <= usize::BITS,
        i < usize::BITS,
    ensures
        l == plane_word(coordinates(p@), i as nat),
        D < usize::BITS ==> fits(l, D),
        D < usize::BITS ==> forall|j: usize|
            j < D ==> #[trigger] word_bit(l, j) == coord_bit(p@[j as int] as nat, i as nat),
{
    proof {
        if D < usize::BITS {
            lemma_plane_fold_bits(coordinates(p@), i as nat, D);
        }
    }
    let mut l: usize = 0;
    let mut k: usize = 0;
    while k < D
        invariant
            k <= D <= usize::BITS,
            i < usize::BITS,
            l == plane_fold(coordinates(p@), i as nat, k),
        decreases D - k,
    {
        proof {
            lemma_shifted_bit_is_coord_bit(p[k as int], i);
        }
        l = l ^ (((p[k] >> i) & 1) << k);
        k += 1;
    }
    l
}

} // verus!
