//! Facts about the word primitives, most of them settled bit by bit.

use vstd::prelude::*;
use vstd::arithmetic::power2::{pow2, lemma_pow2_pos};
use vstd::bits::{lemma_usize_pow2_no_overflow, lemma_usize_shl_is_mul, lemma_usize_shr_is_div};
use crate::words::{
    coord_bit, entry_map, fits, gray_code, gray_fold, gray_inverse, low_mask, plane_fold, rotl,
    rotr, trailing_ones, trailing_zeros_of, transform, transform_inverse, turn, word_bit,
};

verus! {

/// The mask of `dim` bits is `2^dim - 1`.
pub proof fn lemma_low_mask_is_pow2(dim: usize)
    requires
        dim < usize::BITS,
    ensures
        low_mask(dim) + 1 == pow2(dim as nat),
{
    lemma_usize_pow2_no_overflow(dim as nat);
    lemma_usize_shl_is_mul(1, dim);
    assert(!(!0usize << dim) + 1 == (1usize << dim)) by (bit_vector)
        requires
            dim < usize::BITS,
    ;
}

/// The complement of zero is the largest word.
pub proof fn lemma_all_ones()
    ensures
        !0usize == usize::MAX,
{
    let m = usize::MAX;
    assert(m <= !0usize) by (bit_vector);
}

/// A coordinate's bit, read by shifting, is the bit that division reads.
pub proof fn lemma_shifted_bit_is_coord_bit(x: usize, i: usize)
    requires
        i < usize::BITS,
    ensures
        (x >> i) & 1 == coord_bit(x as nat, i as nat),
{
    lemma_usize_shr_is_div(x, i);
    let y = x >> i;
    assert(y & 1 == y % 2) by (bit_vector);
}

/// No word has more trailing zeros than bits.
pub proof fn lemma_trailing_zeros_bound(x: usize)
    ensures
        trailing_zeros_of(x) <= usize::BITS,
        x != 0 ==> trailing_zeros_of(x) < usize::BITS,
        x != 0 ==> pow2(trailing_zeros_of(x)) <= x,
    decreases x,
{
    if x == 0 {
    } else if x % 2 == 1 {
        vstd::arithmetic::power2::lemma2_to64();
    } else {
        lemma_trailing_zeros_bound(x / 2);
        let t = trailing_zeros_of(x / 2);
        vstd::arithmetic::power2::lemma_pow2_unfold(t + 1);
        assert(pow2(t + 1) <= x);
        if t + 1 >= usize::BITS {
            vstd::arithmetic::power2::lemma_pow2_strictly_increases((usize::BITS - 1) as nat, (t + 1) as nat);
            lemma_pow2_pos(0);
            if t + 1 > usize::BITS {
                vstd::arithmetic::power2::lemma_pow2_strictly_increases(usize::BITS as nat, (t + 1) as nat);
            }
            vstd::arithmetic::power2::lemma2_to64();
            assert(pow2(usize::BITS as nat) > usize::MAX);
        }
    }
}

/// The word whose only set bit is the lowest clear bit of `v`.
pub open spec fn low_zero_bit(v: usize) -> usize {
    ((v + 1) as usize) & !v
}

/// Zero, single bits below `dim`, XORs, Gray codes and entry corners of
/// `dim`-bit words are `dim`-bit words.
pub proof fn lemma_fits(dim: usize, x: usize, y: usize, k: usize)
    by (bit_vector)
    requires
        dim < usize::BITS,
    ensures
        fits(0, dim),
        fits(x, dim) && fits(y, dim) ==> fits(x ^ y, dim),
        k < dim ==> fits(1usize << k, dim),
        fits(x, dim) ==> fits(gray_code(x), dim),
        fits(x, dim) ==> fits(entry_map(x), dim),
        fits(x, dim) ==> x & low_mask(dim) == x,
        (x ^ y) ^ y == x,
        x ^ 0 == x,
{
}

/// Folding the Gray code of `w` cancels all but the first and the last shift.
pub proof fn lemma_gray_fold_of_gray(w: usize, k: usize)
    requires
        1 <= k < usize::BITS,
    ensures
        gray_fold(gray_code(w), k) == w ^ (w >> k),
    decreases k,
{
    if k > 1 {
        let j = (k - 1) as usize;
        lemma_gray_fold_of_gray(w, j);
        assert((w ^ (w >> j)) ^ ((w ^ (w >> 1)) >> j) == w ^ (w >> k)) by (bit_vector)
            requires
                1 < k < usize::BITS,
                j == k - 1,
        ;
    }
}

/// The Gray code of the fold of `g` is `g` but for its bits from `k` up.
pub proof fn lemma_gray_of_gray_fold(g: usize, k: usize)
    requires
        1 <= k < usize::BITS,
    ensures
        gray_code(gray_fold(g, k)) == g ^ (g >> k),
    decreases k,
{
    if k > 1 {
        let j = (k - 1) as usize;
        lemma_gray_of_gray_fold(g, j);
        let f = gray_fold(g, j);
        assert((f ^ (g >> j)) ^ ((f ^ (g >> j)) >> 1) == g ^ (g >> k)) by (bit_vector)
            requires
                1 < k < usize::BITS,
                j == k - 1,
                f ^ (f >> 1) == g ^ (g >> j),
        ;
    }
}

/// The fold of a `dim`-bit word is a `dim`-bit word.
pub proof fn lemma_gray_fold_fits(dim: usize, g: usize, k: usize)
    requires
        dim < usize::BITS,
        k <= dim,
        fits(g, dim),
    ensures
        fits(gray_fold(g, k), dim),
    decreases k,
{
    if k > 1 {
        let j = (k - 1) as usize;
        lemma_gray_fold_fits(dim, g, j);
        let f = gray_fold(g, j);
        assert(f ^ (g >> j) <= !(!0usize << dim)) by (bit_vector)
            requires
                dim < usize::BITS,
                j < dim,
                f <= !(!0usize << dim),
                g <= !(!0usize << dim),
        ;
    }
}

/// On `dim`-bit words the Gray code and its inverse undo each other.
pub proof fn lemma_gray_inverse(dim: usize, x: usize)
    requires
        1 <= dim < usize::BITS,
        fits(x, dim),
    ensures
        gray_inverse(dim, gray_code(x)) == x,
        gray_code(gray_inverse(dim, x)) == x,
        fits(gray_inverse(dim, x), dim),
        fits(gray_code(x), dim),
{
    lemma_gray_fold_of_gray(x, dim);
    lemma_gray_of_gray_fold(x, dim);
    lemma_gray_fold_fits(dim, x, dim);
    lemma_fits(dim, x, x, 0);
    assert(x ^ (x >> dim) == x) by (bit_vector)
        requires
            dim < usize::BITS,
            x <= !(!0usize << dim),
    ;
}

/// Rotations keep `dim`-bit words.
pub proof fn lemma_rotation_fits(dim: usize, x: usize, s: usize)
    by (bit_vector)
    requires
        s < dim,
        dim < usize::BITS,
        fits(x, dim),
    ensures
        fits(rotl(dim, x, s), dim),
        fits(rotr(dim, x, s), dim),
{
}

/// Rotation to the left undoes rotation to the right.
pub proof fn lemma_rotl_of_rotr(dim: usize, x: usize, s: usize)
    by (bit_vector)
    requires
        s < dim,
        dim < usize::BITS,
        fits(x, dim),
    ensures
        rotl(dim, rotr(dim, x, s), s) == x,
{
}

/// Rotation to the right undoes rotation to the left.
pub proof fn lemma_rotr_of_rotl(dim: usize, x: usize, s: usize)
    by (bit_vector)
    requires
        s < dim,
        dim < usize::BITS,
        fits(x, dim),
    ensures
        rotr(dim, rotl(dim, x, s), s) == x,
{
}

/// Flipping bit `k` of a word flips bit `k + s` of the word shifted to the
/// left by `s` and masked to `dim` bits, where that bit lies inside the mask.
pub proof fn lemma_shl_flip(dim: usize, x: usize, k: usize, s: usize)
    by (bit_vector)
    requires
        k < dim,
        s < dim,
        dim < usize::BITS,
    ensures
        k + s < dim ==> low_mask(dim) & ((x ^ (1usize << k)) << s) == (low_mask(dim) & (x << s)) ^ (1usize
            << ((k + s) as usize)),
        k + s >= dim ==> low_mask(dim) & ((x ^ (1usize << k)) << s) == low_mask(dim) & (x << s),
{
}

/// Flipping bit `k` of a word flips bit `k - r` of the word shifted to the
/// right by `r`, where `k` is at least `r`.
pub proof fn lemma_shr_flip(x: usize, k: usize, r: usize)
    by (bit_vector)
    requires
        k < usize::BITS,
        r < usize::BITS,
    ensures
        k >= r ==> (x ^ (1usize << k)) >> r == (x >> r) ^ (1usize << ((k - r) as usize)),
        k < r ==> (x ^ (1usize << k)) >> r == x >> r,
{
}

/// Flipping bit `k` of a word flips bit `k + s`, taken modulo `dim`, of its
/// rotation to the left by `s`.
pub proof fn lemma_rotl_flip(dim: usize, x: usize, k: usize, s: usize)
    requires
        k < dim,
        s < dim,
        dim < usize::BITS,
    ensures
        rotl(dim, x ^ (1usize << k), s) == rotl(dim, x, s) ^ (1usize << turned(dim, k, s)),
{
    let r = (dim - s) as usize;
    let high = low_mask(dim) & (x << s);
    let low = x >> r;
    let flip = 1usize << turned(dim, k, s);
    lemma_shl_flip(dim, x, k, s);
    lemma_shr_flip(x, k, r);
    lemma_xor_regroup(high, low, flip);
}

/// XOR may be regrouped.
pub proof fn lemma_xor_regroup(a: usize, b: usize, c: usize)
    by (bit_vector)
    ensures
        (a ^ c) ^ b == (a ^ b) ^ c,
        a ^ (b ^ c) == (a ^ b) ^ c,
{
}

/// Rotation leaves the zero word as it is.
pub proof fn lemma_rotl_zero(dim: usize, s: usize)
    by (bit_vector)
    requires
        s < dim,
        dim < usize::BITS,
    ensures
        rotl(dim, 0, s) == 0,
{
}

/// A bit of an XOR is the XOR of the bits.
pub proof fn lemma_xor_bit(x: usize, y: usize, j: usize)
    by (bit_vector)
    requires
        j < usize::BITS,
    ensures
        ((x ^ y) >> j) & 1 == ((x >> j) & 1) ^ ((y >> j) & 1),
        ((x ^ y) >> j) & 1 == ((y >> j) & 1) ^ ((x >> j) & 1),
        (x >> j) & 1 <= 1,
        (x ^ y) & (1usize << j) == 0 ==> (x >> j) & 1 == (y >> j) & 1,
{
}

/// The bits of the zero word and of the word 1.
pub proof fn lemma_one_bit(j: usize)
    by (bit_vector)
    requires
        j < usize::BITS,
    ensures
        (0usize >> j) & 1 == 0,
        ((1usize << 0usize) >> j) & 1 == if j == 0 {
            1usize
        } else {
            0usize
        },
{
}

/// XOR with zero changes nothing, XOR does not mind the order, and two words
/// that take the same flip differ by it.
pub proof fn lemma_xor_facts(e: usize, r: usize, a: usize)
    by (bit_vector)
    ensures
        gray_code(0) == 0,
        0usize ^ e == e,
        e ^ 0usize == e,
        e ^ r == r ^ e,
        (e ^ (r ^ a)) ^ (e ^ r) == a,
        ((r ^ a) ^ e) ^ (r ^ e) == a,
{
}

/// The position to which a rotation by `s` moves bit `k` of a `dim`-bit word.
pub open spec fn turned(dim: usize, k: usize, s: usize) -> usize {
    if k + s < dim {
        (k + s) as usize
    } else {
        (k + s - dim) as usize
    }
}

/// Rotation to the left moves bit `k` of a word to bit `k + s`, taken modulo `dim`.
#[verifier::rlimit(100)]
pub proof fn lemma_rotl_moves_bit(dim: usize, z: usize, k: usize, s: usize)
    by (bit_vector)
    requires
        k < dim,
        s < dim,
        dim < usize::BITS,
        fits(z, dim),
    ensures
        (rotl(dim, z, s) >> turned(dim, k, s)) & 1 == (z >> k) & 1,
{
}

/// Rotation to the left takes the word of bit `k` alone to the word of bit
/// `k + s`, taken modulo `dim`, alone.
pub proof fn lemma_rotl_bit(dim: usize, k: usize, s: usize)
    by (bit_vector)
    requires
        k < dim,
        s < dim,
        dim < usize::BITS,
    ensures
        rotl(dim, 1usize << k, s) == 1usize << turned(dim, k, s),
{
}

/// Masking one bit more adds the bit at the new position.
pub proof fn lemma_mask_step(x: usize, k: usize)
    by (bit_vector)
    requires
        k + 1 < usize::BITS,
    ensures
        x & low_mask(0) == 0,
        (x & low_mask(k)) ^ (((x >> k) & 1) << k) == x & low_mask((k + 1) as usize),
{
}

/// Adding bit `k` to a word of `k` bits sets that bit and no other.
pub proof fn lemma_pack_step(acc: usize, c: usize, k: usize, j: usize)
    by (bit_vector)
    requires
        k + 1 < usize::BITS,
        fits(acc, k),
        c <= 1,
    ensures
        fits(acc ^ (c << k), (k + 1) as usize),
        ((acc ^ (c << k)) >> k) & 1 == c,
        j < k ==> ((acc ^ (c << k)) >> j) & 1 == (acc >> j) & 1,
{
}

/// Two words that differ in bit `a` alone agree in every other bit.
pub proof fn lemma_bit_flip(x: usize, y: usize, a: usize, j: usize)
    by (bit_vector)
    requires
        x ^ y == 1usize << a,
        a < usize::BITS,
        j < usize::BITS,
    ensures
        j != a ==> (x >> j) & 1 == (y >> j) & 1,
        (x >> a) & 1 != (y >> a) & 1,
        (x >> j) & 1 <= 1,
{
}

/// The lowest set bit of a nonzero word lies at the position that its
/// trailing zeros count.
pub proof fn lemma_lowest_set_bit(x: usize)
    requires
        x != 0,
    ensures
        trailing_zeros_of(x) < usize::BITS,
        1usize << (trailing_zeros_of(x) as usize) == x & !((x - 1) as usize),
    decreases x,
{
    if x % 2 == 1 {
        assert(1usize << 0usize == x & !((x - 1) as usize)) by (bit_vector)
            requires
                x % 2 == 1,
        ;
    } else {
        let y = x / 2;
        lemma_lowest_set_bit(y);
        let t = trailing_zeros_of(y) as usize;
        let u = (t + 1) as usize;
        assert(u < usize::BITS && 1usize << u == x & !((x - 1) as usize)) by (bit_vector)
            requires
                x != 0,
                x % 2 == 0,
                y == x / 2,
                t < usize::BITS,
                u == t + 1,
                1usize << t == y & !((y - 1) as usize),
        ;
    }
}

/// The trailing ones of `v` end at its lowest clear bit.
pub proof fn lemma_trailing_ones_bit(v: usize)
    requires
        v != usize::MAX,
    ensures
        trailing_ones(v) < usize::BITS,
        1usize << (trailing_ones(v) as usize) == low_zero_bit(v),
{
    lemma_all_ones();
    let nv = !v;
    assert(nv != 0 && nv & !((nv - 1) as usize) == ((v + 1) as usize) & !v) by (bit_vector)
        requires
            v != !0usize,
            nv == !v,
    ;
    lemma_lowest_set_bit(nv);
}

/// The turn of a direction below `dim` is below `dim`.
pub proof fn lemma_turn_bound(dim: usize, d: usize)
    requires
        1 <= dim,
        d < dim,
    ensures
        turn(dim, d) < dim,
{
}

/// On `dim`-bit words the digit transform and its inverse undo each other.
pub proof fn lemma_transform_inverse(dim: usize, b: usize, e: usize, d: usize)
    requires
        1 <= dim < usize::BITS,
        fits(e, dim),
        d < dim,
        fits(b, dim),
    ensures
        fits(transform(dim, b, e, d), dim),
        fits(transform_inverse(dim, b, e, d), dim),
        transform_inverse(dim, transform(dim, b, e, d), e, d) == b,
        transform(dim, transform_inverse(dim, b, e, d), e, d) == b,
{
    let s = turn(dim, d);
    lemma_turn_bound(dim, d);
    let x = b ^ e;
    lemma_fits(dim, b, e, 0);
    lemma_rotation_fits(dim, x, s);
    lemma_rotl_of_rotr(dim, x, s);
    let y = rotl(dim, b, s);
    lemma_rotation_fits(dim, b, s);
    lemma_fits(dim, y, e, 0);
    lemma_rotr_of_rotl(dim, b, s);
}

/// A bit plane of `k` coordinates is a word of `k` bits, and its bits are the
/// coordinates' bits.
pub proof fn lemma_plane_fold_bits(p: Seq<nat>, i: nat, k: usize)
    requires
        k <= p.len(),
        k < usize::BITS,
    ensures
        fits(plane_fold(p, i, k), k),
        forall|j: usize| j < k ==> #[trigger] word_bit(plane_fold(p, i, k), j) == coord_bit(p[j as int], i),
    decreases k,
{
    if k == 0 {
        lemma_fits(0, 0, 0, 0);
    } else {
        let h = (k - 1) as usize;
        lemma_plane_fold_bits(p, i, h);
        let acc = plane_fold(p, i, h);
        let c = coord_bit(p[k - 1], i) as usize;
        lemma_pack_step(acc, c, h, 0);
        assert forall|j: usize| j < k implies #[trigger] word_bit(plane_fold(p, i, k), j) == coord_bit(
            p[j as int],
            i,
        ) by {
            lemma_pack_step(acc, c, h, j);
            assert(plane_fold(p, i, k) == acc ^ (c << h));
            if j < h {
                assert(word_bit(acc, j) == coord_bit(p[j as int], i));
            } else {
                assert(j == h);
                assert(c == coord_bit(p[j as int], i));
            }
        }
    }
}

/// The bit plane whose bits are those of the word `l` is the word `l`, as far
/// as the plane reaches.
pub proof fn lemma_plane_fold_is_word(p: Seq<nat>, i: nat, k: usize, l: usize)
    requires
        k <= p.len(),
        k < usize::BITS,
        forall|j: usize| j < k ==> coord_bit(p[j as int], i) == #[trigger] word_bit(l, j),
    ensures
        plane_fold(p, i, k) == l & low_mask(k),
    decreases k,
{
    if k == 0 {
        lemma_mask_step(l, 0);
    } else {
        let h = (k - 1) as usize;
        lemma_plane_fold_is_word(p, i, h, l);
        lemma_mask_step(l, h);
        assert(coord_bit(p[h as int], i) == word_bit(l, h));
    }
}

} // verus!
