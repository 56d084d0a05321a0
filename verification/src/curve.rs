//! The curve itself: what index a grid point has, and what point an index
//! visits, digit by digit from the coarsest bit plane down.

use vstd::prelude::*;
use vstd::arithmetic::power2::pow2;
use crate::cell_lemmas::lemma_next_orientation;
use crate::digit_lemmas::{lemma_digit_fits, lemma_weight};
use crate::machine_lemmas::{
    lemma_append_bit, lemma_append_digit, lemma_append_digit_value, lemma_digit_by_mask,
    lemma_digits_in_word, lemma_pow2_in_word, lemma_pow2_monotonic, lemma_shifted_bit,
};
use crate::theorems::{lemma_index_in_range, lemma_point_in_cube};
use crate::word_lemmas::{
    lemma_fits, lemma_gray_inverse, lemma_low_mask_is_pow2, lemma_mask_step,
    lemma_plane_fold_bits, lemma_transform_inverse, lemma_xor_bit,
};
use crate::words::{
    coordinates, direction_map, dmap, emap, entry_map, fits, gc, gc_inv, gray_code, gray_inverse,
    low_mask, plane_word, reduce, rotate_left, rotl, t, t_inv, transform, transform_inverse, turn,
    word_bit,
};

verus! {

/// Whether `e` and `d` are an entry corner and a direction of a cell of
/// `dim` dimensions.
pub open spec fn oriented(dim: usize, e: usize, d: usize) -> bool {
    &&& 1 <= dim < usize::BITS
    &&& fits(e, dim)
    &&& d < dim
}

/// The entry corner of sub-cube `w` of the cell entered at `e` in direction `d`.
pub open spec fn next_entry(dim: usize, e: usize, d: usize, w: usize) -> usize {
    e ^ rotl(dim, entry_map(w), turn(dim, d))
}

/// The direction of sub-cube `w` of a cell of direction `d`.
pub open spec fn next_direction(dim: usize, d: usize, w: usize) -> usize {
    ((d + direction_map(dim, w) + 1) % (dim as int)) as usize
}

/// The weight of digit `i` in base `2^dim`.
pub open spec fn weight(dim: usize, i: nat) -> nat {
    pow2(dim as nat * i)
}

/// Digit `i` of `index` in base `2^dim`.
pub open spec fn digit(dim: usize, index: nat, i: nat) -> nat {
    (index / weight(dim, i)) % pow2(dim as nat)
}

/// The index, along a curve of `level` bit planes that is entered at corner
/// `e` in direction `d`, of the point whose low `level` bits are those of
/// `point`: the digit of the top plane, then the index of the rest in the
/// sub-cube that this digit selects.
pub open spec fn hilbert_index_from(dim: usize, e: usize, d: usize, point: Seq<nat>, level: nat) -> nat
    decreases level,
{
    if level == 0 {
        0
    } else {
        let i = (level - 1) as nat;
        let w = gray_inverse(dim, transform(dim, plane_word(point, i), e, d));
        w as nat * weight(dim, i) + hilbert_index_from(
            dim,
            next_entry(dim, e, d, w),
            next_direction(dim, d, w),
            point,
            i,
        )
    }
}

/// The point that the low `level` digits of `index` reach along a curve that
/// is entered at corner `e` in direction `d`: the top digit gives the top bit
/// of every coordinate, the other digits the rest, inside the sub-cube that
/// the top digit selects.
pub open spec fn hilbert_point_from(dim: usize, e: usize, d: usize, index: nat, level: nat) -> Seq<nat>
    decreases level,
{
    if level == 0 {
        Seq::new(dim as nat, |j: int| 0nat)
    } else {
        let i = (level - 1) as nat;
        let w = digit(dim, index, i) as usize;
        let l = transform_inverse(dim, gray_code(w), e, d);
        let rest = hilbert_point_from(
            dim,
            next_entry(dim, e, d, w),
            next_direction(dim, d, w),
            index,
            i,
        );
        Seq::new(dim as nat, |j: int| word_bit(l, j as usize) * pow2(i) + rest[j])
    }
}

/// The Hilbert index of `point` on the curve of `dim` dimensions and `level`
/// bit planes.
pub open spec fn hilbert_index(dim: usize, point: Seq<nat>, level: nat) -> nat {
    hilbert_index_from(dim, 0, 0, point, level)
}

/// The grid point that the curve of `dim` dimensions and `level` bit planes
/// visits at `index`.
pub open spec fn hilbert_point(dim: usize, index: nat, level: nat) -> Seq<nat> {
    hilbert_point_from(dim, 0, 0, index, level)
}

/// Whether every coordinate of `p`, a point of `dim` dimensions, is below
/// `2^level`.
pub open spec fn in_cube(dim: usize, p: Seq<nat>, level: nat) -> bool {
    &&& p.len() == dim
    &&& forall|j: int| 0 <= j < dim ==> #[trigger] p[j] < pow2(level)
}

/// Convert `[usize; D]` to `usize`.
pub trait ToHilbertIndex<const D: usize> {
    /// The coordinates of the grid point that `self` stands for.
    spec fn grid_point(&self) -> Seq<nat>;

    /// Convert a grid point `[usize; D]` to a Hilbert index `usize`.
    ///
    /// Of each coordinate the low `level` bits count.
    fn to_hilbert_index(&self, level: usize) -> (h: usize)
        requires
            1 <= D < usize::BITS,
            D * level <= usize::BITS,
        ensures
            h == hilbert_index(D, self.grid_point(), level as nat),
            self.grid_point().len() == D ==> h < pow2(D as nat * level as nat),
    ;

    /// Equivalent to `to_hilbert_index` (abbreviation).
    fn to_hindex(&self, level: usize) -> (h: usize)
        requires
            1 <= D < usize::BITS,
            D * level <= usize::BITS,
        ensures
            h == hilbert_index(D, self.grid_point(), level as nat),
            self.grid_point().len() == D ==> h < pow2(D as nat * level as nat),
    {
        self.to_hilbert_index(level)
    }
}

/// Convert `usize` to `[usize; D]`.
pub trait FromHilbertIndex<const D: usize> {
    /// The position along the curve that `self` stands for.
    spec fn curve_index(&self) -> nat;

    /// Convert a Hilbert index `usize` to a grid point `[usize; D]`.
    ///
    /// Of the index the low `level` digits of `D` bits count.
    fn from_hilbert_index(&self, level: usize) -> (p: [usize; D])
        requires
            1 <= D < usize::BITS,
            D * level <= usize::BITS,
        ensures
            coordinates(p@) == hilbert_point(D, self.curve_index(), level as nat),
            in_cube(D, coordinates(p@), level as nat),
    ;

    /// Equivalent to `from_hilbert_index` (abbreviation).
    fn from_hindex(&self, level: usize) -> (p: [usize; D])
        requires
            1 <= D < usize::BITS,
            D * level <= usize::BITS,
        ensures
            coordinates(p@) == hilbert_point(D, self.curve_index(), level as nat),
            in_cube(D, coordinates(p@), level as nat),
    {
        self.from_hilbert_index(level)
    }
}

impl<const D: usize> ToHilbertIndex<D> for [usize; D] {
    open spec fn grid_point(&self) -> Seq<nat> {
        coordinates(self@)
    }

    fn to_hilbert_index(&self, level: usize) -> (h: usize) {
        let mut h: usize = 0;
        let mut e: usize = 0;
        let mut d: usize = 0;
        let mut i: usize = level;
        let ghost point = self.grid_point();
        proof {
            lemma_fits(D, 0, 0, 0);
            lemma_weight(D, 0);
            assert(0 * weight(D, level as nat) == 0);
        }
        while i > 0
            invariant
                1 <= D < usize::BITS,
                D * level <= usize::BITS,
                i <= level,
                point == coordinates(self@),
                oriented(D, e, d),
                h < weight(D, (level - i) as nat),
                hilbert_index(D, point, level as nat) == h * weight(D, i as nat) + hilbert_index_from(
                    D,
                    e,
                    d,
                    point,
                    i as nat,
                ),
            decreases i,
        {
            i -= 1;
            proof {
                lemma_digits_in_word(D, level, level as nat);
                assert(level <= D * level) by (nonlinear_arith)
                    requires
                        1 <= D,
                ;
            }
            let l = t::<D>(reduce(self, i), e, d);
            let w = gc_inv::<D>(l);
            proof {
                let b = plane_word(point, i as nat);
                lemma_plane_fold_bits(point, i as nat, D);
                lemma_transform_inverse(D, b, e, d);
                lemma_gray_inverse(D, l);
                lemma_next_orientation(D, e, d, w);
                lemma_low_mask_is_pow2(D);
                let n = (level - i - 1) as nat;
                lemma_append_digit_value(D, h as nat, w as nat, n, i as nat);
                lemma_digits_in_word(D, level, n + 1);
                lemma_append_digit(D, h, w);
            }
            e = e ^ rotate_left::<D>(emap(w), d + 1);
            d = (d + dmap::<D>(w) + 1) % D;
            h = (h << D) | w;
        }
        proof {
            lemma_weight(D, 0);
            assert(h * weight(D, 0) == h) by (nonlinear_arith)
                requires
                    weight(D, 0) == 1,
            ;
            lemma_index_in_range(D, point, level as nat);
        }
        h
    }
}

impl<const D: usize> FromHilbertIndex<D> for usize {
    open spec fn curve_index(&self) -> nat {
        *self as nat
    }

    fn from_hilbert_index(&self, level: usize) -> (p: [usize; D]) {
        let mut e: usize = 0;
        let mut d: usize = 0;
        let mut p = [0usize; D];
        let mut i: usize = level;
        let ghost index = *self as nat;
        let ghost target = hilbert_point(D, index, level as nat);
        proof {
            lemma_fits(D, 0, 0, 0);
            vstd::arithmetic::power2::lemma2_to64();
            assert forall|j: int| 0 <= j < D implies p@[j] == 0 by {
                vstd::array::axiom_spec_array_fill_for_copy_type::<usize, D>(0usize);
            }
        }
        while i > 0
            invariant
                1 <= D < usize::BITS,
                D * level <= usize::BITS,
                i <= level,
                index == *self as nat,
                target == hilbert_point(D, index, level as nat),
                oriented(D, e, d),
                forall|j: int| 0 <= j < D ==> #[trigger] p@[j] < pow2((level - i) as nat),
                forall|j: int|
                    0 <= j < D ==> #[trigger] target[j] == p@[j] * pow2(i as nat) + hilbert_point_from(
                        D,
                        e,
                        d,
                        index,
                        i as nat,
                    )[j],
            decreases i,
        {
            i -= 1;
            proof {
                lemma_digits_in_word(D, level, (i + 1) as nat);
                assert(level <= D * level) by (nonlinear_arith)
                    requires
                        1 <= D,
                ;
                assert(D * (i + 1) == i * D + D) by (nonlinear_arith);
            }
            let mut w: usize = 0;
            let ghost y = *self >> ((i * D) as usize);
            proof {
                lemma_mask_step(y, 0);
            }
            for k in 0..D
                invariant
                    1 <= D < usize::BITS,
                    i * D + D <= usize::BITS,
                    y == *self >> ((i * D) as usize),
                    w == y & low_mask(k),
            {
                proof {
                    lemma_shifted_bit(*self, (i * D) as usize, k);
                    lemma_mask_step(y, k);
                }
                w = w ^ (((*self >> (i * D + k)) & 1) << k);
            }
            let l = t_inv::<D>(gc(w), e, d);
            let ghost before = p;
            let ghost rest = hilbert_point_from(
                D,
                next_entry(D, e, d, w),
                next_direction(D, d, w),
                index,
                i as nat,
            );
            proof {
                lemma_digit_by_mask(D, *self, i);
                lemma_digit_fits(D, index, i as nat);
                lemma_next_orientation(D, e, d, w);
                lemma_pow2_monotonic((level - i) as nat, level as nat);
                lemma_pow2_in_word(level as nat);
                vstd::arithmetic::power2::lemma_pow2_unfold((level - i) as nat);
                vstd::arithmetic::power2::lemma_pow2_unfold((i + 1) as nat);
            }
            for j in 0..D
                invariant
                    1 <= D < usize::BITS,
                    i < level,
                    pow2((level - i) as nat) <= usize::MAX + 1,
                    pow2((level - i) as nat) == 2 * pow2((level - i - 1) as nat),
                    forall|m: int| 0 <= m < D ==> #[trigger] before@[m] < pow2((level - i - 1) as nat),
                    forall|m: int| 0 <= m < j ==> #[trigger] p@[m] == 2 * before@[m] + word_bit(l, m as usize),
                    forall|m: int| j <= m < D ==> #[trigger] p@[m] == before@[m],
            {
                proof {
                    lemma_xor_bit(l, l, j);
                    assert(before@[j as int] < pow2((level - i - 1) as nat));
                    lemma_append_bit(p@[j as int], (l >> j) & 1);
                }
                p[j] = (p[j] << 1) | ((l >> j) & 1);
            }
            proof {
                assert forall|j: int| 0 <= j < D implies #[trigger] p@[j] < pow2((level - i) as nat) by {
                    lemma_xor_bit(l, l, j as usize);
                    assert(before@[j] < pow2((level - i - 1) as nat));
                }
                assert forall|j: int| 0 <= j < D implies #[trigger] target[j] == p@[j] * pow2(i as nat)
                    + rest[j] by {
                    let b = word_bit(l, j as usize);
                    assert(p@[j] == 2 * before@[j] + b);
                    assert(hilbert_point_from(D, e, d, index, (i + 1) as nat)[j] == b * pow2(i as nat)
                        + rest[j]);
                    assert(target[j] == before@[j] * pow2((i + 1) as nat) + hilbert_point_from(
                        D,
                        e,
                        d,
                        index,
                        (i + 1) as nat,
                    )[j]);
                    assert(before@[j] * (2 * pow2(i as nat)) + b * pow2(i as nat) == (2 * before@[j] + b)
                        * pow2(i as nat)) by (nonlinear_arith);
                }
            }
            e = e ^ rotate_left::<D>(emap(w), d + 1);
            d = (d + dmap::<D>(w) + 1) % D;
        }
        proof {
            vstd::arithmetic::power2::lemma2_to64();
            assert forall|j: int| 0 <= j < D implies coordinates(p@)[j] == target[j] by {
                assert(target[j] == p@[j] * pow2(0) + hilbert_point_from(D, e, d, index, 0)[j]);
            }
            assert(coordinates(p@) =~= target);
            lemma_point_in_cube(D, index, level as nat);
        }
        p
    }
}

} // verus!
