//! What holds of the curve: it stays inside the cube, index and point
//! determine each other, and it moves one step at a time.

use vstd::prelude::*;
use vstd::arithmetic::div_mod::lemma_small_mod;
use vstd::arithmetic::power2::{lemma2_to64, pow2};
use crate::cell_lemmas::{
    exit_map, lemma_direction_inner, lemma_direction_last, lemma_entry_after_exit,
    lemma_next_orientation, lemma_turned_direction,
};
use crate::curve::{
    digit, hilbert_index, hilbert_index_from, hilbert_point, hilbert_point_from, in_cube,
    next_direction, next_entry, oriented, weight,
};
use crate::digit_lemmas::{
    lemma_bit_split, lemma_digit_extremes, lemma_digit_fits, lemma_digit_predecessor,
    lemma_digit_split, lemma_split_unique, lemma_weight,
};
use crate::word_lemmas::{
    lemma_bit_flip, lemma_fits, lemma_gray_inverse, lemma_low_mask_is_pow2, lemma_plane_fold_bits,
    lemma_plane_fold_is_word, lemma_rotl_bit, lemma_rotl_flip,
    lemma_one_bit, lemma_rotl_moves_bit, lemma_rotl_zero, lemma_transform_inverse,
    lemma_turn_bound, lemma_xor_bit, lemma_xor_facts, turned,
};
use crate::words::{
    coord_bit, entry_map, gray_code, gray_inverse, low_mask, plane_word, rotl,
    trailing_ones, transform, transform_inverse, turn, word_bit,
};

verus! {

/// The bits of a word are 0 or 1.
pub proof fn lemma_word_bit_bound(l: usize, j: usize)
    requires
        j < usize::BITS,
    ensures
        word_bit(l, j) <= 1,
{
    lemma_xor_bit(l, l, j);
}

/// Along a curve in any orientation, every point lies in the cube of side
/// `2^level`.
pub proof fn lemma_point_in_cube_from(dim: usize, e: usize, d: usize, k: nat, level: nat)
    requires
        oriented(dim, e, d),
    ensures
        in_cube(dim, hilbert_point_from(dim, e, d, k, level), level),
    decreases level,
{
    lemma2_to64();
    if level > 0 {
        let i = (level - 1) as nat;
        lemma_digit_fits(dim, k, i);
        let w = digit(dim, k, i) as usize;
        let l = transform_inverse(dim, gray_code(w), e, d);
        lemma_next_orientation(dim, e, d, w);
        let e2 = next_entry(dim, e, d, w);
        let d2 = next_direction(dim, d, w);
        lemma_point_in_cube_from(dim, e2, d2, k, i);
        let rest = hilbert_point_from(dim, e2, d2, k, i);
        let p = hilbert_point_from(dim, e, d, k, level);
        lemma_bit_split(0, i);
        assert forall|j: int| 0 <= j < dim implies #[trigger] p[j] < pow2(level) by {
            lemma_word_bit_bound(l, j as usize);
            let b = word_bit(l, j as usize);
            assert(b == 0 || b == 1);
            assert(p[j] == b * pow2(i) + rest[j]);
        }
    }
}

/// Along a curve in any orientation, every index lies below `2^(dim * level)`.
pub proof fn lemma_index_in_range_from(dim: usize, e: usize, d: usize, p: Seq<nat>, level: nat)
    requires
        oriented(dim, e, d),
        p.len() == dim,
    ensures
        hilbert_index_from(dim, e, d, p, level) < weight(dim, level),
    decreases level,
{
    lemma_weight(dim, 0);
    if level > 0 {
        let i = (level - 1) as nat;
        lemma_weight(dim, i);
        let b = plane_word(p, i);
        lemma_plane_fold_bits(p, i, dim);
        lemma_transform_inverse(dim, b, e, d);
        let tb = transform(dim, b, e, d);
        lemma_gray_inverse(dim, tb);
        let w = gray_inverse(dim, tb);
        lemma_next_orientation(dim, e, d, w);
        let e2 = next_entry(dim, e, d, w);
        let d2 = next_direction(dim, d, w);
        lemma_index_in_range_from(dim, e2, d2, p, i);
        lemma_low_mask_is_pow2(dim);
        let m = weight(dim, i);
        let r = hilbert_index_from(dim, e2, d2, p, i);
        let base = pow2(dim as nat);
        assert(w as nat * m + r < m * base) by (nonlinear_arith)
            requires
                w + 1 <= base,
                r < m,
        ;
    }
}

/// In any orientation, a point whose low `level` bits are those of the point
/// at index `k` has the low `level` digits of `k` as its index.
pub proof fn lemma_index_of_point_from(dim: usize, e: usize, d: usize, k: nat, level: nat, p: Seq<nat>)
    requires
        oriented(dim, e, d),
        p.len() == dim,
        forall|j: int|
            0 <= j < dim ==> #[trigger] p[j] % pow2(level) == hilbert_point_from(dim, e, d, k, level)[j],
    ensures
        hilbert_index_from(dim, e, d, p, level) == k % weight(dim, level),
    decreases level,
{
    lemma_weight(dim, 0);
    if level > 0 {
        let i = (level - 1) as nat;
        lemma_digit_fits(dim, k, i);
        let w = digit(dim, k, i) as usize;
        lemma_gray_inverse(dim, w);
        let l = transform_inverse(dim, gray_code(w), e, d);
        lemma_transform_inverse(dim, gray_code(w), e, d);
        lemma_next_orientation(dim, e, d, w);
        let e2 = next_entry(dim, e, d, w);
        let d2 = next_direction(dim, d, w);
        let rest = hilbert_point_from(dim, e2, d2, k, i);
        lemma_point_in_cube_from(dim, e2, d2, k, i);
        let q = hilbert_point_from(dim, e, d, k, level);
        assert forall|j: int| 0 <= j < dim implies coord_bit(p[j], i) == word_bit(l, j as usize)
            && #[trigger] p[j] % pow2(i) == rest[j] by {
            lemma_bit_split(p[j], i);
            lemma_word_bit_bound(l, j as usize);
            assert(q[j] == word_bit(l, j as usize) * pow2(i) + rest[j]);
            assert(p[j] % pow2(level) == q[j]);
            assert(word_bit(l, j as usize) * pow2(i) == pow2(i) * word_bit(l, j as usize))
                by (nonlinear_arith);
            lemma_split_unique(
                pow2(i),
                coord_bit(p[j], i),
                p[j] % pow2(i),
                word_bit(l, j as usize),
                rest[j],
            );
        }
        assert forall|j: usize| j < dim implies coord_bit(p[j as int], i) == #[trigger] word_bit(l, j) by {
            assert(p[j as int] % pow2(i) == rest[j as int]);
        }
        lemma_plane_fold_is_word(p, i, dim, l);
        lemma_fits(dim, l, l, 0);
        assert(plane_word(p, i) == l);
        lemma_index_of_point_from(dim, e2, d2, k, i, p);
        lemma_digit_split(dim, k, i);
        assert(weight(dim, i) * digit(dim, k, i) == w as nat * weight(dim, i)) by (nonlinear_arith)
            requires
                w == digit(dim, k, i),
        ;
    }
}

/// In any orientation, the point at an index whose low `level` digits are the
/// index of `p` has the low `level` bits of `p` as its coordinates.
pub proof fn lemma_point_of_index_from(dim: usize, e: usize, d: usize, p: Seq<nat>, level: nat, k: nat)
    requires
        oriented(dim, e, d),
        p.len() == dim,
        k % weight(dim, level) == hilbert_index_from(dim, e, d, p, level),
    ensures
        forall|j: int|
            0 <= j < dim ==> #[trigger] hilbert_point_from(dim, e, d, k, level)[j] == p[j] % pow2(level),
    decreases level,
{
    lemma2_to64();
    if level > 0 {
        let i = (level - 1) as nat;
        let b = plane_word(p, i);
        lemma_plane_fold_bits(p, i, dim);
        lemma_transform_inverse(dim, b, e, d);
        let tb = transform(dim, b, e, d);
        lemma_gray_inverse(dim, tb);
        let w = gray_inverse(dim, tb);
        lemma_next_orientation(dim, e, d, w);
        let e2 = next_entry(dim, e, d, w);
        let d2 = next_direction(dim, d, w);
        let r = hilbert_index_from(dim, e2, d2, p, i);
        lemma_index_in_range_from(dim, e2, d2, p, i);
        lemma_digit_split(dim, k, i);
        lemma_digit_fits(dim, k, i);
        assert(weight(dim, i) * (w as nat) == w as nat * weight(dim, i)) by (nonlinear_arith);
        lemma_split_unique(weight(dim, i), digit(dim, k, i), k % weight(dim, i), w as nat, r);
        assert(digit(dim, k, i) as usize == w);
        lemma_point_of_index_from(dim, e2, d2, p, i, k);
        let rest = hilbert_point_from(dim, e2, d2, k, i);
        let q = hilbert_point_from(dim, e, d, k, level);
        assert forall|j: int| 0 <= j < dim implies #[trigger] q[j] == p[j] % pow2(level) by {
            lemma_bit_split(p[j], i);
            assert(q[j] == word_bit(b, j as usize) * pow2(i) + rest[j]);
            assert(word_bit(b, j as usize) == coord_bit(p[j], i));
            assert(rest[j] == p[j] % pow2(i));
            assert(coord_bit(p[j], i) * pow2(i) == pow2(i) * coord_bit(p[j], i)) by (nonlinear_arith);
        }
    }
}

/// The curve begins in an orientation.
pub proof fn lemma_initial_orientation(dim: usize)
    requires
        1 <= dim < usize::BITS,
    ensures
        oriented(dim, 0, 0),
{
    lemma_fits(dim, 0, 0, 0);
}

/// Every point of the curve lies in the cube of side `2^level`.
pub proof fn lemma_point_in_cube(dim: usize, index: nat, level: nat)
    requires
        1 <= dim < usize::BITS,
    ensures
        in_cube(dim, hilbert_point(dim, index, level), level),
{
    lemma_initial_orientation(dim);
    lemma_point_in_cube_from(dim, 0, 0, index, level);
}

/// Every index of the curve lies below `2^(dim * level)`.
pub proof fn lemma_index_in_range(dim: usize, point: Seq<nat>, level: nat)
    requires
        1 <= dim < usize::BITS,
        point.len() == dim,
    ensures
        hilbert_index(dim, point, level) < pow2(dim as nat * level),
{
    lemma_initial_orientation(dim);
    lemma_index_in_range_from(dim, 0, 0, point, level);
}

/// The index of the point at an index below `2^(dim * level)` is that index.
pub proof fn lemma_index_of_point(dim: usize, index: nat, level: nat)
    requires
        1 <= dim < usize::BITS,
        index < pow2(dim as nat * level),
    ensures
        hilbert_index(dim, hilbert_point(dim, index, level), level) == index,
{
    lemma_initial_orientation(dim);
    let p = hilbert_point(dim, index, level);
    lemma_point_in_cube_from(dim, 0, 0, index, level);
    assert forall|j: int| 0 <= j < dim implies #[trigger] p[j] % pow2(level) == p[j] by {
        lemma_small_mod(p[j], pow2(level));
    }
    lemma_index_of_point_from(dim, 0, 0, index, level, p);
    lemma_small_mod(index, weight(dim, level));
}

/// Two indices below `2^(dim * level)` that visit the same point are the same
/// index.
pub proof fn lemma_points_distinct(dim: usize, a: nat, b: nat, level: nat)
    requires
        1 <= dim < usize::BITS,
        a < pow2(dim as nat * level),
        b < pow2(dim as nat * level),
        hilbert_point(dim, a, level) == hilbert_point(dim, b, level),
    ensures
        a == b,
{
    lemma_index_of_point(dim, a, level);
    lemma_index_of_point(dim, b, level);
}

/// The point at the index of a point of the cube is that point.
pub proof fn lemma_point_of_index(dim: usize, point: Seq<nat>, level: nat)
    requires
        1 <= dim < usize::BITS,
        in_cube(dim, point, level),
    ensures
        hilbert_point(dim, hilbert_index(dim, point, level), level) == point,
{
    lemma_initial_orientation(dim);
    let k = hilbert_index(dim, point, level);
    lemma_index_in_range_from(dim, 0, 0, point, level);
    lemma_small_mod(k, weight(dim, level));
    lemma_point_of_index_from(dim, 0, 0, point, level, k);
    lemma_point_in_cube_from(dim, 0, 0, k, level);
    let q = hilbert_point(dim, k, level);
    assert forall|j: int| 0 <= j < dim implies q[j] == point[j] by {
        lemma_small_mod(point[j], pow2(level));
    }
    assert(q =~= point);
}

/// The corner `c` of the cube of side `2^level`: the point whose coordinate
/// `j` is the largest where bit `j` of `c` is set, and 0 where it is clear.
pub open spec fn corner(dim: usize, c: usize, level: nat) -> Seq<nat> {
    Seq::new(dim as nat, |j: int| word_bit(c, j as usize) * ((pow2(level) - 1) as nat))
}

/// Whether `a` and `b` differ by one in the coordinate `axis` and in no other.
pub open spec fn differ_at(a: Seq<nat>, b: Seq<nat>, axis: int) -> bool {
    &&& a.len() == b.len()
    &&& 0 <= axis < a.len()
    &&& (a[axis] == b[axis] + 1 || b[axis] == a[axis] + 1)
    &&& forall|j: int| 0 <= j < a.len() && j != axis ==> a[j] == b[j]
}

/// The sum over the coordinates of the distance between `a` and `b`.
pub open spec fn manhattan_distance(a: Seq<nat>, b: Seq<nat>) -> nat
    decreases a.len(),
{
    if a.len() == 0 || b.len() != a.len() {
        0
    } else {
        let x = a.last();
        let y = b.last();
        manhattan_distance(a.drop_last(), b.drop_last()) + if x >= y {
            (x - y) as nat
        } else {
            (y - x) as nat
        }
    }
}

/// Points that agree in every coordinate are at distance 0.
pub proof fn lemma_manhattan_equal(a: Seq<nat>, b: Seq<nat>)
    requires
        a.len() == b.len(),
        forall|j: int| 0 <= j < a.len() ==> a[j] == b[j],
    ensures
        manhattan_distance(a, b) == 0,
    decreases a.len(),
{
    if a.len() > 0 {
        lemma_manhattan_equal(a.drop_last(), b.drop_last());
    }
}

/// Points that differ by one in one coordinate alone are at distance 1.
pub proof fn lemma_manhattan_step(a: Seq<nat>, b: Seq<nat>, axis: int)
    requires
        differ_at(a, b, axis),
    ensures
        manhattan_distance(a, b) == 1,
    decreases a.len(),
{
    if axis == a.len() - 1 {
        lemma_manhattan_equal(a.drop_last(), b.drop_last());
    } else {
        lemma_manhattan_step(a.drop_last(), b.drop_last(), axis);
    }
}

/// The product of a bit and a number is the number or 0.
pub proof fn lemma_bit_times(b: nat, x: nat)
    requires
        b <= 1,
    ensures
        b * x == if b == 1 {
            x
        } else {
            0
        },
{
    assert(1 * x == x && 0 * x == 0) by (nonlinear_arith);
}

/// The coordinate of a corner of the cube of side `2^(i + 1)` is the top bit
/// and the coordinate of the same corner of the cube of side `2^i`.
pub proof fn lemma_corner_split(dim: usize, c: usize, i: nat, j: int)
    requires
        0 <= j < dim,
        dim < usize::BITS,
    ensures
        corner(dim, c, i + 1)[j] == word_bit(c, j as usize) * pow2(i) + corner(dim, c, i)[j],
        corner(dim, c, 0)[j] == 0,
{
    lemma2_to64();
    lemma_bit_split(0, i);
    lemma_word_bit_bound(c, j as usize);
    let b = word_bit(c, j as usize);
    lemma_bit_times(b, pow2(i));
    lemma_bit_times(b, (pow2(i) - 1) as nat);
    lemma_bit_times(b, (pow2(i + 1) - 1) as nat);
    lemma_bit_times(b, 0);
}

/// A curve begins at its entry corner.
pub proof fn lemma_curve_start(dim: usize, e: usize, d: usize, k: nat, level: nat)
    requires
        oriented(dim, e, d),
        k % weight(dim, level) == 0,
    ensures
        hilbert_point_from(dim, e, d, k, level) == corner(dim, e, level),
    decreases level,
{
    lemma2_to64();
    let p = hilbert_point_from(dim, e, d, k, level);
    if level > 0 {
        let i = (level - 1) as nat;
        lemma_digit_extremes(dim, k, i);
        let s = turn(dim, d);
        lemma_turn_bound(dim, d);
        lemma_xor_facts(e, 0, 0);
        lemma_rotl_zero(dim, s);
        lemma_fits(dim, 0, 0, 0);
        lemma_next_orientation(dim, e, d, 0);
        let d2 = next_direction(dim, d, 0);
        assert(next_entry(dim, e, d, 0) == e);
        assert(transform_inverse(dim, gray_code(0), e, d) == e);
        lemma_curve_start(dim, e, d2, k, i);
        assert forall|j: int| 0 <= j < dim implies p[j] == corner(dim, e, level)[j] by {
            lemma_corner_split(dim, e, i, j);
            assert(p[j] == word_bit(e, j as usize) * pow2(i) + corner(dim, e, i)[j]);
        }
    } else {
        assert forall|j: int| 0 <= j < dim implies p[j] == corner(dim, e, level)[j] by {
            lemma_corner_split(dim, e, 0, j);
        }
    }
    assert(p =~= corner(dim, e, level));
}

/// A curve ends at the corner across its direction from its entry corner.
pub proof fn lemma_curve_end(dim: usize, e: usize, d: usize, k: nat, level: nat)
    requires
        oriented(dim, e, d),
        k % weight(dim, level) == weight(dim, level) - 1,
    ensures
        hilbert_point_from(dim, e, d, k, level) == corner(dim, e ^ (1usize << d), level),
    decreases level,
{
    lemma2_to64();
    let p = hilbert_point_from(dim, e, d, k, level);
    let c = e ^ (1usize << d);
    if level > 0 {
        let i = (level - 1) as nat;
        lemma_digit_extremes(dim, k, i);
        lemma_low_mask_is_pow2(dim);
        let w = low_mask(dim);
        assert(digit(dim, k, i) as usize == w);
        lemma_direction_last(dim);
        let s = turn(dim, d);
        let top = (dim - 1) as usize;
        lemma_turned_direction(dim, d, top);
        lemma_rotl_bit(dim, top, s);
        lemma_xor_facts(e, 1usize << d, 0);
        let l = transform_inverse(dim, gray_code(w), e, d);
        assert(l == c);
        lemma_next_orientation(dim, e, d, w);
        let e2 = next_entry(dim, e, d, w);
        let d2 = next_direction(dim, d, w);
        assert(e2 ^ (1usize << d2) == c);
        lemma_curve_end(dim, e2, d2, k, i);
        assert forall|j: int| 0 <= j < dim implies p[j] == corner(dim, c, level)[j] by {
            lemma_corner_split(dim, c, i, j);
            assert(p[j] == word_bit(c, j as usize) * pow2(i) + corner(dim, c, i)[j]);
        }
    } else {
        assert forall|j: int| 0 <= j < dim implies p[j] == corner(dim, c, level)[j] by {
            lemma_corner_split(dim, c, 0, j);
        }
    }
    assert(p =~= corner(dim, c, level));
}

/// Between two consecutive sub-cubes `v` and `v + 1` of a cell the curve
/// crosses one axis: the sub-cubes differ in that axis alone, and the corner
/// where the curve leaves the first and the corner where it enters the second
/// differ in that axis alone, each lying on the side of the other sub-cube.
pub proof fn lemma_crossing(dim: usize, e: usize, d: usize, v: usize) -> (a: usize)
    requires
        oriented(dim, e, d),
        v < low_mask(dim),
    ensures
        a < dim,
        ({
            let w = (v + 1) as usize;
            let lv = transform_inverse(dim, gray_code(v), e, d);
            let lw = transform_inverse(dim, gray_code(w), e, d);
            let leave = next_entry(dim, e, d, v) ^ (1usize << next_direction(dim, d, v));
            let enter = next_entry(dim, e, d, w);
            &&& forall|j: usize|
                j < dim && j != a ==> #[trigger] word_bit(lw, j) == word_bit(lv, j) && word_bit(enter, j)
                    == word_bit(leave, j)
            &&& word_bit(lw, a) != word_bit(lv, a)
            &&& word_bit(enter, a) != word_bit(leave, a)
            &&& word_bit(enter, a) == word_bit(lv, a)
        }),
{
    let w = (v + 1) as usize;
    let s = turn(dim, d);
    lemma_turn_bound(dim, d);
    lemma_direction_inner(dim, v);
    let g = trailing_ones(v) as usize;
    lemma_entry_after_exit(dim, v);
    lemma_turned_direction(dim, d, g);
    let a = turned(dim, g, s);
    let flip = 1usize << a;
    let xv = exit_map(dim, v);
    let r = rotl(dim, xv, s);
    let gr = rotl(dim, gray_code(v), s);
    lemma_rotl_flip(dim, xv, g, s);
    lemma_rotl_flip(dim, gray_code(v), g, s);
    lemma_fits(dim, v, v, 0);
    lemma_fits(dim, w, w, 0);
    lemma_next_orientation(dim, e, d, v);
    let lv = transform_inverse(dim, gray_code(v), e, d);
    let lw = transform_inverse(dim, gray_code(w), e, d);
    let leave = next_entry(dim, e, d, v) ^ (1usize << next_direction(dim, d, v));
    let enter = next_entry(dim, e, d, w);
    assert(leave == e ^ r);
    assert(enter == e ^ (r ^ flip));
    assert(lv == gr ^ e);
    assert(lw == (gr ^ flip) ^ e);
    lemma_xor_facts(e, r, flip);
    lemma_xor_facts(e, gr, flip);
    assert(enter ^ leave == flip);
    assert(lw ^ lv == flip);
    let re = rotl(dim, entry_map(w), s);
    lemma_rotl_moves_bit(dim, entry_map(w), g, s);
    lemma_rotl_moves_bit(dim, gray_code(v), g, s);
    lemma_xor_bit(entry_map(w), gray_code(v), g);
    lemma_xor_bit(e, re, a);
    lemma_xor_bit(gr, e, a);
    assert(word_bit(enter, a) == word_bit(lv, a));
    lemma_bit_flip(enter, leave, a, a);
    lemma_bit_flip(lw, lv, a, a);
    assert forall|j: usize| j < dim && j != a implies #[trigger] word_bit(lw, j) == word_bit(lv, j)
        && word_bit(enter, j) == word_bit(leave, j) by {
        lemma_bit_flip(enter, leave, a, j);
        lemma_bit_flip(lw, lv, a, j);
    }
    a
}

/// Along a curve in any orientation, the points at two consecutive indices
/// differ by one in one coordinate alone, unless the second index begins the
/// curve anew.
pub proof fn lemma_curve_step(dim: usize, e: usize, d: usize, k: nat, level: nat) -> (axis: int)
    requires
        oriented(dim, e, d),
        k >= 1,
        k % weight(dim, level) != 0,
    ensures
        differ_at(
            hilbert_point_from(dim, e, d, (k - 1) as nat, level),
            hilbert_point_from(dim, e, d, k, level),
            axis,
        ),
    decreases level,
{
    lemma_weight(dim, 0);
    if level == 0 {
        return 0;
    }
    let i = (level - 1) as nat;
    let h = (k - 1) as nat;
    lemma_digit_predecessor(dim, k, i);
    lemma_digit_fits(dim, k, i);
    lemma_digit_fits(dim, h, i);
    let w = digit(dim, k, i) as usize;
    let v = digit(dim, h, i) as usize;
    let lw = transform_inverse(dim, gray_code(w), e, d);
    let lv = transform_inverse(dim, gray_code(v), e, d);
    lemma_next_orientation(dim, e, d, w);
    lemma_next_orientation(dim, e, d, v);
    let ew = next_entry(dim, e, d, w);
    let dw = next_direction(dim, d, w);
    let ev = next_entry(dim, e, d, v);
    let dv = next_direction(dim, d, v);
    let p1 = hilbert_point_from(dim, e, d, h, level);
    let p2 = hilbert_point_from(dim, e, d, k, level);
    let r1 = hilbert_point_from(dim, ev, dv, h, i);
    let r2 = hilbert_point_from(dim, ew, dw, k, i);
    assert(forall|j: int| 0 <= j < dim ==> p1[j] == word_bit(lv, j as usize) * pow2(i) + r1[j]);
    assert(forall|j: int| 0 <= j < dim ==> p2[j] == word_bit(lw, j as usize) * pow2(i) + r2[j]);
    if k % weight(dim, i) != 0 {
        let axis = lemma_curve_step(dim, ew, dw, k, i);
        assert(differ_at(p1, p2, axis));
        axis
    } else {
        lemma_low_mask_is_pow2(dim);
        let a = lemma_crossing(dim, e, d, v);
        let leave = ev ^ (1usize << dv);
        lemma_curve_end(dim, ev, dv, h, i);
        lemma_curve_start(dim, ew, dw, k, i);
        lemma2_to64();
        lemma_bit_split(0, i);
        let side = (pow2(i) - 1) as nat;
        assert forall|j: int| 0 <= j < dim && j != a implies p1[j] == p2[j] by {
            assert(word_bit(lw, j as usize) == word_bit(lv, j as usize));
            assert(r1[j] == word_bit(leave, j as usize) * side);
            assert(r2[j] == word_bit(ew, j as usize) * side);
        }
        lemma_word_bit_bound(lv, a);
        lemma_word_bit_bound(lw, a);
        lemma_word_bit_bound(leave, a);
        lemma_word_bit_bound(ew, a);
        assert(r1[a as int] == word_bit(leave, a) * side);
        assert(r2[a as int] == word_bit(ew, a) * side);
        assert(p1[a as int] == word_bit(lv, a) * pow2(i) + r1[a as int]);
        assert(p2[a as int] == word_bit(lw, a) * pow2(i) + r2[a as int]);
        lemma_bit_times(word_bit(lv, a), pow2(i));
        lemma_bit_times(word_bit(lw, a), pow2(i));
        lemma_bit_times(word_bit(leave, a), side);
        lemma_bit_times(word_bit(ew, a), side);
        if word_bit(lv, a) == 0 {
            assert(word_bit(lw, a) == 1 && word_bit(ew, a) == 0 && word_bit(leave, a) == 1);
            assert(p2[a as int] == p1[a as int] + 1);
        } else {
            assert(word_bit(lw, a) == 0 && word_bit(ew, a) == 1 && word_bit(leave, a) == 0);
            assert(p1[a as int] == p2[a as int] + 1);
        }
        assert(differ_at(p1, p2, a as int));
        a as int
    }
}

/// The points at two consecutive indices of the curve are neighbours: they
/// differ by one in one coordinate alone, so that their distance is 1.
pub proof fn lemma_neighbours(dim: usize, index: nat, level: nat)
    requires
        1 <= dim < usize::BITS,
        0 < index < pow2(dim as nat * level),
    ensures
        manhattan_distance(
            hilbert_point(dim, (index - 1) as nat, level),
            hilbert_point(dim, index, level),
        ) == 1,
        exists|axis: int|
            #[trigger] differ_at(
                hilbert_point(dim, (index - 1) as nat, level),
                hilbert_point(dim, index, level),
                axis,
            ),
{
    lemma_initial_orientation(dim);
    lemma_small_mod(index, weight(dim, level));
    let axis = lemma_curve_step(dim, 0, 0, index, level);
    lemma_manhattan_step(
        hilbert_point(dim, (index - 1) as nat, level),
        hilbert_point(dim, index, level),
        axis,
    );
}

/// The curve of level 0 has one point, the origin, and one index, 0.
pub proof fn lemma_level_zero(dim: usize, point: Seq<nat>, index: nat)
    ensures
        hilbert_index(dim, point, 0) == 0,
        hilbert_point(dim, index, 0) == Seq::new(dim as nat, |j: int| 0nat),
        pow2(dim as nat * 0) == 1,
{
    lemma_weight(dim, 0);
}

/// The curve begins at the origin and ends at the far end of the first axis.
pub proof fn lemma_curve_ends(dim: usize, level: nat)
    requires
        1 <= dim < usize::BITS,
    ensures
        hilbert_point(dim, 0, level) == Seq::new(dim as nat, |j: int| 0nat),
        hilbert_point(dim, (pow2(dim as nat * level) - 1) as nat, level) == Seq::new(
            dim as nat,
            |j: int|
                if j == 0 {
                    (pow2(level) - 1) as nat
                } else {
                    0nat
                },
        ),
{
    lemma_initial_orientation(dim);
    lemma_weight(dim, level);
    lemma2_to64();
    let last = (pow2(dim as nat * level) - 1) as nat;
    lemma_small_mod(0, weight(dim, level));
    lemma_small_mod(last, weight(dim, level));
    lemma_curve_start(dim, 0, 0, 0, level);
    lemma_curve_end(dim, 0, 0, last, level);
    lemma_xor_facts(1usize << 0usize, 0, 0);
    let first = hilbert_point(dim, 0, level);
    let end = hilbert_point(dim, last, level);
    let side = (pow2(level) - 1) as nat;
    assert forall|j: int| 0 <= j < dim implies first[j] == 0 && end[j] == if j == 0 {
        side
    } else {
        0nat
    } by {
        lemma_one_bit(j as usize);
        lemma_bit_times(word_bit(0, j as usize), side);
        lemma_bit_times(word_bit(1usize << 0usize, j as usize), side);
    }
    assert(first =~= Seq::new(dim as nat, |j: int| 0nat));
    assert(end =~= Seq::new(
        dim as nat,
        |j: int|
            if j == 0 {
                side
            } else {
                0nat
            },
    ));
}

} // verus!
