//! How the curve runs through the sub-cubes of one cell: where it enters and
//! leaves each, and how it is oriented in the next finer cell.

use vstd::prelude::*;
use vstd::arithmetic::div_mod::{lemma_fundamental_div_mod_converse, lemma_small_mod, lemma_mod_self_0};
use crate::curve::{next_direction, next_entry, oriented};
use crate::word_lemmas::{
    lemma_all_ones, lemma_fits, lemma_rotation_fits, lemma_rotl_flip, lemma_trailing_ones_bit,
    low_zero_bit, turned,
};
use crate::words::{
    direction_map, entry_map, fits, gray_code, low_mask, rotl, trailing_ones, turn,
};

verus! {

/// The corner through which the curve leaves sub-cube `w`, before the cell's
/// orientation is applied.
pub open spec fn exit_map(dim: usize, w: usize) -> usize {
    entry_map(w) ^ (1usize << direction_map(dim, w))
}

/// The word of the bit along which the curve leaves sub-cube `v`, where `v` is
/// not the last one.
pub open spec fn direction_bit(v: usize) -> usize {
    if v == 0 {
        1
    } else if v & 1 == 0 {
        low_zero_bit((v - 1) as usize)
    } else {
        low_zero_bit(v)
    }
}

/// Between two consecutive sub-cubes the Gray code changes in the lowest
/// clear bit of the first; the second is entered across that bit from where
/// the first is left, on the first one's side of it.
pub proof fn lemma_cell_bits(v: usize)
    by (bit_vector)
    requires
        v != !0usize,
    ensures
        gray_code((v + 1) as usize) == gray_code(v) ^ low_zero_bit(v),
        entry_map((v + 1) as usize) == (entry_map(v) ^ direction_bit(v)) ^ low_zero_bit(v),
        (entry_map((v + 1) as usize) ^ gray_code(v)) & low_zero_bit(v) == 0,
{
}

/// The lowest clear bit of a word below the mask lies below `dim`; that of
/// the mask itself at `dim`.
pub proof fn lemma_low_zero_position(dim: usize, v: usize, t: usize)
    by (bit_vector)
    requires
        dim < usize::BITS,
        t < usize::BITS,
        v <= low_mask(dim),
        1usize << t == low_zero_bit(v),
    ensures
        v < low_mask(dim) ==> t < dim,
        v == low_mask(dim) ==> t == dim,
{
}

/// The last sub-cube has the Gray code of the top bit, and is left through
/// the corner of the top bit.
pub proof fn lemma_last_bits(dim: usize)
    by (bit_vector)
    requires
        1 <= dim < usize::BITS,
    ensures
        gray_code(low_mask(dim)) == 1usize << ((dim - 1) as usize),
        entry_map(low_mask(dim)) ^ 1 == 1usize << ((dim - 1) as usize),
        low_mask(dim) != !0usize,
        low_mask(dim) & 1 == 1,
        low_mask(dim) != 0,
        1usize << 0usize == 1,
{
}

/// The direction of a sub-cube other than the last, and the position of the
/// lowest clear bit of its number.
pub proof fn lemma_direction_inner(dim: usize, v: usize)
    requires
        1 <= dim < usize::BITS,
        v < low_mask(dim),
    ensures
        direction_map(dim, v) < dim,
        1usize << direction_map(dim, v) == direction_bit(v),
        trailing_ones(v) < dim,
        1usize << (trailing_ones(v) as usize) == low_zero_bit(v),
{
    lemma_last_bits(dim);
    lemma_trailing_ones_bit(v);
    let t = trailing_ones(v) as usize;
    lemma_low_zero_position(dim, v, t);
    lemma_small_mod(t as nat, dim as nat);
    if v != 0 && v & 1 == 0 {
        let u = (v - 1) as usize;
        lemma_trailing_ones_bit(u);
        let tu = trailing_ones(u) as usize;
        lemma_low_zero_position(dim, u, tu);
        lemma_small_mod(tu as nat, dim as nat);
    }
}

/// The last sub-cube has direction 0 and is left through the corner of the
/// top bit.
pub proof fn lemma_direction_last(dim: usize)
    requires
        1 <= dim < usize::BITS,
    ensures
        direction_map(dim, low_mask(dim)) == 0,
        exit_map(dim, low_mask(dim)) == 1usize << ((dim - 1) as usize),
        gray_code(low_mask(dim)) == 1usize << ((dim - 1) as usize),
{
    let w = low_mask(dim);
    lemma_all_ones();
    lemma_last_bits(dim);
    lemma_trailing_ones_bit(w);
    let t = trailing_ones(w) as usize;
    lemma_low_zero_position(dim, w, t);
    lemma_mod_self_0(dim as int);
}

/// Where the curve enters a sub-cube other than the first, in terms of where
/// it leaves the one before.
pub proof fn lemma_entry_after_exit(dim: usize, v: usize)
    requires
        1 <= dim < usize::BITS,
        v < low_mask(dim),
    ensures
        entry_map((v + 1) as usize) == exit_map(dim, v) ^ low_zero_bit(v),
        gray_code((v + 1) as usize) == gray_code(v) ^ low_zero_bit(v),
        (entry_map((v + 1) as usize) ^ gray_code(v)) & low_zero_bit(v) == 0,
{
    lemma_all_ones();
    lemma_direction_inner(dim, v);
    lemma_cell_bits(v);
}

/// The direction in which a rotation by the turn of `d` takes axis `k`.
pub proof fn lemma_turned_direction(dim: usize, d: usize, k: usize)
    requires
        1 <= dim,
        d < dim,
        k < dim,
    ensures
        turn(dim, d) < dim,
        turned(dim, k, turn(dim, d)) == ((d + k + 1) % (dim as int)),
        turned(dim, k, turn(dim, d)) < dim,
        turned(dim, (dim - 1) as usize, turn(dim, d)) == d,
{
    let n = dim as int;
    if d + 1 < n {
        lemma_small_mod((d + 1) as nat, dim as nat);
    } else {
        lemma_mod_self_0(n);
    }
    if d + k + 1 < n {
        lemma_small_mod((d + k + 1) as nat, dim as nat);
    } else {
        lemma_fundamental_div_mod_converse(d + k + 1, n, 1, d + k + 1 - n);
    }
}

/// The orientation of a sub-cube is an orientation, and the corner through
/// which the curve leaves the sub-cube is the cell's image of `exit_map`.
pub proof fn lemma_next_orientation(dim: usize, e: usize, d: usize, w: usize)
    requires
        oriented(dim, e, d),
        fits(w, dim),
    ensures
        oriented(dim, next_entry(dim, e, d, w), next_direction(dim, d, w)),
        next_entry(dim, e, d, w) ^ (1usize << next_direction(dim, d, w)) == e ^ rotl(
            dim,
            exit_map(dim, w),
            turn(dim, d),
        ),
{
    let s = turn(dim, d);
    let k = direction_map(dim, w);
    if w < low_mask(dim) {
        lemma_direction_inner(dim, w);
    } else {
        lemma_direction_last(dim);
    }
    lemma_turned_direction(dim, d, k);
    lemma_fits(dim, w, w, 0);
    lemma_rotation_fits(dim, entry_map(w), s);
    let r = rotl(dim, entry_map(w), s);
    lemma_fits(dim, e, r, 0);
    lemma_rotl_flip(dim, entry_map(w), k, s);
    let b = 1usize << next_direction(dim, d, w);
    assert((e ^ r) ^ b == e ^ (r ^ b)) by (bit_vector);
}

} // verus!
