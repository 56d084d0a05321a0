//! D-dimensional Hilbert curves: the conversion between a position along the
//! curve (a Hilbert index) and the grid point it visits.
//!
//! A curve of dimension `D` and level `l` visits every point of the cube of
//! side `2^l` exactly once, and neighbouring indices visit neighbouring points.
//! The construction is Hamilton's: one `D`-bit digit of the index per bit
//! plane of the point, each digit read in an orientation (an entry corner and
//! a direction) that the coarser digits determine.
//!
//! `FromHilbertIndex` converts an index to a grid point and `ToHilbertIndex`
//! a grid point to its index; `indices` gives the range of all indices of a
//! level. What the two conversions compute is stated by `hilbert_point` and
//! `hilbert_index` in `curve`, and `theorems` proves of them that the curve
//! stays in the cube, that the conversions undo each other, and that points
//! at consecutive indices are one step apart.

pub mod words;
pub mod word_lemmas;
pub mod cell_lemmas;
pub mod curve;
pub mod digit_lemmas;
pub mod enumeration;
pub mod machine_lemmas;
pub mod theorems;

pub use curve::{FromHilbertIndex, ToHilbertIndex};
pub use enumeration::{indices, offset};
pub use words::{dmap, emap, g, gc, gc_inv, max, reduce, rotate_left, rotate_right, t, t_inv};
