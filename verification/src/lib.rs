//! A 2-out-of-2 visual secret-sharing library.
//!
//! A secret black-and-white image, held as a grid of bits, is split into two
//! encoded grids: a random share and a cipher. Neither grid alone carries any
//! information about the source, but combining the two cell by cell recovers
//! the source image at doubled resolution. Every encoded grid is built from
//! 2x2 tiles whose diagonals carry complementary bits.

pub mod grid;
pub mod crypto;
pub mod img;
