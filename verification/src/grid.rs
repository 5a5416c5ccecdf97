//! The mathematical model of bit grids: rectangular sequences of bits,
//! 2x2 tiles with complementary diagonals, and the cellwise combination rule.
//!
//! Encoded grids are addressed two ways: by cell coordinates (row, column),
//! and by tile coordinates, where tile (ti, tj) is the 2x2 block whose
//! top-left cell is (2*ti, 2*tj).

use vstd::prelude::*;
use vstd::arithmetic::div_mod::{
    lemma_fundamental_div_mod, lemma_mod_bound, lemma_multiply_divide_lt,
};

verus! {

/// The complementary bit: 0 becomes 1, everything else becomes 0.
pub open spec fn inv_bit(b: u8) -> u8 {
    if b == 0 {
        1u8
    } else {
        0u8
    }
}

/// A single binary value.
pub open spec fn is_bit(b: u8) -> bool {
    b == 0 || b == 1
}

/// The combination of two cells: 0 where they agree, 1 where they differ.
/// On bits this is exclusive or; it is also the rule that picks the leading
/// bit of a cipher tile from a source bit and a share bit.
pub open spec fn xor_bit(a: u8, b: u8) -> u8 {
    if a == b {
        0u8
    } else {
        1u8
    }
}

/// A rectangular grid: `height` rows, each of length `width`.
pub open spec fn is_grid(g: Seq<Seq<u8>>, height: int, width: int) -> bool {
    &&& g.len() == height
    &&& forall|i: int| 0 <= i < height ==> (#[trigger] g[i]).len() == width
}

/// The common row length of a rectangular grid.
pub open spec fn grid_width(g: Seq<Seq<u8>>) -> int {
    if g.len() == 0 {
        0
    } else {
        g[0].len() as int
    }
}

/// Every cell of the grid is a bit.
pub open spec fn binary_grid(g: Seq<Seq<u8>>) -> bool {
    forall|i: int, j: int|
        0 <= i < g.len() && 0 <= j < g[i].len() ==> is_bit(#[trigger] g[i][j])
}

/// The 2x2 block with top-left cell (i, j) holds `leading` on its main
/// diagonal and the complementary bit on its anti-diagonal.
pub open spec fn tile_set(g: Seq<Seq<u8>>, i: int, j: int, leading: u8) -> bool {
    &&& g[i][j] == leading
    &&& g[i][j + 1] == inv_bit(leading)
    &&& g[i + 1][j] == inv_bit(leading)
    &&& g[i + 1][j + 1] == leading
}

/// The 2x2 block with top-left cell (i, j) is diagonal-complementary:
/// equal bits on each diagonal, and the two diagonals differ.
pub open spec fn diag_tile(g: Seq<Seq<u8>>, i: int, j: int) -> bool {
    is_bit(g[i][j]) && tile_set(g, i, j, g[i][j])
}

/// The tile at tile coordinates (ti, tj) is diagonal-complementary.
pub open spec fn share_tile(g: Seq<Seq<u8>>, ti: int, tj: int) -> bool {
    diag_tile(g, 2 * ti, 2 * tj)
}

/// An encoded-resolution grid of th x tw tiles: 2*th rows of 2*tw cells,
/// every tile diagonal-complementary. Grids made of such tiles are the only
/// grids this library ever encodes.
pub open spec fn tiled_grid(g: Seq<Seq<u8>>, th: int, tw: int) -> bool {
    &&& is_grid(g, 2 * th, 2 * tw)
    &&& forall|ti: int, tj: int|
        0 <= ti < th && 0 <= tj < tw ==> #[trigger] share_tile(g, ti, tj)
}

/// The 2x2 block at tile coordinates (ti, tj) holds the bit `b` in all four
/// cells.
pub open spec fn uniform_tile(g: Seq<Seq<u8>>, ti: int, tj: int, b: u8) -> bool {
    &&& g[2 * ti][2 * tj] == b
    &&& g[2 * ti][2 * tj + 1] == b
    &&& g[2 * ti + 1][2 * tj] == b
    &&& g[2 * ti + 1][2 * tj + 1] == b
}

/// The 2x2 blocks of a and b at tile coordinates (ti, tj) agree cell by cell.
pub open spec fn tiles_equal(a: Seq<Seq<u8>>, b: Seq<Seq<u8>>, ti: int, tj: int) -> bool {
    &&& a[2 * ti][2 * tj] == b[2 * ti][2 * tj]
    &&& a[2 * ti][2 * tj + 1] == b[2 * ti][2 * tj + 1]
    &&& a[2 * ti + 1][2 * tj] == b[2 * ti + 1][2 * tj]
    &&& a[2 * ti + 1][2 * tj + 1] == b[2 * ti + 1][2 * tj + 1]
}

/// The cipher tile for source cell (ti, tj): its leading bit is 0 where the
/// source bit agrees with the leading bit of the share tile at the same tile
/// coordinates, and 1 where it differs; the rest of the tile follows the
/// diagonal-complementary pattern.
pub open spec fn cipher_tile(
    s: Seq<Seq<u8>>,
    r: Seq<Seq<u8>>,
    c: Seq<Seq<u8>>,
    ti: int,
    tj: int,
) -> bool {
    tile_set(c, 2 * ti, 2 * tj, xor_bit(s[ti][tj], r[2 * ti][2 * tj]))
}

/// The grid c encodes the source s against the share r, tile by tile: one
/// cipher tile per source cell.
pub open spec fn encodes(s: Seq<Seq<u8>>, r: Seq<Seq<u8>>, c: Seq<Seq<u8>>) -> bool {
    forall|ti: int, tj: int|
        0 <= ti < s.len() && 0 <= tj < grid_width(s) ==> #[trigger] cipher_tile(s, r, c, ti, tj)
}

/// v is the cellwise combination of a and b: the same shape as a, with 0
/// where the two grids agree and 1 where they differ.
pub open spec fn recovers(a: Seq<Seq<u8>>, b: Seq<Seq<u8>>, v: Seq<Seq<u8>>) -> bool {
    &&& v.len() == a.len()
    &&& forall|i: int| 0 <= i < a.len() ==> (#[trigger] v[i]).len() == a[i].len()
    &&& forall|i: int, j: int|
        0 <= i < a.len() && 0 <= j < a[i].len() ==> #[trigger] v[i][j] == xor_bit(
            a[i][j],
            b[i][j],
        )
}

/// Bridges the element-wise views of a vector of rows to its deep view:
/// the deep view has the same shape and the same cells.
pub proof fn lemma_deep_view_cells(g: Vec<Vec<u8>>)
    ensures
        g.deep_view().len() == g@.len(),
        forall|i: int| 0 <= i < g@.len() ==> (#[trigger] g.deep_view()[i]).len() == g@[i]@.len(),
        forall|i: int, j: int|
            0 <= i < g@.len() && 0 <= j < g@[i]@.len() ==> #[trigger] g.deep_view()[i][j] == g@[i]@[j],
{
}

/// Every cell of a grid of diagonal-complementary tiles is a bit: each cell
/// lies in the tile at (x / 2, y / 2), and both diagonals of a tile carry
/// bits.
pub proof fn lemma_tiled_grid_binary(g: Seq<Seq<u8>>, th: int, tw: int)
    requires
        tiled_grid(g, th, tw),
    ensures
        binary_grid(g),
{
    assert forall|x: int, y: int|
        0 <= x < g.len() && 0 <= y < g[x].len() implies is_bit(#[trigger] g[x][y]) by {
        let ti = x / 2;
        let tj = y / 2;
        lemma_fundamental_div_mod(x, 2);
        lemma_mod_bound(x, 2);
        lemma_fundamental_div_mod(y, 2);
        lemma_mod_bound(y, 2);
        lemma_multiply_divide_lt(x, 2, th);
        lemma_multiply_divide_lt(y, 2, tw);
        assert(share_tile(g, ti, tj));
        assert(x == 2 * ti || x == 2 * ti + 1);
        assert(y == 2 * tj || y == 2 * tj + 1);
    }
}

/// Every 2x2 block of a tiled grid at an even (row, col) has equal corners
/// on each diagonal and differing values across the two diagonals.
pub proof fn lemma_tiled_grid_blocks(g: Seq<Seq<u8>>, th: int, tw: int, i: int, j: int)
    requires
        tiled_grid(g, th, tw),
        0 <= i < 2 * th,
        0 <= j < 2 * tw,
        i % 2 == 0,
        j % 2 == 0,
    ensures
        g[i][j] == g[i + 1][j + 1],
        g[i][j + 1] == g[i + 1][j],
        g[i][j] != g[i][j + 1],
{
    let ti = i / 2;
    let tj = j / 2;
    lemma_fundamental_div_mod(i, 2);
    lemma_fundamental_div_mod(j, 2);
    lemma_multiply_divide_lt(i, 2, th);
    lemma_multiply_divide_lt(j, 2, tw);
    assert(share_tile(g, ti, tj));
}

} // verus!
