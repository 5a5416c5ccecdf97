//! The bitmap adapter: conversions between flat pixel buffers and the bit
//! grids the codec works on.
//!
//! Pixel buffers are row-major over image coordinates (x across a row, y
//! down), while grids are addressed grid[column][row]: the adapter performs
//! that transposition, the same way in both directions, so that a buffer sent
//! through the grid and back comes out unchanged.

use vstd::prelude::*;
use vstd::arithmetic::div_mod::{
    lemma_fundamental_div_mod, lemma_mod_bound, lemma_multiply_divide_lt,
};

use crate::grid::{grid_width, is_grid};

verus! {

/// The threshold rule from an 8-bit intensity to a bit: full intensity 255
/// becomes 1, every other value becomes 0.
pub open spec fn lum_bit(p: u8) -> u8 {
    if p == 255 {
        1u8
    } else {
        0u8
    }
}

/// The rendering rule from a bit back to an 8-bit intensity: 1 becomes 255,
/// 0 - and, defensively, any other value - becomes 0.
pub open spec fn bit_lum(b: u8) -> u8 {
    if b == 1 {
        255u8
    } else {
        0u8
    }
}

/// A fresh grid of `height` rows, each `width` zeros long.
pub fn create_grid(width: usize, height: usize) -> (g: Vec<Vec<u8>>)
    ensures
        is_grid(g.deep_view(), height as int, width as int),
        forall|i: int, j: int|
            0 <= i < height && 0 <= j < width ==> #[trigger] g.deep_view()[i][j] == 0,
{
    let mut g: Vec<Vec<u8>> = Vec::new();
    let mut i: usize = 0;
    while i < height
        invariant
            i <= height,
            g@.len() == i,
            forall|r: int| 0 <= r < i ==> (#[trigger] g@[r])@.len() == width,
            forall|r: int, c: int|
                0 <= r < i && 0 <= c < width ==> #[trigger] g@[r]@[c] == 0,
        decreases height - i,
    {
        let mut row: Vec<u8> = Vec::new();
        let mut j: usize = 0;
        while j < width
            invariant
                j <= width,
                row@.len() == j,
                forall|c: int| 0 <= c < j ==> #[trigger] row@[c] == 0,
            decreases width - j,
        {
            row.push(0);
            j = j + 1;
        }
        g.push(row);
        i = i + 1;
    }
    proof {
        crate::grid::lemma_deep_view_cells(g);
    }
    g
}

/// The thresholded value of one grayscale pixel.
pub fn to_one_or_zero(val: u8) -> (r: u8)
    ensures
        r == lum_bit(val),
{
    match val {
        255 => 1,
        _ => 0,
    }
}

/// The grid g, of `width` rows each `height` cells long, holds the
/// thresholded pixels of a row-major buffer, transposed: grid cell (j, i)
/// comes from image row i, image column j.
pub open spec fn pixel_grid(pixels: Seq<u8>, width: int, height: int, g: Seq<Seq<u8>>) -> bool {
    forall|i: int, j: int|
        0 <= i < height && 0 <= j < width ==> #[trigger] g[j][i] == lum_bit(
            pixels[i * width + j],
        )
}

/// Reads a row-major buffer of grayscale pixels, one byte per pixel of a
/// `width` x `height` image, into a bit grid: each pixel thresholded to a
/// bit and stored at the transposed position.
pub fn to_ones_and_zeros(pixels: &Vec<u8>, width: usize, height: usize) -> (g: Vec<Vec<u8>>)
    requires
        pixels@.len() == width * height,
    ensures
        is_grid(g.deep_view(), width as int, height as int),
        pixel_grid(pixels@, width as int, height as int, g.deep_view()),
{
    let mut g = create_grid(height, width);
    proof {
        crate::grid::lemma_deep_view_cells(g);
        assert forall|r: int| 0 <= r < width implies (#[trigger] g@[r])@.len() == height by {
            assert(g.deep_view()[r].len() == height);
        }
    }
    let total = pixels.len();
    let mut i: usize = 0;
    while i < height
        invariant
            i <= height,
            total == pixels@.len(),
            pixels@.len() == width * height,
            g@.len() == width,
            forall|r: int| 0 <= r < width ==> (#[trigger] g@[r])@.len() == height,
            forall|ii: int, jj: int|
                0 <= ii < i && 0 <= jj < width ==> #[trigger] g@[jj]@[ii] == lum_bit(
                    pixels@[ii * width + jj],
                ),
        decreases height - i,
    {
        let mut j: usize = 0;
        while j < width
            invariant
                i < height,
                j <= width,
                total == pixels@.len(),
                pixels@.len() == width * height,
                g@.len() == width,
                forall|r: int| 0 <= r < width ==> (#[trigger] g@[r])@.len() == height,
                forall|ii: int, jj: int|
                    0 <= ii < i && 0 <= jj < width ==> #[trigger] g@[jj]@[ii] == lum_bit(
                        pixels@[ii * width + jj],
                    ),
                forall|jj: int|
                    0 <= jj < j ==> #[trigger] g@[jj]@[i as int] == lum_bit(
                        pixels@[i as int * width + jj],
                    ),
            decreases width - j,
        {
            proof {
                assert((i as int) * (width as int) + (j as int) < (width as int) * (height
                    as int)) by (nonlinear_arith)
                    requires
                        0 <= (i as int) < (height as int),
                        0 <= (j as int) < (width as int),
                ;
            }
            let idx: usize = i * width + j;
            let bit = to_one_or_zero(pixels[idx]);
            g[j][i] = bit;
            j = j + 1;
        }
        i = i + 1;
    }
    proof {
        crate::grid::lemma_deep_view_cells(g);
    }
    g
}

/// The buffer `out` renders the grid g of `rows` x `cols` cells as an RGB
/// image of width `rows` and height `cols`: the pixel of image row i, image
/// column j takes the intensity of the transposed grid cell (j, i), once per
/// color channel.
pub open spec fn rgb_flat(g: Seq<Seq<u8>>, rows: int, cols: int, out: Seq<u8>) -> bool {
    &&& out.len() == 3 * rows * cols
    &&& forall|i: int, j: int|
        0 <= i < cols && 0 <= j < rows ==> {
            &&& out[3 * (i * rows + j)] == bit_lum(#[trigger] g[j][i])
            &&& out[3 * (i * rows + j) + 1] == bit_lum(g[j][i])
            &&& out[3 * (i * rows + j) + 2] == bit_lum(g[j][i])
        }
}

/// Renders a bit grid as a flat row-major RGB buffer, bit 1 as full white
/// and every other cell value as black, transposing grid coordinates back
/// into image coordinates.
pub fn flatten_rgb(grid: &Vec<Vec<u8>>) -> (out: Vec<u8>)
    requires
        is_grid(grid.deep_view(), grid@.len() as int, grid_width(grid.deep_view())),
    ensures
        rgb_flat(
            grid.deep_view(),
            grid@.len() as int,
            grid_width(grid.deep_view()),
            out@,
        ),
{
    proof {
        crate::grid::lemma_deep_view_cells(*grid);
        assert forall|r: int|
            0 <= r < grid@.len() implies (#[trigger] grid@[r])@.len() == grid_width(
            grid.deep_view(),
        ) by {
            assert(grid.deep_view()[r].len() == grid_width(grid.deep_view()));
        }
    }
    let rows = grid.len();
    let cols = if rows == 0 {
        0
    } else {
        grid[0].len()
    };
    proof {
        assert(cols as int == grid_width(grid.deep_view()));
    }
    let mut out: Vec<u8> = Vec::new();
    let mut i: usize = 0;
    while i < cols
        invariant
            i <= cols,
            grid@.len() == rows,
            forall|r: int| 0 <= r < rows ==> (#[trigger] grid@[r])@.len() == cols,
            out@.len() == 3 * (i as int * rows as int),
            forall|ii: int, jj: int|
                0 <= ii < i && 0 <= jj < rows ==> {
                    &&& out@[3 * (ii * rows + jj)] == bit_lum(#[trigger] grid@[jj]@[ii])
                    &&& out@[3 * (ii * rows + jj) + 1] == bit_lum(grid@[jj]@[ii])
                    &&& out@[3 * (ii * rows + jj) + 2] == bit_lum(grid@[jj]@[ii])
                },
        decreases cols - i,
    {
        let mut j: usize = 0;
        while j < rows
            invariant
                i < cols,
                j <= rows,
                grid@.len() == rows,
                forall|r: int| 0 <= r < rows ==> (#[trigger] grid@[r])@.len() == cols,
                out@.len() == 3 * (i as int * rows as int + j as int),
                forall|ii: int, jj: int|
                    0 <= ii < i && 0 <= jj < rows ==> {
                        &&& out@[3 * (ii * rows + jj)] == bit_lum(#[trigger] grid@[jj]@[ii])
                        &&& out@[3 * (ii * rows + jj) + 1] == bit_lum(grid@[jj]@[ii])
                        &&& out@[3 * (ii * rows + jj) + 2] == bit_lum(grid@[jj]@[ii])
                    },
                forall|jj: int|
                    0 <= jj < j ==> {
                        &&& out@[3 * (i as int * rows + jj)] == bit_lum(
                            #[trigger] grid@[jj]@[i as int],
                        )
                        &&& out@[3 * (i as int * rows + jj) + 1] == bit_lum(grid@[jj]@[i as int])
                        &&& out@[3 * (i as int * rows + jj) + 2] == bit_lum(grid@[jj]@[i as int])
                    },
            decreases rows - j,
        {
            let ghost prev = out@;
            let pixel: u8 = match grid[j][i] {
                1 => 255,
                _ => 0,
            };
            out.push(pixel);
            out.push(pixel);
            out.push(pixel);
            proof {
                let rows_i = rows as int;
                assert(out@.len() == prev.len() + 3);
                assert forall|ii: int, jj: int|
                    0 <= ii < i && 0 <= jj < rows implies {
                    &&& out@[3 * (ii * rows + jj)] == bit_lum(#[trigger] grid@[jj]@[ii])
                    &&& out@[3 * (ii * rows + jj) + 1] == bit_lum(grid@[jj]@[ii])
                    &&& out@[3 * (ii * rows + jj) + 2] == bit_lum(grid@[jj]@[ii])
                } by {
                    assert(ii * rows_i + jj < i as int * rows_i + j as int) by (nonlinear_arith)
                        requires
                            0 <= ii < i as int,
                            0 <= jj < rows_i,
                            0 <= j as int,
                    ;
                    assert(prev[3 * (ii * rows_i + jj)] == bit_lum(grid@[jj]@[ii]));
                }
                assert forall|jj: int|
                    0 <= jj < j + 1 implies {
                    &&& out@[3 * (i as int * rows + jj)] == bit_lum(#[trigger] grid@[jj]@[i as int])
                    &&& out@[3 * (i as int * rows + jj) + 1] == bit_lum(grid@[jj]@[i as int])
                    &&& out@[3 * (i as int * rows + jj) + 2] == bit_lum(grid@[jj]@[i as int])
                } by {
                    if jj < j {
                        assert(prev[3 * (i as int * rows_i + jj)] == bit_lum(grid@[jj]@[i as int]));
                    } else {
                        assert(out@[prev.len() as int] == pixel);
                        assert(out@[prev.len() as int + 1] == pixel);
                        assert(out@[prev.len() as int + 2] == pixel);
                    }
                }
            }
            j = j + 1;
        }
        proof {
            let rows_i = rows as int;
            assert((i as int + 1) * rows_i == i as int * rows_i + rows_i) by (nonlinear_arith);
            assert forall|ii: int, jj: int|
                0 <= ii < i + 1 && 0 <= jj < rows implies {
                &&& out@[3 * (ii * rows + jj)] == bit_lum(#[trigger] grid@[jj]@[ii])
                &&& out@[3 * (ii * rows + jj) + 1] == bit_lum(grid@[jj]@[ii])
                &&& out@[3 * (ii * rows + jj) + 2] == bit_lum(grid@[jj]@[ii])
            } by {
                if ii == i as int {
                    assert(out@[3 * (i as int * rows_i + jj)] == bit_lum(grid@[jj]@[i as int]));
                } else {
                    assert(out@[3 * (ii * rows_i + jj)] == bit_lum(grid@[jj]@[ii]));
                }
            }
        }
        i = i + 1;
    }
    proof {
        let rows_i = rows as int;
        let cols_i = cols as int;
        assert(3 * (cols_i * rows_i) == 3 * rows_i * cols_i) by (nonlinear_arith);
        assert(cols_i == grid_width(grid.deep_view()));
        assert forall|i: int, j: int|
            0 <= i < cols && 0 <= j < rows implies {
            &&& out@[3 * (i * rows + j)] == bit_lum(#[trigger] grid.deep_view()[j][i])
            &&& out@[3 * (i * rows + j) + 1] == bit_lum(grid.deep_view()[j][i])
            &&& out@[3 * (i * rows + j) + 2] == bit_lum(grid.deep_view()[j][i])
        } by {
            assert(grid.deep_view()[j][i] == grid@[j]@[i]);
            assert(out@[3 * (i * rows + j)] == bit_lum(grid@[j]@[i]));
        }
    }
    out
}


/// A buffer of pure black-and-white pixels survives the round trip through
/// the bit grid: reading it into a grid and rendering that grid back gives
/// an RGB buffer with the original intensity in every color channel of every
/// pixel.
pub proof fn lemma_adapter_round_trip(
    pixels: Seq<u8>,
    width: int,
    height: int,
    g: Seq<Seq<u8>>,
    out: Seq<u8>,
)
    requires
        width >= 0,
        height >= 0,
        pixels.len() == width * height,
        forall|k: int| 0 <= k < pixels.len() ==> (#[trigger] pixels[k]) == 0 || pixels[k] == 255,
        is_grid(g, width, height),
        pixel_grid(pixels, width, height, g),
        rgb_flat(g, width, height, out),
    ensures
        out.len() == 3 * pixels.len(),
        forall|k: int|
            0 <= k < pixels.len() ==> {
                &&& out[3 * k] == #[trigger] pixels[k]
                &&& out[3 * k + 1] == pixels[k]
                &&& out[3 * k + 2] == pixels[k]
            },
{
    assert(3 * width * height == 3 * (width * height)) by (nonlinear_arith);
    assert forall|k: int|
        0 <= k < pixels.len() implies {
        &&& out[3 * k] == #[trigger] pixels[k]
        &&& out[3 * k + 1] == pixels[k]
        &&& out[3 * k + 2] == pixels[k]
    } by {
        assert(width > 0 && height > 0) by (nonlinear_arith)
            requires
                width >= 0,
                height >= 0,
                width * height > k,
                k >= 0,
        ;
        let i = k / width;
        let j = k % width;
        lemma_fundamental_div_mod(k, width);
        lemma_mod_bound(k, width);
        lemma_multiply_divide_lt(k, width, height);
        assert(i * width + j == k) by (nonlinear_arith)
            requires
                k == width * i + j,
        ;
        assert(g[j][i] == lum_bit(pixels[i * width + j]));
        assert(out[3 * (i * width + j)] == bit_lum(g[j][i]));
        assert(out[3 * (i * width + j) + 1] == bit_lum(g[j][i]));
        assert(out[3 * (i * width + j) + 2] == bit_lum(g[j][i]));
    }
}
} // verus!
