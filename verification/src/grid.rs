//! The mathematical model of a pixel buffer.

use crate::color::Color;
use vstd::arithmetic::div_mod::{lemma_fundamental_div_mod, lemma_fundamental_div_mod_converse};
use vstd::prelude::*;

verus! {

/// A rectangular grid of colors, stored row by row.
pub struct Grid {
    /// Number of columns.
    pub width: nat,
    /// Number of rows.
    pub height: nat,
    /// The colors in row-major order: the pixel at column `x` of row `y`
    /// stands at position `y * width + x`.
    pub pixels: Seq<Color>,
}

impl Grid {
    /// A grid holds exactly one color per cell, and its dimensions and its
    /// size are numbers that a buffer can hold.
    pub open spec fn wf(self) -> bool {
        &&& self.pixels.len() == self.width * self.height
        &&& self.width <= usize::MAX
        &&& self.height <= usize::MAX
        &&& self.pixels.len() <= usize::MAX
    }

    /// Position of the coordinate `(x, y)` in the row-major sequence.
    pub open spec fn offset(self, x: int, y: int) -> int {
        y * self.width + x
    }

    /// Whether the coordinate `(x, y)` designates a pixel: whether its
    /// column is one of the grid's columns and its row one of its rows.
    pub open spec fn in_bounds(self, x: int, y: int) -> bool {
        0 <= x < self.width && 0 <= y < self.height
    }

    /// The color at the coordinate `(x, y)`.
    pub open spec fn at(self, x: int, y: int) -> Color {
        self.pixels[self.offset(x, y)]
    }

    /// The grid of the given dimensions in which every pixel is black.
    pub open spec fn blank(width: nat, height: nat) -> Grid {
        Grid { width, height, pixels: Seq::new(width * height, |i: int| Color(0, 0, 0)) }
    }

    /// This grid with the color at `(x, y)` replaced.
    pub open spec fn with_pixel(self, x: int, y: int, color: Color) -> Grid {
        Grid {
            width: self.width,
            height: self.height,
            pixels: self.pixels.update(self.offset(x, y), color),
        }
    }

    /// Column, row and color of the pixel at position `i`.
    pub open spec fn triple(self, i: int) -> (nat, nat, Color) {
        ((i % self.width as int) as nat, (i / self.width as int) as nat, self.pixels[i])
    }

    /// Every pixel with its coordinate, in row-major order.
    pub open spec fn triples(self) -> Seq<(nat, nat, Color)> {
        Seq::new(self.pixels.len(), |i: int| self.triple(i))
    }
}

/// In a row of `width` cells, the cell `x` of row `y` stands at a position
/// whose remainder and quotient by `width` are `x` and `y`.
pub proof fn lemma_offset_splits(width: int, x: int, y: int)
    requires
        0 <= x < width,
        0 <= y,
    ensures
        (y * width + x) % width == x,
        (y * width + x) / width == y,
{
    lemma_fundamental_div_mod_converse(y * width + x, width, y, x);
}

/// A position below `width * height` has a column below `width` and a row
/// below `height`, and is the offset of that coordinate.
pub proof fn lemma_position_splits(width: int, height: int, i: int)
    requires
        0 <= width,
        0 <= height,
        0 <= i < width * height,
    ensures
        0 <= i % width < width,
        0 <= i / width < height,
        (i / width) * width + i % width == i,
{
    assert(width > 0) by (nonlinear_arith)
        requires
            0 <= width,
            0 <= i < width * height,
    ;
    lemma_fundamental_div_mod(i, width);
    let q = i / width;
    assert(width * q == q * width) by (nonlinear_arith);
    assert(0 <= q < height) by (nonlinear_arith)
        requires
            0 < width,
            0 <= height,
            0 <= i < width * height,
            i == q * width + i % width,
            0 <= i % width < width,
    ;
}

/// A coordinate inside the rectangle of a well-formed grid has its position
/// inside the sequence of pixels.
pub proof fn lemma_in_bounds_is_inside_sequence(g: Grid, x: int, y: int)
    requires
        g.wf(),
        g.in_bounds(x, y),
    ensures
        0 <= g.offset(x, y) < g.pixels.len(),
{
    let w = g.width as int;
    let h = g.height as int;
    assert(0 <= y * w && y * w + x < w * h) by (nonlinear_arith)
        requires
            0 <= x < w,
            0 <= y < h,
    ;
}

} // verus!
