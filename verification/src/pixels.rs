//! The pixel buffer and its sequential scan.

use crate::color::Color;
use crate::grid::{lemma_in_bounds_is_inside_sequence, Grid};
use vstd::prelude::*;

verus! {

/// A coordinate that designates no pixel of a buffer, together with the
/// buffer's dimensions.
#[derive(Clone, Copy, Debug, PartialEq, Eq, Structural)]
pub struct OutOfBounds {
    pub x: usize,
    pub y: usize,
    pub width: usize,
    pub height: usize,
}

/// A `width` by `height` buffer of colors.
pub struct Pixels {
    data: Vec<Color>,
    width: usize,
    height: usize,
}

impl View for Pixels {
    type V = Grid;

    closed spec fn view(&self) -> Grid {
        Grid { width: self.width as nat, height: self.height as nat, pixels: self.data@ }
    }
}

impl Pixels {
    #[verifier::type_invariant]
    spec fn inv(self) -> bool {
        self@.wf()
    }

    /// A buffer of the given dimensions with every pixel black. Either
    /// dimension may be zero, which gives an empty buffer.
    pub fn new(width: usize, height: usize) -> (p: Pixels)
        requires
            width * height <= usize::MAX,
        ensures
            p@ == Grid::blank(width as nat, height as nat),
            p@.wf(),
    {
        let data = vec![Color::black(); width * height];
        assert(data@ =~= Grid::blank(width as nat, height as nat).pixels);
        assert(data@.len() == data.len());
        Pixels { data, width, height }
    }

    /// A buffer made of its dimensions and its pixels in row-major order.
    pub(crate) fn from_parts(width: usize, height: usize, data: Vec<Color>) -> (p: Pixels)
        requires
            data@.len() == width * height,
        ensures
            p@ == (Grid { width: width as nat, height: height as nat, pixels: data@ }),
            p@.wf(),
    {
        assert(data@.len() == data.len());
        Pixels { data, width, height }
    }

    /// The pixels in row-major order.
    pub(crate) fn as_slice(&self) -> (s: &[Color])
        ensures
            s@ == self@.pixels,
            self@.wf(),
    {
        proof {
            use_type_invariant(self);
        }
        self.data.as_slice()
    }

    /// Number of columns.
    pub fn width(&self) -> (w: usize)
        ensures
            w == self@.width,
            self@.wf(),
    {
        proof {
            use_type_invariant(self);
        }
        self.width
    }

    /// Number of rows.
    pub fn height(&self) -> (h: usize)
        ensures
            h == self@.height,
            self@.wf(),
    {
        proof {
            use_type_invariant(self);
        }
        self.height
    }

    /// The position of `(x, y)` in the row-major sequence, or the bounds
    /// violation where the column is no column of the buffer or the row no
    /// row of it. A column at or beyond the right edge is refused in every
    /// row: it never reaches into the next one.
    pub fn idx(&self, x: usize, y: usize) -> (r: Result<usize, OutOfBounds>)
        ensures
            self@.wf(),
            match r {
                Ok(i) => self@.in_bounds(x as int, y as int) && i == self@.offset(
                    x as int,
                    y as int,
                ),
                Err(e) => !self@.in_bounds(x as int, y as int) && e.x == x && e.y == y && e.width
                    == self@.width && e.height == self@.height,
            },
    {
        proof {
            use_type_invariant(self);
        }
        if x < self.width && y < self.height {
            proof {
                lemma_in_bounds_is_inside_sequence(self@, x as int, y as int);
            }
            Ok(y * self.width + x)
        } else {
            Err(OutOfBounds { x, y, width: self.width, height: self.height })
        }
    }

    /// The color at `(x, y)`.
    pub fn get(&self, x: usize, y: usize) -> (color: Color)
        requires
            self@.in_bounds(x as int, y as int),
        ensures
            color == self@.at(x as int, y as int),
    {
        proof {
            use_type_invariant(self);
            lemma_in_bounds_is_inside_sequence(self@, x as int, y as int);
        }
        self.data[y * self.width + x]
    }

    /// Overwrites the color at `(x, y)`.
    pub fn set(&mut self, x: usize, y: usize, color: Color)
        requires
            old(self)@.in_bounds(x as int, y as int),
        ensures
            final(self)@ == old(self)@.with_pixel(x as int, y as int, color),
            final(self)@.wf(),
    {
        proof {
            use_type_invariant(&*self);
            lemma_in_bounds_is_inside_sequence(self@, x as int, y as int);
        }
        let i = y * self.width + x;
        self.data[i] = color;
    }

    /// The color at `(x, y)`, or the bounds violation where the coordinate
    /// designates no pixel.
    pub fn try_get(&self, x: usize, y: usize) -> (r: Result<Color, OutOfBounds>)
        ensures
            match r {
                Ok(color) => self@.in_bounds(x as int, y as int) && color == self@.at(
                    x as int,
                    y as int,
                ),
                Err(e) => !self@.in_bounds(x as int, y as int) && e.x == x && e.y == y && e.width
                    == self@.width && e.height == self@.height,
            },
    {
        match self.idx(x, y) {
            Ok(_) => Ok(self.get(x, y)),
            Err(e) => Err(e),
        }
    }

    /// Overwrites the color at `(x, y)`, or reports the bounds violation and
    /// leaves the buffer as it was.
    pub fn try_set(&mut self, x: usize, y: usize, color: Color) -> (r: Result<(), OutOfBounds>)
        ensures
            match r {
                Ok(_) => old(self)@.in_bounds(x as int, y as int) && final(self)@ == old(
                    self,
                )@.with_pixel(x as int, y as int, color) && final(self)@.wf(),
                Err(e) => !old(self)@.in_bounds(x as int, y as int) && final(self)@ == old(self)@
                    && e.x == x && e.y == y && e.width == old(self)@.width && e.height == old(
                    self,
                )@.height,
            },
    {
        match self.idx(x, y) {
            Ok(_) => {
                self.set(x, y, color);
                Ok(())
            },
            Err(e) => Err(e),
        }
    }

    /// A scan over every pixel with its coordinate, in row-major order.
    pub fn iter<'a>(&'a self) -> (it: Iter<'a>)
        ensures
            it.grid() == self@,
            it.position() == 0,
            self@.wf(),
    {
        proof {
            use_type_invariant(self);
        }
        Iter { pixels: self, index: 0 }
    }
}

/// A position in the row-major scan of a buffer.
pub struct Iter<'a> {
    pixels: &'a Pixels,
    index: usize,
}

impl<'a> Iter<'a> {
    #[verifier::type_invariant]
    spec fn inv(self) -> bool {
        self.index <= self.pixels.data@.len()
    }

    /// The content of the buffer that is scanned.
    pub closed spec fn grid(&self) -> Grid {
        self.pixels@
    }

    /// How many pixels the scan has yielded.
    pub closed spec fn position(&self) -> nat {
        self.index as nat
    }

    /// What the scan has yet to yield.
    pub open spec fn remaining(&self) -> Seq<(nat, nat, Color)> {
        self.grid().triples().skip(self.position() as int)
    }

    /// Yields the next pixel with its coordinate, or `None` once every
    /// pixel has been yielded.
    pub fn next(&mut self) -> (item: Option<(usize, usize, Color)>)
        ensures
            final(self).grid() == old(self).grid(),
            old(self).grid().wf(),
            old(self).position() <= old(self).grid().pixels.len(),
            match item {
                Some((x, y, color)) => {
                    &&& old(self).position() < old(self).grid().pixels.len()
                    &&& (x as nat, y as nat, color) == old(self).grid().triple(
                        old(self).position() as int,
                    )
                    &&& final(self).position() == old(self).position() + 1
                },
                None => {
                    &&& old(self).position() == old(self).grid().pixels.len()
                    &&& final(self).position() == old(self).position()
                },
            },
    {
        proof {
            use_type_invariant(&*self);
            use_type_invariant(self.pixels);
        }
        if self.index < self.pixels.data.len() {
            assert(self.pixels.width > 0) by (nonlinear_arith)
                requires
                    self.index < self.pixels.width * self.pixels.height,
            ;
            let color = self.pixels.data[self.index];
            let x = self.index % self.pixels.width;
            let y = self.index / self.pixels.width;
            self.index += 1;
            Some((x, y, color))
        } else {
            None
        }
    }

    /// Runs the scan to its end and returns what it yields, in order.
    pub fn collect(self) -> (all: Vec<(usize, usize, Color)>)
        ensures
            all@.len() == self.remaining().len(),
            forall|k: int|
                0 <= k < all@.len() ==> (all@[k].0 as nat, all@[k].1 as nat, all@[k].2)
                    == #[trigger] self.remaining()[k],
    {
        proof {
            use_type_invariant(&self);
        }
        let ghost grid = self.grid();
        let ghost start = self.position();
        let mut it = self;
        let mut all: Vec<(usize, usize, Color)> = Vec::new();
        loop
            invariant
                it.grid() == grid,
                start <= it.position() <= grid.pixels.len(),
                all@.len() == it.position() - start,
                forall|k: int|
                    0 <= k < all@.len() ==> (all@[k].0 as nat, all@[k].1 as nat, all@[k].2)
                        == #[trigger] grid.triple(start + k),
            ensures
                it.position() == grid.pixels.len(),
            decreases grid.pixels.len() - it.position(),
        {
            match it.next() {
                Some(item) => {
                    all.push(item);
                },
                None => {
                    break ;
                },
            }
        }
        assert forall|k: int| 0 <= k < all@.len() implies (
            all@[k].0 as nat,
            all@[k].1 as nat,
            all@[k].2,
        ) == #[trigger] self.remaining()[k] by {
            assert(self.remaining()[k] == grid.triple(start + k));
        }
        all
    }
}

} // verus!
