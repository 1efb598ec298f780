//! The pixel grid the quadtree is built from and rendered into: a
//! `width x height` matrix of colors stored row-major.

use vstd::prelude::*;

use crate::color::Color;

verus! {

/// A `width x height` pixel grid, row-major: the pixel at `(x, y)` sits at
/// index `y * width + x`.
#[derive(Debug, PartialEq, Eq)]
pub struct Grid {
    pub width: u32,
    pub height: u32,
    pub pixels: Vec<Color>,
}

impl Grid {
    /// The backing vector holds exactly one color per coordinate pair.
    pub open spec fn wf(self) -> bool {
        self.pixels@.len() == self.width as int * self.height as int
    }

    pub open spec fn in_bounds(self, x: int, y: int) -> bool {
        0 <= x < self.width as int && 0 <= y < self.height as int
    }

    pub open spec fn color_at(self, x: int, y: int) -> Color
        recommends
            self.wf(),
            self.in_bounds(x, y),
    {
        self.pixels@[y * self.width as int + x]
    }

    /// Allocates a blank grid: every pixel is the all-zero color.
    pub fn new(width: u32, height: u32) -> (g: Grid)
        requires
            width as int * height as int <= usize::MAX,
        ensures
            g.wf(),
            g.width == width,
            g.height == height,
            forall|x: int, y: int| g.in_bounds(x, y) ==> g.color_at(x, y) == (Color {
                r: 0,
                g: 0,
                b: 0,
                a: 0,
            }),
    {
        let total: usize = (width as usize) * (height as usize);
        let mut pixels: Vec<Color> = Vec::new();
        let mut i: usize = 0;
        while i < total
            invariant
                0 <= i <= total,
                pixels@.len() == i,
                forall|j: int|
                    0 <= j < i ==> pixels@[j] == (Color { r: 0, g: 0, b: 0, a: 0 }),
            decreases total - i,
        {
            pixels.push(Color { r: 0, g: 0, b: 0, a: 0 });
            i = i + 1;
        }
        let g = Grid { width, height, pixels };
        proof {
            assert forall|x: int, y: int| g.in_bounds(x, y) implies g.color_at(x, y) == (Color {
                r: 0,
                g: 0,
                b: 0,
                a: 0,
            }) by {
                lemma_row_major_index(width as int, height as int, x, y);
            }
        }
        g
    }

    /// Reads the color at in-bounds coordinates.
    pub fn get_pixel(&self, x: u32, y: u32) -> (c: Color)
        requires
            self.wf(),
            self.in_bounds(x as int, y as int),
        ensures
            c == self.color_at(x as int, y as int),
    {
        let total: usize = self.pixels.len();
        proof {
            lemma_row_major_index(self.width as int, self.height as int, x as int, y as int);
        }
        let idx: usize = (y as usize) * (self.width as usize) + (x as usize);
        self.pixels[idx]
    }

    /// Writes the color at in-bounds coordinates; every other pixel is kept.
    pub fn put_pixel(&mut self, x: u32, y: u32, c: Color)
        requires
            old(self).wf(),
            old(self).in_bounds(x as int, y as int),
        ensures
            final(self).wf(),
            final(self).width == old(self).width,
            final(self).height == old(self).height,
            final(self).color_at(x as int, y as int) == c,
            forall|xx: int, yy: int|
                old(self).in_bounds(xx, yy) && !(xx == x as int && yy == y as int)
                    ==> final(self).color_at(xx, yy) == old(self).color_at(xx, yy),
    {
        let total: usize = self.pixels.len();
        proof {
            lemma_row_major_index(self.width as int, self.height as int, x as int, y as int);
        }
        let idx: usize = (y as usize) * (self.width as usize) + (x as usize);
        self.pixels[idx] = c;
        proof {
            assert forall|xx: int, yy: int|
                old(self).in_bounds(xx, yy) && !(xx == x as int && yy == y as int)
                    implies final(self).color_at(xx, yy) == old(self).color_at(xx, yy) by {
                lemma_row_major_index(self.width as int, self.height as int, xx, yy);
                lemma_row_major_distinct(self.width as int, x as int, y as int, xx, yy);
            }
        }
    }
}

/// A row-major index of in-bounds coordinates is itself in bounds.
pub proof fn lemma_row_major_index(w: int, h: int, x: int, y: int)
    requires
        0 <= x < w,
        0 <= y < h,
    ensures
        0 <= y * w + x < w * h,
{
    assert(y * w + x < w * h) by (nonlinear_arith)
        requires
            0 <= x < w,
            0 <= y < h,
    ;
    assert(y * w + x >= 0) by (nonlinear_arith)
        requires
            0 <= x,
            0 <= y,
            0 < w,
    ;
}

/// Distinct in-bounds coordinates get distinct row-major indices.
pub proof fn lemma_row_major_distinct(w: int, x: int, y: int, xx: int, yy: int)
    requires
        0 <= x < w,
        0 <= xx < w,
        0 <= y,
        0 <= yy,
        !(x == xx && y == yy),
    ensures
        y * w + x != yy * w + xx,
{
    assert(y * w + x != yy * w + xx) by (nonlinear_arith)
        requires
            0 <= x < w,
            0 <= xx < w,
            0 <= y,
            0 <= yy,
            !(x == xx && y == yy),
    ;
}

} // verus!
