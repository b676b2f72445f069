//! What a window shows of the canvas: a region that is selected, and the
//! colors of a rectangle of cells as bytes of red, green and blue.

use crate::canvas::Canvas;
use crate::data::RPlaceCoordinate;
use crate::pixel::rgb;
use vstd::prelude::*;

verus! {

/// A region of the canvas that is marked by two of its cells, which are two
/// opposite corners of it.
#[derive(Debug, Copy, Clone, PartialEq, Eq, Structural)]
pub struct SelectionRegion {
    pub canvas_start: RPlaceCoordinate,
    pub canvas_stop: RPlaceCoordinate,
}

/// The smaller of two numbers.
pub open spec fn lesser(a: u32, b: u32) -> u32 {
    if a < b {
        a
    } else {
        b
    }
}

/// The larger of two numbers.
pub open spec fn greater(a: u32, b: u32) -> u32 {
    if a < b {
        b
    } else {
        a
    }
}

impl SelectionRegion {
    /// The rectangle of the region: the first column, the column after the
    /// last, the first row, and the row after the last.
    pub fn bounds(&self) -> (r: (usize, usize, usize, usize))
        requires
            greater(self.canvas_start.x, self.canvas_stop.x) < u32::MAX,
            greater(self.canvas_start.y, self.canvas_stop.y) < u32::MAX,
        ensures
            r.0 == lesser(self.canvas_start.x, self.canvas_stop.x),
            r.1 == greater(self.canvas_start.x, self.canvas_stop.x) + 1,
            r.2 == lesser(self.canvas_start.y, self.canvas_stop.y),
            r.3 == greater(self.canvas_start.y, self.canvas_stop.y) + 1,
    {
        let (x1, x2) = if self.canvas_start.x < self.canvas_stop.x {
            (self.canvas_start.x, self.canvas_stop.x)
        } else {
            (self.canvas_stop.x, self.canvas_start.x)
        };
        let (y1, y2) = if self.canvas_start.y < self.canvas_stop.y {
            (self.canvas_start.y, self.canvas_stop.y)
        } else {
            (self.canvas_stop.y, self.canvas_start.y)
        };
        (x1 as usize, (x2 + 1) as usize, y1 as usize, (y2 + 1) as usize)
    }
}

/// The byte of red, of green or of blue of an RGB value: `part` 0 is red, 1
/// green, 2 blue.
pub open spec fn rgb_part(value: u32, part: int) -> u8 {
    if part == 0 {
        ((value / 0x10000) % 0x100) as u8
    } else if part == 1 {
        ((value / 0x100) % 0x100) as u8
    } else {
        (value % 0x100) as u8
    }
}

/// The colors of a rectangle of the canvas as bytes: row by row, and for each
/// cell its red, its green and its blue.
pub open spec fn image_of(canvas: Canvas, x1: int, x2: int, y1: int, y2: int) -> Seq<u8> {
    Seq::new(
        ((y2 - y1) * (x2 - x1) * 3) as nat,
        |i: int|
            rgb_part(
                rgb(canvas.pixel(x1 + (i / 3) % (x2 - x1), y1 + (i / 3) / (x2 - x1)).color),
                i % 3,
            ),
    )
}

impl<'a> Canvas<'a> {
    /// The colors of the cells of a rectangle, the columns from `x1` up to,
    /// not including, `x2` of the rows from `y1` up to, not including, `y2`:
    /// row by row, and for each cell its red, its green and its blue.
    pub fn get_image(&self, x1: usize, x2: usize, y1: usize, y2: usize) -> (image: Vec<u8>)
        requires
            self.wf(),
            x1 <= x2 <= self.dataset@.width,
            y1 <= y2 <= self.dataset@.height,
        ensures
            image@ == image_of(*self, x1 as int, x2 as int, y1 as int, y2 as int),
    {
        let ghost w = x2 - x1;
        let ghost h = y2 - y1;
        let ghost all = image_of(*self, x1 as int, x2 as int, y1 as int, y2 as int);
        let mut image: Vec<u8> = Vec::new();
        let mut y = y1;
        proof {
            assert((y - y1) * w == 0) by (nonlinear_arith)
                requires
                    y - y1 == 0,
            ;
            assert(h * w >= 0) by (nonlinear_arith)
                requires
                    h >= 0,
                    w >= 0,
            ;
            assert(image@ == all.take(0));
        }
        while y < y2
            invariant
                self.wf(),
                x1 <= x2 <= self.dataset@.width,
                y1 <= y <= y2 <= self.dataset@.height,
                w == x2 - x1,
                h == y2 - y1,
                all == image_of(*self, x1 as int, x2 as int, y1 as int, y2 as int),
                all.len() == h * w * 3,
                0 <= (y - y1) * w <= h * w,
                image@ == all.take((y - y1) * w * 3),
            decreases y2 - y,
        {
            let mut x = x1;
            proof {
                assert((y - y1 + 1) * w == (y - y1) * w + w) by (nonlinear_arith);
                assert((y - y1 + 1) * w <= h * w) by (nonlinear_arith)
                    requires
                        y - y1 + 1 <= h,
                        w >= 0,
                ;
            }
            while x < x2
                invariant
                    self.wf(),
                    x1 <= x <= x2 <= self.dataset@.width,
                    y1 <= y < y2 <= self.dataset@.height,
                    w == x2 - x1,
                    h == y2 - y1,
                    all == image_of(*self, x1 as int, x2 as int, y1 as int, y2 as int),
                    all.len() == h * w * 3,
                    0 <= (y - y1) * w,
                    (y - y1) * w + w <= h * w,
                    image@ == all.take(((y - y1) * w + (x - x1)) * 3),
                decreases x2 - x,
            {
                let color: u32 = self.pixels[y][x].color.to_rgb();
                let r = (color / 0x10000 % 0x100) as u8;
                let g = (color / 0x100 % 0x100) as u8;
                let b = (color % 0x100) as u8;
                proof {
                    let k = (y - y1) * w + (x - x1);
                    vstd::arithmetic::div_mod::lemma_fundamental_div_mod_converse(
                        k,
                        w,
                        y - y1,
                        x - x1,
                    );
                    assert(all[k * 3] == r);
                    assert(all[k * 3 + 1] == g);
                    assert(all[k * 3 + 2] == b);
                    assert(all.take((k + 1) * 3) == all.take(k * 3).push(r).push(g).push(b));
                }
                image.push(r);
                image.push(g);
                image.push(b);
                x += 1;
            }
            y += 1;
        }
        proof {
            assert((y - y1) * w == h * w) by (nonlinear_arith)
                requires
                    y - y1 == h,
            ;
            assert(all.take(all.len() as int) == all);
        }
        image
    }
}

} // verus!
