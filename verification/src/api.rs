//! A part of the canvas at one moment as it is sent to a player of the
//! guessing game.

use crate::canvas::Canvas;
use crate::pixel::color_index;
use vstd::prelude::*;

verus! {

/// A rectangle of the canvas at one moment: where it lies, how large it is,
/// and for each of its cells, row by row, the position of its color in the
/// palette.
#[derive(Debug)]
pub struct GameDisplay {
    pub timestamp: u64,
    pub top_left: (u16, u16),
    pub width: u16,
    pub height: u16,
    pub data: Vec<u8>,
}

/// The colors of a rectangle of the canvas, row by row, each as its position
/// in the palette.
pub open spec fn colors_of(
    canvas: Canvas,
    x_start: int,
    y_start: int,
    width: int,
    height: int,
) -> Seq<
    u8,
> {
    Seq::new(
        (height * width) as nat,
        |i: int| color_index(canvas.pixel(x_start + i % width, y_start + i / width).color) as u8,
    )
}

impl GameDisplay {
    /// The display of the rectangle of `canvas` that starts at the cell
    /// `(x_start, y_start)` and is `width` cells wide and `height` cells
    /// high, at the moment of the canvas.
    pub fn of_canvas(canvas: &Canvas, x_start: u16, y_start: u16, width: u16, height: u16) -> (d:
        GameDisplay)
        requires
            canvas.wf(),
            x_start + width <= canvas.dataset@.width,
            y_start + height <= canvas.dataset@.height,
        ensures
            d.timestamp == canvas.timestamp,
            d.top_left == (x_start, y_start),
            d.width == width,
            d.height == height,
            d.data@ == colors_of(
                *canvas,
                x_start as int,
                y_start as int,
                width as int,
                height as int,
            ),
    {
        let ghost all = colors_of(
            *canvas,
            x_start as int,
            y_start as int,
            width as int,
            height as int,
        );
        let mut data: Vec<u8> = Vec::new();
        let mut row: usize = 0;
        proof {
            assert(0 * width == 0) by (nonlinear_arith);
            assert(height * width >= 0) by (nonlinear_arith);
            assert(data@ == all.take(0));
        }
        while row < height as usize
            invariant
                canvas.wf(),
                x_start + width <= canvas.dataset@.width,
                y_start + height <= canvas.dataset@.height,
                row <= height,
                all == colors_of(
                    *canvas,
                    x_start as int,
                    y_start as int,
                    width as int,
                    height as int,
                ),
                all.len() == height * width,
                0 <= row * width <= height * width,
                data@ == all.take(row * width),
            decreases height - row,
        {
            let mut column: usize = 0;
            proof {
                assert((row + 1) * width == row * width + width) by (nonlinear_arith);
                assert((row + 1) * width <= height * width) by (nonlinear_arith)
                    requires
                        row + 1 <= height,
                        width >= 0,
                ;
            }
            while column < width as usize
                invariant
                    canvas.wf(),
                    x_start + width <= canvas.dataset@.width,
                    y_start + height <= canvas.dataset@.height,
                    row < height,
                    column <= width,
                    all == colors_of(
                        *canvas,
                        x_start as int,
                        y_start as int,
                        width as int,
                        height as int,
                    ),
                    all.len() == height * width,
                    0 <= row * width,
                    row * width + width <= height * width,
                    data@ == all.take(row * width + column),
                decreases width - column,
            {
                let pixel = canvas.pixels[y_start as usize + row][x_start as usize + column];
                proof {
                    let k = row * width + column;
                    crate::pixel::lemma_color_index(pixel.color);
                    vstd::arithmetic::div_mod::lemma_fundamental_div_mod_converse(
                        k,
                        width as int,
                        row as int,
                        column as int,
                    );
                    assert(all[k] == color_index(pixel.color) as u8);
                    assert(all.take(k + 1) == all.take(k).push(all[k]));
                }
                data.push(pixel.color.index() as u8);
                column += 1;
            }
            row += 1;
        }
        proof {
            assert(all.take(all.len() as int) == all);
        }
        GameDisplay { timestamp: canvas.timestamp, top_left: (x_start, y_start), width, height, data }
    }
}

} // verus!
