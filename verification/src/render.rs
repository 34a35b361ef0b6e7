//! Filling a band of the image, pixel by pixel.

use vstd::prelude::*;
use crate::shade::{intensity, intensity_of};

verus! {

/// The iteration budget that every pixel is evaluated with.
pub const ESCAPE_LIMIT: u32 = 255;

/// Where pixel (`column`, `row`) lies in a row-major buffer of rows `width`
/// pixels wide.
pub open spec fn pixel_index(width: int, column: int, row: int) -> int {
    row * width + column
}

/// `escape` may answer `time` when it is asked for the escape time of pixel
/// (`column`, `row`) under the budget `ESCAPE_LIMIT`.
pub open spec fn answers<F: Fn(usize, usize, u32) -> Option<u32>>(
    escape: F,
    column: usize,
    row: usize,
    time: Option<u32>,
) -> bool {
    call_ensures(escape, (column, row, ESCAPE_LIMIT), time)
}

/// `level` is a grey level that `escape` may give pixel (`column`, `row`):
/// the intensity of an escape time that it answers for that pixel.
pub open spec fn shaded_by<F: Fn(usize, usize, u32) -> Option<u32>>(
    escape: F,
    column: int,
    row: int,
    level: u8,
) -> bool {
    exists|time: Option<u32>|
        answers(escape, column as usize, row as usize, time) && level == #[trigger] intensity_of(
            time,
        )
}

/// `pixels` is a rendering of a band of `bounds.0` columns and `bounds.1`
/// rows: it holds one grey level per pixel, row after row, each one given by
/// `escape` for that pixel's column and row within the band.
pub open spec fn rendered<F: Fn(usize, usize, u32) -> Option<u32>>(
    pixels: Seq<u8>,
    bounds: (usize, usize),
    escape: F,
) -> bool {
    &&& pixels.len() == bounds.0 * bounds.1
    &&& forall|column: int, row: int|
        0 <= column < bounds.0 && 0 <= row < bounds.1 ==> shaded_by(
            escape,
            column,
            row,
            pixels[#[trigger] pixel_index(bounds.0 as int, column, row)],
        )
}

/// A pixel of the band lies inside the buffer, and no two pixels share a
/// place in it.
pub proof fn lemma_pixel_index(width: int, height: int, column: int, row: int)
    requires
        0 <= column < width,
        0 <= row < height,
    ensures
        0 <= pixel_index(width, column, row) < width * height,
        pixel_index(width, column, row) / width == row,
        pixel_index(width, column, row) % width == column,
{
    assert(row * width + column < width * height) by (nonlinear_arith)
        requires
            0 <= column < width,
            0 <= row < height,
    ;
    assert(0 <= row * width) by (nonlinear_arith)
        requires
            0 <= row,
            0 < width,
    ;
    vstd::arithmetic::div_mod::lemma_fundamental_div_mod_converse(
        row * width + column,
        width,
        row,
        column,
    );
}

/// Renders one band: fills `pixels` with the grey level of every pixel of
/// the band, asking `escape` for the escape time of the pixel at each column
/// and row.
pub fn render<F>(pixels: &mut [u8], bounds: (usize, usize), escape: F) where
    F: Fn(usize, usize, u32) -> Option<u32>,

    requires
        old(pixels)@.len() == bounds.0 * bounds.1,
        forall|column: usize, row: usize|
            column < bounds.0 && row < bounds.1 ==> call_requires(
                escape,
                (column, row, ESCAPE_LIMIT),
            ),
    ensures
        rendered(final(pixels)@, bounds, escape),
{
    let (width, height) = bounds;
    let mut row: usize = 0;
    while row < height
        invariant
            bounds == (width, height),
            pixels.len() == width * height,
            row <= height,
            forall|c: usize, r: usize|
                c < width && r < height ==> call_requires(escape, (c, r, ESCAPE_LIMIT)),
            forall|c: int, r: int|
                0 <= c < width && 0 <= r < row ==> shaded_by(
                    escape,
                    c,
                    r,
                    pixels@[#[trigger] pixel_index(width as int, c, r)],
                ),
        decreases height - row,
    {
        let mut column: usize = 0;
        while column < width
            invariant
                bounds == (width, height),
                pixels.len() == width * height,
                row < height,
                column <= width,
                forall|c: usize, r: usize|
                    c < width && r < height ==> call_requires(escape, (c, r, ESCAPE_LIMIT)),
                forall|c: int, r: int|
                    0 <= c < width && 0 <= r < row ==> shaded_by(
                        escape,
                        c,
                        r,
                        pixels@[#[trigger] pixel_index(width as int, c, r)],
                    ),
                forall|c: int|
                    0 <= c < column ==> shaded_by(
                        escape,
                        c,
                        row as int,
                        pixels@[#[trigger] pixel_index(width as int, c, row as int)],
                    ),
            decreases width - column,
        {
            proof {
                lemma_pixel_index(width as int, height as int, column as int, row as int);
                assert(0 <= row * width) by (nonlinear_arith);
            }
            let time = escape(column, row, ESCAPE_LIMIT);
            let ghost before = pixels@;
            pixels[row * width + column] = intensity(time);
            proof {
                let here = pixel_index(width as int, column as int, row as int);
                assert(pixels@ == before.update(here, intensity_of(time)));
                assert forall|c: int, r: int| 0 <= c < width && 0 <= r < row implies shaded_by(
                    escape,
                    c,
                    r,
                    pixels@[#[trigger] pixel_index(width as int, c, r)],
                ) by {
                    lemma_pixel_index(width as int, height as int, c, r);
                }
                assert forall|c: int| 0 <= c < column + 1 implies shaded_by(
                    escape,
                    c,
                    row as int,
                    pixels@[#[trigger] pixel_index(width as int, c, row as int)],
                ) by {
                    lemma_pixel_index(width as int, height as int, c, row as int);
                }
            }
            column += 1;
        }
        row += 1;
    }
}

} // verus!
