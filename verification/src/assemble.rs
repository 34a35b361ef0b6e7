//! Why an image rendered band by band is the image rendered in one piece.

use vstd::prelude::*;
use crate::bands::{band_at, band_count, bands_of};
use crate::cover::{band_of_pixel, lemma_band_of_pixel, lemma_band_rows};
use crate::render::{answers, lemma_pixel_index, pixel_index, rendered, shaded_by};
use crate::shade::intensity_of;

verus! {

/// `escape`, asked for a pixel of a band of the given bounds that starts at
/// row `top` of the image, answers nothing but what `time_of` gives for
/// that pixel of the image: the same column, `top` rows further down.
pub open spec fn follows<F: Fn(usize, usize, u32) -> Option<u32>>(
    escape: F,
    time_of: spec_fn(int, int) -> Option<u32>,
    top: int,
    bounds: (usize, usize),
) -> bool {
    forall|column: usize, row: usize, time: Option<u32>|
        column < bounds.0 && row < bounds.1 && #[trigger] answers(escape, column, row, time)
            ==> time == time_of(column as int, top + row)
}

/// The image of the given bounds whose pixels have the escape times that
/// `time_of` gives, by column and row: one grey level per pixel, row after
/// row.
pub open spec fn picture(bounds: (usize, usize), time_of: spec_fn(int, int) -> Option<u32>) -> Seq<
    u8,
> {
    Seq::new(
        (bounds.0 * bounds.1) as nat,
        |i: int| intensity_of(time_of(i % (bounds.0 as int), i / (bounds.0 as int))),
    )
}

/// `pixels` holds an image whose bands were rendered one by one, the `i`-th
/// band by `parts[i]`.
pub open spec fn rendered_in_bands<G: Fn(usize, usize, u32) -> Option<u32>>(
    pixels: Seq<u8>,
    bounds: (usize, usize),
    threads: usize,
    parts: Seq<G>,
) -> bool {
    &&& pixels.len() == bounds.0 * bounds.1
    &&& parts.len() == band_count(bounds.1 as int, threads as int)
    &&& forall|i: int|
        0 <= i < parts.len() ==> {
            let band = band_at(bounds.0 as int, bounds.1 as int, threads as int, i);
            rendered(
                pixels.subrange(band.offset(), band.end()),
                (bounds.0, band.height as usize),
                #[trigger] parts[i],
            )
        }
}

/// Every band's evaluator follows `time_of` from the band's own first row.
pub open spec fn parts_follow<G: Fn(usize, usize, u32) -> Option<u32>>(
    parts: Seq<G>,
    bounds: (usize, usize),
    threads: usize,
    time_of: spec_fn(int, int) -> Option<u32>,
) -> bool {
    forall|i: int|
        0 <= i < parts.len() ==> {
            let band = band_at(bounds.0 as int, bounds.1 as int, threads as int, i);
            follows(#[trigger] parts[i], time_of, band.top, (bounds.0, band.height as usize))
        }
}

/// The index of a pixel gives its column and row back.
proof fn lemma_pixel_of_index(width: int, height: int, i: int)
    requires
        0 <= i < width * height,
        0 <= width,
        0 <= height,
    ensures
        0 <= i % width < width,
        0 <= i / width < height,
        pixel_index(width, i % width, i / width) == i,
{
    if width == 0 {
        assert(width * height == 0) by (nonlinear_arith)
            requires
                width == 0,
        ;
    }
    let column = i % width;
    let row = i / width;
    vstd::arithmetic::div_mod::lemma_fundamental_div_mod(i, width);
    assert(0 <= column < width) by (nonlinear_arith)
        requires
            column == i % width,
            0 < width,
    ;
    assert(0 <= row < height) by (nonlinear_arith)
        requires
            i == width * row + column,
            0 <= column < width,
            0 <= i < width * height,
    ;
    assert(row * width + column == i) by (nonlinear_arith)
        requires
            i == width * row + column,
    ;
}

/// A rendering by an evaluator that follows `time_of` is the picture of
/// `time_of`, pixel for pixel.
pub proof fn lemma_rendered_is_picture<F: Fn(usize, usize, u32) -> Option<u32>>(
    pixels: Seq<u8>,
    bounds: (usize, usize),
    escape: F,
    time_of: spec_fn(int, int) -> Option<u32>,
)
    requires
        rendered(pixels, bounds, escape),
        follows(escape, time_of, 0, bounds),
    ensures
        pixels == picture(bounds, time_of),
{
    let width = bounds.0 as int;
    let height = bounds.1 as int;
    let whole = picture(bounds, time_of);
    assert forall|i: int| 0 <= i < pixels.len() implies pixels[i] == whole[i] by {
        lemma_pixel_of_index(width, height, i);
        let column = i % width;
        let row = i / width;
        assert(shaded_by(escape, column, row, pixels[pixel_index(width, column, row)]));
    }
    assert(pixels =~= whole);
}

/// An image put together from bands that were rendered one by one, each by
/// an evaluator that follows `time_of` from the band's own first row, is
/// the picture of `time_of`, pixel for pixel.
pub proof fn lemma_bands_are_picture<G: Fn(usize, usize, u32) -> Option<u32>>(
    pixels: Seq<u8>,
    bounds: (usize, usize),
    threads: usize,
    parts: Seq<G>,
    time_of: spec_fn(int, int) -> Option<u32>,
)
    requires
        bounds.0 > 0,
        threads > 1,
        rendered_in_bands(pixels, bounds, threads, parts),
        parts_follow(parts, bounds, threads, time_of),
    ensures
        pixels == picture(bounds, time_of),
{
    let width = bounds.0 as int;
    let height = bounds.1 as int;
    let whole = picture(bounds, time_of);
    let bands = bands_of(width, height, threads as int);
    assert forall|pixel: int| 0 <= pixel < pixels.len() implies pixels[pixel] == whole[pixel] by {
        lemma_pixel_of_index(width, height, pixel);
        let column = pixel % width;
        let row = pixel / width;
        lemma_band_of_pixel(width, height, threads as int, pixel);
        let own = band_of_pixel(width, height, threads as int, pixel);
        let band = band_at(width, height, threads as int, own);
        assert(bands[own] == band);
        lemma_band_rows(width, height, threads as int, own);
        let part = parts[own];
        let chunk = pixels.subrange(band.offset(), band.end());
        let local = row - band.top;
        assert(0 <= local < band.height) by (nonlinear_arith)
            requires
                band.contains(pixel),
                band.offset() == band.top * width,
                band.end() == band.top * width + band.height * width,
                pixel == row * width + column,
                0 <= column < width,
                local == row - band.top,
        ;
        assert(pixel_index(width, column, local) + band.offset() == pixel) by (nonlinear_arith)
            requires
                pixel_index(width, column, local) == local * width + column,
                band.offset() == band.top * width,
                pixel == row * width + column,
                local == row - band.top,
        ;
        lemma_pixel_index(width, band.height, column, local);
        assert(0 <= band.offset() <= band.end() <= width * height && band.len() == width
            * band.height) by (nonlinear_arith)
            requires
                band.offset() == band.top * width,
                band.len() == band.height * width,
                band.end() == band.offset() + band.len(),
                0 <= band.top,
                0 < band.height,
                band.top + band.height <= height,
                0 < width,
        ;
        assert(rendered(chunk, (bounds.0, band.height as usize), part));
        assert(chunk[pixel_index(width, column, local)] == pixels[pixel]);
        assert(shaded_by(part, column, local, chunk[pixel_index(width, column, local)]));
        assert(follows(part, time_of, band.top, (bounds.0, band.height as usize)));
    }
    assert(pixels =~= whole);
}

/// Rendering band by band gives the very buffer that rendering in one piece
/// gives: where the evaluator of the whole image and the evaluators of the
/// bands all follow one assignment of escape times to the pixels of the
/// image, the two buffers are equal pixel for pixel.
pub proof fn lemma_parallel_is_sequential<
    F: Fn(usize, usize, u32) -> Option<u32>,
    G: Fn(usize, usize, u32) -> Option<u32>,
>(
    sequential: Seq<u8>,
    parallel: Seq<u8>,
    bounds: (usize, usize),
    threads: usize,
    whole: F,
    parts: Seq<G>,
    time_of: spec_fn(int, int) -> Option<u32>,
)
    requires
        bounds.0 > 0,
        threads > 1,
        rendered(sequential, bounds, whole),
        follows(whole, time_of, 0, bounds),
        rendered_in_bands(parallel, bounds, threads, parts),
        parts_follow(parts, bounds, threads, time_of),
    ensures
        parallel == sequential,
{
    lemma_rendered_is_picture(sequential, bounds, whole, time_of);
    lemma_bands_are_picture(parallel, bounds, threads, parts, time_of);
}

} // verus!
