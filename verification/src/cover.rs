//! Why the bands share the image out exactly: every pixel in one band, no
//! pixel in two.

use vstd::prelude::*;
use crate::bands::{band_at, band_count, band_rows_of, bands_of, tiles};

verus! {

/// The bands number just enough to hold every row.
pub proof fn lemma_band_count(height: int, threads: int)
    requires
        0 <= height,
        1 < threads,
    ensures
        0 < band_rows_of(height, threads),
        0 <= band_count(height, threads) <= threads,
        height <= band_count(height, threads) * band_rows_of(height, threads),
        (band_count(height, threads) - 1) * band_rows_of(height, threads) < height || height == 0,
        height == 0 ==> band_count(height, threads) == 0,
{
    let rows = band_rows_of(height, threads);
    let count = band_count(height, threads);
    assert(0 <= height / threads) by (nonlinear_arith)
        requires
            0 <= height,
            1 < threads,
    ;
    vstd::arithmetic::div_mod::lemma_fundamental_div_mod(height, threads);
    vstd::arithmetic::div_mod::lemma_fundamental_div_mod(height + rows - 1, rows);
    let rest = (height + rows - 1) % rows;
    assert(0 <= rest < rows) by (nonlinear_arith)
        requires
            rest == (height + rows - 1) % rows,
            0 < rows,
    ;
    assert(height + rows - 1 == rows * count + rest);
    assert(rows * count == count * rows) by (nonlinear_arith);
    assert((count - 1) * rows == count * rows - rows) by (nonlinear_arith);
    assert(count <= threads) by (nonlinear_arith)
        requires
            count * rows <= height + rows - 1,
            rows == height / threads + 1,
            height == threads * (height / threads) + height % threads,
            0 <= height % threads < threads,
            0 <= height / threads,
            1 < threads,
    ;
    if height == 0 {
        assert(count == 0) by (nonlinear_arith)
            requires
                count * rows <= rows - 1,
                0 <= count * rows,
                0 < rows,
        ;
    }
    assert(0 <= count) by (nonlinear_arith)
        requires
            height <= count * rows,
            0 <= height,
            0 < rows,
    ;
}

/// Where the `i`-th band lies among the rows: it starts inside the image,
/// holds at least one row, ends where the next band starts, and the last
/// band ends with the image.
pub proof fn lemma_band_rows(width: int, height: int, threads: int, i: int)
    requires
        0 <= height,
        1 < threads,
        0 <= i < band_count(height, threads),
    ensures
        ({
            let band = band_at(width, height, threads, i);
            let next = band_at(width, height, threads, i + 1);
            &&& 0 <= band.top < height
            &&& 0 < band.height <= band_rows_of(height, threads)
            &&& band.top + band.height <= height
            &&& band.width == width
            &&& i + 1 < band_count(height, threads) ==> band.top + band.height == next.top
            &&& i + 1 == band_count(height, threads) ==> band.top + band.height == height
        }),
{
    lemma_band_count(height, threads);
    let rows = band_rows_of(height, threads);
    let count = band_count(height, threads);
    assert(0 <= i * rows) by (nonlinear_arith)
        requires
            0 <= i,
            0 < rows,
    ;
    assert(i * rows <= (count - 1) * rows) by (nonlinear_arith)
        requires
            i <= count - 1,
            0 < rows,
    ;
    assert((i + 1) * rows == i * rows + rows) by (nonlinear_arith);
    if i + 1 < count {
        assert((i + 1) * rows <= (count - 1) * rows) by (nonlinear_arith)
            requires
                i + 1 <= count - 1,
                0 < rows,
        ;
    } else {
        assert((i + 1) * rows == count * rows);
    }
}

/// The band that holds the pixel at index `pixel` of the image's buffer.
pub open spec fn band_of_pixel(width: int, height: int, threads: int, pixel: int) -> int {
    (pixel / width) / band_rows_of(height, threads)
}

/// The bands lie end to end in the image's buffer: the first one starts
/// with the buffer, each next one starts where the one before it ends, and
/// the last one ends with the buffer. None of them is empty.
pub proof fn lemma_bands_adjoin(width: int, height: int, threads: int)
    requires
        0 < width,
        0 <= height,
        1 < threads,
    ensures
        tiles(bands_of(width, height, threads), width * height),
{
    lemma_band_count(height, threads);
    let bands = bands_of(width, height, threads);
    let count = band_count(height, threads);
    if count > 0 {
        lemma_band_rows(width, height, threads, 0);
        lemma_band_rows(width, height, threads, count - 1);
        let first = bands[0];
        assert(first.top == 0 && first.top * width == 0) by (nonlinear_arith)
            requires
                first.top == 0 * band_rows_of(height, threads),
        ;
        let last = bands[count - 1];
        assert(last.end() == width * height) by (nonlinear_arith)
            requires
                last.end() == last.top * width + last.height * width,
                last.top + last.height == height,
        ;
    }
    if count == 0 {
        assert(width * height == 0) by (nonlinear_arith)
            requires
                height <= 0 * band_rows_of(height, threads),
                0 <= height,
        ;
    }
    assert forall|i: int| 0 <= i < bands.len() implies (#[trigger] bands[i]).len() > 0 by {
        lemma_band_rows(width, height, threads, i);
        let band = bands[i];
        assert(band.height * width > 0) by (nonlinear_arith)
            requires
                band.height > 0,
                width > 0,
        ;
    }
    assert forall|i: int| 0 <= i < bands.len() - 1 implies (#[trigger] bands[i]).end() == bands[i
        + 1].offset() by {
        lemma_band_rows(width, height, threads, i);
        let band = bands[i];
        let next = bands[i + 1];
        assert(band.top * width + band.height * width == next.top * width) by (nonlinear_arith)
            requires
                band.top + band.height == next.top,
        ;
    }
}

/// Every pixel of the image lies in the band that `band_of_pixel` names,
/// and in that band alone.
pub proof fn lemma_band_of_pixel(width: int, height: int, threads: int, pixel: int)
    requires
        0 < width,
        0 <= height,
        1 < threads,
        0 <= pixel < width * height,
    ensures
        ({
            let bands = bands_of(width, height, threads);
            let own = band_of_pixel(width, height, threads, pixel);
            &&& 0 <= own < bands.len()
            &&& bands[own].contains(pixel)
            &&& forall|i: int|
                0 <= i < bands.len() && (#[trigger] bands[i]).contains(pixel) ==> i == own
        }),
{
    lemma_band_count(height, threads);
    let bands = bands_of(width, height, threads);
    let rows = band_rows_of(height, threads);
    let count = band_count(height, threads);
    let row = pixel / width;
    let own = row / rows;
    vstd::arithmetic::div_mod::lemma_fundamental_div_mod(pixel, width);
    vstd::arithmetic::div_mod::lemma_fundamental_div_mod(row, rows);
    assert(0 <= pixel % width < width) by (nonlinear_arith)
        requires
            0 < width,
    ;
    assert(0 <= row % rows < rows) by (nonlinear_arith)
        requires
            0 < rows,
    ;
    assert(0 <= row < height) by (nonlinear_arith)
        requires
            pixel == width * row + pixel % width,
            0 <= pixel % width < width,
            0 <= pixel < width * height,
            0 < width,
    ;
    assert(0 <= own < count) by (nonlinear_arith)
        requires
            row == rows * own + row % rows,
            0 <= row % rows < rows,
            0 <= row < height,
            height <= count * rows,
            0 < rows,
    ;
    lemma_band_rows(width, height, threads, own);
    let band = bands[own];
    assert(band.top <= row < band.top + band.height) by (nonlinear_arith)
        requires
            band.top == own * rows,
            row == rows * own + row % rows,
            0 <= row % rows < rows,
            row < height,
            band.height == (if height - band.top < rows {
                height - band.top
            } else {
                rows
            }),
    ;
    lemma_rows_hold(width, band.top, band.height, pixel);
    assert forall|i: int| 0 <= i < bands.len() && (#[trigger] bands[i]).contains(pixel) implies i
        == own by {
        lemma_band_rows(width, height, threads, i);
        let other = bands[i];
        lemma_rows_hold(width, other.top, other.height, pixel);
        assert(i == own) by (nonlinear_arith)
            requires
                other.top == i * rows,
                other.top <= row < other.top + other.height,
                other.height <= rows,
                row == rows * own + row % rows,
                0 <= row % rows < rows,
                0 < rows,
        ;
    }
}

/// A run of whole rows holds a pixel exactly when it holds the pixel's row.
proof fn lemma_rows_hold(width: int, top: int, height: int, pixel: int)
    requires
        0 < width,
        0 <= pixel,
    ensures
        top * width <= pixel < top * width + height * width <==> top <= pixel / width < top
            + height,
{
    let row = pixel / width;
    vstd::arithmetic::div_mod::lemma_fundamental_div_mod(pixel, width);
    assert(0 <= pixel % width < width) by (nonlinear_arith)
        requires
            0 < width,
    ;
    assert(top * width <= pixel <==> top <= row) by (nonlinear_arith)
        requires
            pixel == width * row + pixel % width,
            0 <= pixel % width < width,
            0 < width,
    ;
    assert(pixel < top * width + height * width <==> row < top + height) by (nonlinear_arith)
        requires
            pixel == width * row + pixel % width,
            0 <= pixel % width < width,
            0 < width,
    ;
}

/// The bands share the image's buffer out exactly: every pixel of the image
/// lies in some band, no band reaches outside the image, and no pixel lies
/// in two bands.
pub proof fn lemma_bands_cover(width: int, height: int, threads: int)
    requires
        0 < width,
        0 <= height,
        1 < threads,
    ensures
        ({
            let bands = bands_of(width, height, threads);
            &&& forall|pixel: int|
                0 <= pixel < width * height ==> 0 <= #[trigger] band_of_pixel(
                    width,
                    height,
                    threads,
                    pixel,
                ) < bands.len() && bands[band_of_pixel(width, height, threads, pixel)].contains(
                    pixel,
                )
            &&& forall|i: int, pixel: int|
                0 <= i < bands.len() && #[trigger] bands[i].contains(pixel) ==> 0 <= pixel < width
                    * height
            &&& forall|i: int, j: int, pixel: int|
                0 <= i < bands.len() && 0 <= j < bands.len() && #[trigger] bands[i].contains(pixel)
                    && #[trigger] bands[j].contains(pixel) ==> i == j
        }),
{
    let bands = bands_of(width, height, threads);
    assert forall|pixel: int| 0 <= pixel < width * height implies 0 <= #[trigger] band_of_pixel(
        width,
        height,
        threads,
        pixel,
    ) < bands.len() && bands[band_of_pixel(width, height, threads, pixel)].contains(pixel) by {
        lemma_band_of_pixel(width, height, threads, pixel);
    }
    assert forall|i: int, pixel: int|
        0 <= i < bands.len() && #[trigger] bands[i].contains(pixel) implies 0 <= pixel < width
        * height by {
        lemma_band_rows(width, height, threads, i);
        let band = bands[i];
        assert(0 <= band.top * width && band.top * width + band.height * width <= width * height)
            by (nonlinear_arith)
            requires
                0 <= band.top,
                band.top + band.height <= height,
                0 < width,
        ;
    }
    assert forall|i: int, j: int, pixel: int|
        0 <= i < bands.len() && 0 <= j < bands.len() && #[trigger] bands[i].contains(pixel)
            && #[trigger] bands[j].contains(pixel) implies i == j by {
        lemma_band_rows(width, height, threads, i);
        let band = bands[i];
        assert(0 <= pixel < width * height) by (nonlinear_arith)
            requires
                band.contains(pixel),
                band.offset() == band.top * width,
                band.end() == band.top * width + band.height * width,
                0 <= band.top,
                band.top + band.height <= height,
                0 < width,
        ;
        lemma_band_of_pixel(width, height, threads, pixel);
    }
}

} // verus!
