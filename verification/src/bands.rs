//! Cutting the image into horizontal bands that can be rendered
//! independently of each other.

use vstd::prelude::*;
use crate::cover::{lemma_band_count, lemma_bands_adjoin};

verus! {

/// What a band is, in numbers: a run of `height` whole rows of an image
/// `width` pixels wide, the first of them row `top` of the image.
pub struct BandView {
    pub width: int,
    pub top: int,
    pub height: int,
}

impl BandView {
    /// Index of the band's first pixel in the image's buffer.
    pub open spec fn offset(self) -> int {
        self.top * self.width
    }

    /// Number of pixels in the band.
    pub open spec fn len(self) -> int {
        self.height * self.width
    }

    /// Index one past the band's last pixel in the image's buffer.
    pub open spec fn end(self) -> int {
        self.offset() + self.len()
    }

    /// The band holds the pixel at index `pixel` of the image's buffer.
    pub open spec fn contains(self, pixel: int) -> bool {
        self.offset() <= pixel < self.end()
    }
}

/// Rows per band when an image of `height` rows is shared out among
/// `threads` workers: one more than the rounded-down quotient, so that
/// `threads` bands always reach the last row.
pub open spec fn band_rows_of(height: int, threads: int) -> int {
    height / threads + 1
}

/// Number of bands: as many runs of `band_rows_of` rows as it takes to hold
/// `height` rows.
pub open spec fn band_count(height: int, threads: int) -> int {
    let rows = band_rows_of(height, threads);
    (height + rows - 1) / rows
}

/// The `i`-th band from the top: full bands one below the other, the last
/// one cut off at the image's bottom row.
pub open spec fn band_at(width: int, height: int, threads: int, i: int) -> BandView {
    let rows = band_rows_of(height, threads);
    let top = i * rows;
    BandView { width, top, height: if height - top < rows { height - top } else { rows } }
}

/// All bands of the image, from the top down.
pub open spec fn bands_of(width: int, height: int, threads: int) -> Seq<BandView> {
    Seq::new(band_count(height, threads) as nat, |i: int| band_at(width, height, threads, i))
}

/// `bands` lie end to end in a buffer of `size` pixels: the first one starts
/// with the buffer, each next one starts where the one before it ends, the
/// last one ends with the buffer, and none of them is empty. So every pixel
/// of the buffer is in one band, and in one only.
pub open spec fn tiles(bands: Seq<BandView>, size: int) -> bool {
    &&& if bands.len() == 0 {
        size == 0
    } else {
        bands[0].offset() == 0 && bands[bands.len() - 1].end() == size
    }
    &&& forall|i: int| 0 <= i < bands.len() ==> (#[trigger] bands[i]).len() > 0
    &&& forall|i: int|
        0 <= i < bands.len() - 1 ==> (#[trigger] bands[i]).end() == bands[i + 1].offset()
}

/// A horizontal strip of the image: whole rows, one below the other.
#[derive(Debug, Clone, Copy, PartialEq, Eq)]
pub struct Band {
    width: usize,
    top: usize,
    height: usize,
}

impl View for Band {
    type V = BandView;

    closed spec fn view(&self) -> BandView {
        BandView { width: self.width as int, top: self.top as int, height: self.height as int }
    }
}

impl Band {
    /// The row below the band's last one, and the pixel that would open
    /// it, can both be addressed.
    #[verifier::type_invariant]
    closed spec fn addressable(self) -> bool {
        &&& self.top + self.height <= usize::MAX
        &&& (self.top + self.height) * self.width <= usize::MAX
    }

    /// Row of the image that is the band's first row.
    pub fn top(&self) -> (top: usize)
        ensures
            top == self@.top,
    {
        self.top
    }

    /// Number of rows in the band.
    pub fn height(&self) -> (height: usize)
        ensures
            height == self@.height,
    {
        self.height
    }

    /// Width and height of the band, in pixels.
    pub fn bounds(&self) -> (bounds: (usize, usize))
        ensures
            bounds.0 == self@.width,
            bounds.1 == self@.height,
    {
        (self.width, self.height)
    }

    /// Pixel of the image at the band's upper left corner: column 0 of the
    /// band's first row.
    pub fn upper_left(&self) -> (pixel: (usize, usize))
        ensures
            pixel.0 == 0,
            pixel.1 == self@.top,
    {
        (0, self.top)
    }

    /// Pixel of the image at the band's lower right corner: one column past
    /// the last, in the row below the band's last row.
    pub fn lower_right(&self) -> (pixel: (usize, usize))
        ensures
            pixel.0 == self@.width,
            pixel.1 == self@.top + self@.height,
    {
        proof {
            use_type_invariant(self);
        }
        (self.width, self.top + self.height)
    }

    /// Index of the band's first pixel in the image's buffer.
    pub fn offset(&self) -> (offset: usize)
        ensures
            offset == self@.offset(),
    {
        proof {
            use_type_invariant(self);
            lemma_extent(self.width as int, self.top as int, self.height as int);
        }
        self.top * self.width
    }

    /// Number of pixels in the band.
    pub fn len(&self) -> (len: usize)
        ensures
            len == self@.len(),
    {
        proof {
            use_type_invariant(self);
            lemma_extent(self.width as int, self.top as int, self.height as int);
        }
        self.height * self.width
    }
}

/// Where the rows down to a band's bottom can be addressed, so can the
/// band's own pixels.
proof fn lemma_extent(width: int, top: int, height: int)
    requires
        0 <= width,
        0 <= top,
        0 <= height,
    ensures
        0 <= top * width <= (top + height) * width,
        0 <= height * width <= (top + height) * width,
        top * width + height * width == (top + height) * width,
{
    assert(0 <= top * width <= (top + height) * width) by (nonlinear_arith)
        requires
            0 <= width,
            0 <= top,
            0 <= height,
    ;
    assert(0 <= height * width <= (top + height) * width) by (nonlinear_arith)
        requires
            0 <= width,
            0 <= top,
            0 <= height,
    ;
    assert(top * width + height * width == (top + height) * width) by (nonlinear_arith);
}

/// Rows per band for an image of `height` rows and `threads` workers.
pub fn band_rows(height: usize, threads: usize) -> (rows: usize)
    requires
        threads > 1,
    ensures
        rows == band_rows_of(height as int, threads as int),
{
    proof {
        if height > 0 {
            vstd::arithmetic::div_mod::lemma_div_decreases(height as int, threads as int);
        }
    }
    height / threads + 1
}

/// What each of `bands` is, in numbers.
pub open spec fn band_views(bands: Seq<Band>) -> Seq<BandView> {
    bands.map_values(|band: Band| band@)
}

/// Cuts an image of `bounds.0` columns and `bounds.1` rows into the bands
/// that `threads` workers render.
pub fn partition(bounds: (usize, usize), threads: usize) -> (bands: Vec<Band>)
    requires
        threads > 1,
        bounds.0 > 0,
        bounds.0 * bounds.1 <= usize::MAX,
    ensures
        band_views(bands@) == bands_of(bounds.0 as int, bounds.1 as int, threads as int),
        tiles(band_views(bands@), bounds.0 * bounds.1),
{
    let (width, height) = bounds;
    let rows = band_rows(height, threads);
    let mut bands: Vec<Band> = Vec::new();
    let mut top: usize = 0;
    proof {
        lemma_band_count(height as int, threads as int);
    }
    while top < height
        invariant
            bounds == (width, height),
            threads > 1,
            width > 0,
            width * height <= usize::MAX,
            rows == band_rows_of(height as int, threads as int),
            bands@.len() <= band_count(height as int, threads as int),
            top <= height,
            top == bands@.len() * rows || (top == height && height <= bands@.len() * rows),
            forall|i: int|
                0 <= i < bands@.len() ==> (#[trigger] bands@[i])@ == band_at(
                    width as int,
                    height as int,
                    threads as int,
                    i,
                ),
        decreases height - top,
    {
        let ghost i = bands@.len() as int;
        let remaining = height - top;
        let band_height = if remaining < rows {
            remaining
        } else {
            rows
        };
        proof {
            lemma_band_count(height as int, threads as int);
            let count = band_count(height as int, threads as int);
            assert(i < count) by (nonlinear_arith)
                requires
                    i * rows < height,
                    height <= count * rows,
                    0 < rows,
            ;
            assert((top + band_height) * width <= width * height) by (nonlinear_arith)
                requires
                    top + band_height <= height,
                    0 < width,
            ;
            assert((i + 1) * rows == i * rows + rows) by (nonlinear_arith);
        }
        bands.push(Band { width, top, height: band_height });
        top = top + band_height;
    }
    proof {
        lemma_band_count(height as int, threads as int);
        let count = band_count(height as int, threads as int);
        let n = bands@.len() as int;
        assert(count <= n) by (nonlinear_arith)
            requires
                height <= n * rows,
                (count - 1) * rows < height || height == 0,
                height == 0 ==> count == 0,
                0 < rows,
                0 <= n,
        ;
        assert(band_views(bands@) =~= bands_of(width as int, height as int, threads as int));
        lemma_bands_adjoin(width as int, height as int, threads as int);
    }
    bands
}

/// How an image is to be rendered.
#[derive(Debug, PartialEq, Eq)]
pub enum Plan {
    /// In one piece, by the caller itself.
    Sequential,
    /// Band by band, each band by a worker of its own.
    Parallel(Vec<Band>),
}

/// Decides how `threads` workers render an image of the given bounds: more
/// than one worker share the image band by band; a single one, or none,
/// leaves it in one piece.
pub fn plan(bounds: (usize, usize), threads: usize) -> (plan: Plan)
    requires
        threads > 1 ==> bounds.0 > 0 && bounds.0 * bounds.1 <= usize::MAX,
    ensures
        match plan {
            Plan::Sequential => threads <= 1,
            Plan::Parallel(bands) => {
                &&& threads > 1
                &&& band_views(bands@) == bands_of(
                    bounds.0 as int,
                    bounds.1 as int,
                    threads as int,
                )
                &&& tiles(band_views(bands@), bounds.0 * bounds.1)
            },
        },
{
    if threads > 1 {
        Plan::Parallel(partition(bounds, threads))
    } else {
        Plan::Sequential
    }
}

} // verus!
