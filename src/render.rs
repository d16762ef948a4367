//! Filling a grayscale pixel buffer from per-pixel escape counts.

use vstd::prelude::*;

use crate::band::{band_holds, is_band_plan, lemma_plan_tiles_rows, some_band_holds, Band};

verus! {

/// The most iterations spent on one point; it matches the range of a byte, so
/// that every count has its own shade.
pub const ESCAPE_LIMIT: usize = 255;

/// The shade of a pixel whose point escaped after `count` iterations, or that
/// did not escape (`None`, drawn black). A point that escapes sooner is
/// drawn brighter.
pub open spec fn shade_of(count: Option<usize>) -> u8 {
    match count {
        None => 0,
        Some(c) => (255 - c) as u8,
    }
}

/// Whether `count` is a possible result of an escape-time evaluation.
pub open spec fn is_escape_count(count: Option<usize>) -> bool {
    count matches Some(c) ==> c < ESCAPE_LIMIT
}

/// The position of pixel (`column`, `row`) in a row-major buffer of rows of
/// `width` pixels.
pub open spec fn pixel_index(width: int, column: int, row: int) -> int {
    row * width + column
}

/// Whether the pixel (`column`, `row`) of `pixels` holds the shade of some count
/// that `escape_at` may give for it.
pub open spec fn shaded_from<F: Fn(usize, usize) -> Option<usize>>(
    escape_at: F,
    pixels: Seq<u8>,
    width: usize,
    column: usize,
    row: usize,
) -> bool {
    exists|count: Option<usize>|
        #[trigger] escape_at.ensures((column, row), count) && pixels[pixel_index(
            width as int,
            column as int,
            row as int,
        )] == shade_of(count)
}

/// The shade of a pixel whose point escaped after `count` iterations.
pub fn shade(count: Option<usize>) -> (r: u8)
    requires
        is_escape_count(count),
    ensures
        r == shade_of(count),
{
    match count {
        None => 0,
        Some(c) => (255 - c) as u8,
    }
}

proof fn lemma_pixel_index(width: int, height: int, column: int, row: int)
    requires
        0 <= column < width,
        0 <= row < height,
    ensures
        0 <= pixel_index(width, column, row) < width * height,
        forall|c: int, r: int|
            0 <= c < width && 0 <= r && #[trigger] pixel_index(width, c, r) == pixel_index(
                width,
                column,
                row,
            ) ==> c == column && r == row,
{
    assert(0 <= row * width + column < width * height) by (nonlinear_arith)
        requires
            0 <= column < width,
            0 <= row < height,
    ;
    assert forall|c: int, r: int|
        0 <= c < width && 0 <= r && #[trigger] pixel_index(width, c, r) == pixel_index(
            width,
            column,
            row,
        ) implies c == column && r == row by {
        assert(r * width + c == row * width + column ==> r == row) by (nonlinear_arith)
            requires
                0 <= c < width,
                0 <= column < width,
                0 <= r,
                0 <= row,
        ;
    }
}

/// Fills `pixels`, an image of `bounds.0` by `bounds.1` pixels in row-major
/// order, with the shade of each pixel's escape count, which `escape_at` gives
/// from the pixel's column and row.
pub fn render<F: Fn(usize, usize) -> Option<usize>>(
    pixels: &mut [u8],
    bounds: (usize, usize),
    escape_at: F,
)
    requires
        old(pixels)@.len() == bounds.0 * bounds.1,
        forall|column: usize, row: usize|
            column < bounds.0 && row < bounds.1 ==> #[trigger] escape_at.requires((column, row)),
        forall|column: usize, row: usize, count: Option<usize>|
            #[trigger] escape_at.ensures((column, row), count) ==> is_escape_count(count),
    ensures
        final(pixels)@.len() == old(pixels)@.len(),
        forall|column: usize, row: usize|
            column < bounds.0 && row < bounds.1 ==> #[trigger] shaded_from(
                escape_at,
                final(pixels)@,
                bounds.0,
                column,
                row,
            ),
{
    let (width, height) = bounds;
    let ghost len = pixels@.len();
    proof {
        assert(pixels@.len() == pixels.len());
    }
    let mut row: usize = 0;
    while row < height
        invariant
            pixels@.len() == len,
            len == width * height,
            len <= usize::MAX,
            row <= height,
            forall|column: usize, row: usize|
                column < width && row < height ==> #[trigger] escape_at.requires((column, row)),
            forall|column: usize, row: usize, count: Option<usize>|
                #[trigger] escape_at.ensures((column, row), count) ==> is_escape_count(count),
            forall|c: usize, r: usize|
                c < width && r < row ==> #[trigger] shaded_from(escape_at, pixels@, width, c, r),
        decreases height - row,
    {
        let mut column: usize = 0;
        while column < width
            invariant
                pixels@.len() == len,
                len == width * height,
                len <= usize::MAX,
                row < height,
                column <= width,
                forall|column: usize, row: usize|
                    column < width && row < height ==> #[trigger] escape_at.requires((column, row)),
                forall|column: usize, row: usize, count: Option<usize>|
                    #[trigger] escape_at.ensures((column, row), count) ==> is_escape_count(count),
                forall|c: usize, r: usize|
                    (c < width && r < row) || (c < column && r == row) ==> #[trigger] shaded_from(
                        escape_at,
                        pixels@,
                        width,
                        c,
                        r,
                    ),
            decreases width - column,
        {
            proof {
                lemma_pixel_index(width as int, height as int, column as int, row as int);
            }
            let count = escape_at(column, row);
            let i = row * width + column;
            let ghost before = pixels@;
            pixels[i] = shade(count);
            proof {
                assert forall|c: usize, r: usize|
                    (c < width && r < row) || (c < column + 1 && r == row) implies #[trigger] shaded_from(
                    escape_at,
                    pixels@,
                    width,
                    c,
                    r,
                ) by {
                    if c == column && r == row {
                        assert(escape_at.ensures((c, r), count));
                    } else {
                        assert(shaded_from(escape_at, before, width, c, r));
                        lemma_pixel_index(width as int, height as int, c as int, r as int);
                        let k = pixel_index(width as int, c as int, r as int);
                        assert(k != i);
                        assert(pixels@[k] == before[k]);
                    }
                }
            }
            column = column + 1;
        }
        row = row + 1;
    }
}

/// Rendering an image band by band gives the image rendered whole: where
/// `buffer` is cut into the spans of the bands of a plan, and each span holds
/// its band as an image of its own whose row `r` shows the image's row
/// `top + r`, every pixel of `buffer` holds the shade of its own point. So the
/// pixels do not depend on how many bands the rows were cut into.
pub proof fn lemma_banded_render_is_whole(
    bands: Seq<Band>,
    height: int,
    rows: int,
    width: int,
    buffer: Seq<u8>,
    parts: Seq<Seq<u8>>,
    count: spec_fn(int, int) -> Option<usize>,
)
    requires
        rows > 0,
        width > 0,
        height >= 0,
        is_band_plan(bands, height, rows),
        buffer.len() == width * height,
        parts.len() == bands.len(),
        forall|i: int|
            0 <= i < bands.len() ==> #[trigger] parts[i] == buffer.subrange(
                bands[i].top * width,
                (bands[i].top + bands[i].height) * width,
            ),
        forall|i: int, c: int, r: int|
            0 <= i < bands.len() && 0 <= c < width && 0 <= r < bands[i].height ==> #[trigger] parts[i][pixel_index(
                width,
                c,
                r,
            )] == shade_of(count(c, bands[i].top + r)),
    ensures
        forall|c: int, row: int|
            0 <= c < width && 0 <= row < height ==> #[trigger] buffer[pixel_index(width, c, row)]
                == shade_of(count(c, row)),
{
    lemma_plan_tiles_rows(bands, height, rows);
    assert forall|c: int, row: int| 0 <= c < width && 0 <= row < height implies #[trigger] buffer[pixel_index(
        width,
        c,
        row,
    )] == shade_of(count(c, row)) by {
        assert(some_band_holds(bands, row));
        let i = choose|i: int| 0 <= i < bands.len() && #[trigger] band_holds(bands[i], row);
        let top = bands[i].top as int;
        let h = bands[i].height as int;
        let r = row - top;
        lemma_pixel_index(width, h, c, r);
        assert(top + h <= height);
        assert(top * width + pixel_index(width, c, r) == pixel_index(width, c, row)) by (nonlinear_arith)
            requires
                r == row - top,
        ;
        assert(0 <= top * width && top * width <= (top + h) * width && (top + h) * width <= width
            * height) by (nonlinear_arith)
            requires
                0 <= top,
                0 <= h,
                top + h <= height,
                width > 0,
        ;
        assert((top + h) * width - top * width == width * h) by (nonlinear_arith);
        assert(parts[i][pixel_index(width, c, r)] == buffer[top * width + pixel_index(width, c, r)]);
    }
}

} // verus!
