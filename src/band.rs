//! Cutting an image into horizontal bands of rows, one for each worker.

use vstd::prelude::*;

verus! {

/// A run of consecutive rows `[top, top + height)` of an image.
#[derive(Clone, Copy, Debug, PartialEq, Eq, Structural)]
pub struct Band {
    pub top: usize,
    pub height: usize,
}

impl Band {
    /// The pixels of an image `width` pixels wide whose plane points bound this
    /// band: its upper-left corner (0, `top`) and its lower-right corner
    /// (`width`, `top + height`), which is the upper-left corner of the next band.
    pub fn corner_pixels(&self, width: usize) -> (r: ((usize, usize), (usize, usize)))
        requires
            self.top + self.height <= usize::MAX,
        ensures
            r == ((0usize, self.top), (width, (self.top + self.height) as usize)),
    {
        ((0, self.top), (width, self.top + self.height))
    }

    /// The positions `[start, end)` that this band takes in a row-major buffer
    /// of rows of `width` pixels.
    pub fn pixel_span(&self, width: usize) -> (r: (usize, usize))
        requires
            self.top + self.height <= usize::MAX,
            (self.top + self.height) * width <= usize::MAX,
        ensures
            r.0 == self.top * width,
            r.1 == (self.top + self.height) * width,
            r.0 <= r.1,
    {
        proof {
            assert(self.top * width <= (self.top + self.height) * width) by (nonlinear_arith);
        }
        (self.top * width, (self.top + self.height) * width)
    }
}

pub open spec fn min_int(a: int, b: int) -> int {
    if a <= b {
        a
    } else {
        b
    }
}

/// Whether some band of `bands` holds `row`.
pub open spec fn some_band_holds(bands: Seq<Band>, row: int) -> bool {
    exists|i: int| 0 <= i < bands.len() && #[trigger] band_holds(bands[i], row)
}

/// The rows of each band when `height` rows go to `workers` workers: one more
/// than the quotient, so that the bands never fall short of the image.
pub open spec fn band_rows_of(height: int, workers: int) -> int {
    height / workers + 1
}

/// `bands` are the chunks of `rows` rows each, from the top, of an image of
/// `height` rows; the last one holds what is left and may be shorter.
pub open spec fn is_band_plan(bands: Seq<Band>, height: int, rows: int) -> bool {
    &&& bands.len() * rows >= height
    &&& bands.len() == 0 || (bands.len() - 1) * rows < height
    &&& forall|i: int|
        0 <= i < bands.len() ==> #[trigger] bands[i].top == i * rows && bands[i].height
            == min_int(rows, height - i * rows)
}

/// Whether `row` lies in `band`.
pub open spec fn band_holds(band: Band, row: int) -> bool {
    band.top <= row < band.top + band.height
}

/// The rows of each band when `height` rows go to `workers` workers.
pub fn band_rows(height: usize, workers: usize) -> (r: usize)
    requires
        workers > 0,
        height < usize::MAX,
    ensures
        r == band_rows_of(height as int, workers as int),
        r > 0,
{
    height / workers + 1
}

/// The bands of an image of `width` by `height` pixels shared among `workers`
/// workers, from the top down.
pub fn plan_bands(width: usize, height: usize, workers: usize) -> (r: Vec<Band>)
    requires
        workers > 0,
        width > 0,
        width * height <= isize::MAX,
    ensures
        is_band_plan(r@, height as int, band_rows_of(height as int, workers as int)),
{
    proof {
        assert(height <= width * height) by (nonlinear_arith)
            requires
                width > 0,
        ;
    }
    let rows = band_rows(height, workers);
    proof {
        assert(height / workers <= height) by (nonlinear_arith)
            requires
                workers > 0,
                height >= 0,
        ;
    }
    let mut bands: Vec<Band> = Vec::new();
    let mut top: usize = 0;
    proof {
        assert(bands.len() * rows == 0) by (nonlinear_arith)
            requires
                bands.len() == 0,
        ;
    }
    while top < height
        invariant
            rows > 0,
            height <= isize::MAX,
            rows <= height + 1,
            top == bands.len() * rows,
            bands.len() == 0 || (bands.len() - 1) * rows < height,
            top < height || bands.len() * rows >= height,
            top < height + rows,
            forall|i: int|
                0 <= i < bands.len() ==> #[trigger] bands@[i].top == i * rows && bands@[i].height
                    == min_int(rows as int, height - i * rows),
        decreases height + rows - top,
    {
        let left = height - top;
        let h = if rows <= left {
            rows
        } else {
            left
        };
        proof {
            assert((bands.len() + 1) * rows == bands.len() * rows + rows) by (nonlinear_arith);
        }
        let ghost before = bands@;
        bands.push(Band { top, height: h });
        proof {
            assert forall|i: int| 0 <= i < bands.len() implies #[trigger] bands@[i].top == i * rows
                && bands@[i].height == min_int(rows as int, height - i * rows) by {
                if i < before.len() {
                    assert(bands@[i] == before[i]);
                }
            }
        }
        top = top + rows;
    }
    bands
}

proof fn lemma_plan_band(bands: Seq<Band>, height: int, rows: int, i: int)
    requires
        rows > 0,
        is_band_plan(bands, height, rows),
        0 <= i < bands.len(),
    ensures
        bands[i].top == i * rows,
        bands[i].top < height,
        bands[i].height > 0,
        bands[i].top + bands[i].height == min_int((i + 1) * rows, height),
{
    let n = bands.len() as int;
    assert(i * rows <= (n - 1) * rows) by (nonlinear_arith)
        requires
            i <= n - 1,
            rows > 0,
    ;
    assert((i + 1) * rows == i * rows + rows) by (nonlinear_arith);
}

/// The bands of a plan follow one another without gap or overlap and cover
/// every row of the image exactly once, each with at least one row.
pub proof fn lemma_plan_tiles_rows(bands: Seq<Band>, height: int, rows: int)
    requires
        rows > 0,
        height >= 0,
        is_band_plan(bands, height, rows),
    ensures
        bands.len() > 0 ==> bands[0].top == 0,
        bands.len() > 0 ==> bands.last().top + bands.last().height == height,
        bands.len() == 0 <==> height == 0,
        forall|i: int| 0 <= i < bands.len() ==> #[trigger] bands[i].height > 0,
        forall|i: int| 0 <= i < bands.len() ==> #[trigger] bands[i].top + bands[i].height <= height,
        forall|i: int|
            0 <= i < bands.len() - 1 ==> #[trigger] bands[i].top + bands[i].height == bands[i
                + 1].top,
        forall|row: int| 0 <= row < height ==> #[trigger] some_band_holds(bands, row),
        forall|i: int, j: int, row: int|
            0 <= i < bands.len() && 0 <= j < bands.len() && #[trigger] band_holds(bands[i], row)
                && #[trigger] band_holds(bands[j], row) ==> i == j,
{
    let n = bands.len() as int;
    if n > 0 {
        lemma_plan_band(bands, height, rows, 0);
        lemma_plan_band(bands, height, rows, n - 1);
        assert(0 * rows == 0) by (nonlinear_arith);
        assert(n * rows == (n - 1) * rows + rows) by (nonlinear_arith);
    } else {
        assert(height <= 0) by (nonlinear_arith)
            requires
                n * rows >= height,
                n == 0,
        ;
    }
    assert forall|i: int| 0 <= i < n implies #[trigger] bands[i].height > 0 by {
        lemma_plan_band(bands, height, rows, i);
    }
    assert forall|i: int| 0 <= i < n implies #[trigger] bands[i].top + bands[i].height <= height by {
        lemma_plan_band(bands, height, rows, i);
    }
    assert forall|i: int| 0 <= i < n - 1 implies #[trigger] bands[i].top + bands[i].height
        == bands[i + 1].top by {
        lemma_plan_band(bands, height, rows, i);
        lemma_plan_band(bands, height, rows, i + 1);
    }
    assert forall|row: int| 0 <= row < height implies #[trigger] some_band_holds(bands, row) by {
        let i = row / rows;
        assert(0 <= i && i * rows <= row < (i + 1) * rows) by (nonlinear_arith)
            requires
                i == row / rows,
                rows > 0,
                row >= 0,
        ;
        if i >= n {
            assert(i * rows >= n * rows) by (nonlinear_arith)
                requires
                    i >= n,
                    rows > 0,
            ;
        }
        lemma_plan_band(bands, height, rows, i);
        assert(band_holds(bands[i], row));
    }
    assert forall|i: int, j: int, row: int|
        0 <= i < n && 0 <= j < n && #[trigger] band_holds(bands[i], row) && #[trigger] band_holds(
            bands[j],
            row,
        ) implies i == j by {
        lemma_plan_band(bands, height, rows, i);
        lemma_plan_band(bands, height, rows, j);
        if i < j {
            assert((i + 1) * rows <= j * rows) by (nonlinear_arith)
                requires
                    i + 1 <= j,
                    rows > 0,
            ;
        } else if j < i {
            assert((j + 1) * rows <= i * rows) by (nonlinear_arith)
                requires
                    j + 1 <= i,
                    rows > 0,
            ;
        }
    }
}

} // verus!
