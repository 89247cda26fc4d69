//! Cutting an image into bands of rows.
//!
//! The rows of an image are shared out among a fixed number of workers. Each
//! worker gets one band, a run of consecutive rows. All bands have the same
//! number of rows, the height divided by the number of workers and rounded
//! down, but for the last band, which also takes the rows that are left over.

use vstd::prelude::*;

verus! {

/// The first row of band `i`, where `height` rows are shared out among
/// `workers` workers.
pub open spec fn band_start(height: nat, workers: nat, i: nat) -> nat {
    i * (height / workers)
}

/// The row after the last row of band `i`.
pub open spec fn band_end(height: nat, workers: nat, i: nat) -> nat {
    if i + 1 == workers {
        height
    } else {
        (i + 1) * (height / workers)
    }
}

/// The number of rows in band `i`.
pub open spec fn band_rows(height: nat, workers: nat, i: nat) -> nat {
    (band_end(height, workers, i) - band_start(height, workers, i)) as nat
}

/// Row `row` belongs to band `i`.
pub open spec fn in_band(height: nat, workers: nat, i: nat, row: nat) -> bool {
    band_start(height, workers, i) <= row < band_end(height, workers, i)
}

/// The band that row `row` belongs to.
pub open spec fn band_of_row(height: nat, workers: nat, row: nat) -> nat {
    let rows = height / workers;
    if rows == 0 || row / rows >= workers {
        (workers - 1) as nat
    } else {
        row / rows
    }
}

/// The number of pixels in the first `n` bands of an image `width` pixels
/// wide.
pub open spec fn pixels_in_bands(width: nat, height: nat, workers: nat, n: nat) -> nat
    decreases n,
{
    if n == 0 {
        0
    } else {
        pixels_in_bands(width, height, workers, (n - 1) as nat) + band_rows(
            height,
            workers,
            (n - 1) as nat,
        ) * width
    }
}

/// A run of consecutive rows of an image: the rows from `start` up to, and
/// without, `end`.
#[derive(Clone, Copy, Debug, PartialEq, Eq)]
pub struct Band {
    pub start: usize,
    pub end: usize,
}

impl Band {
    /// The band's rows are counted from its first to its last.
    pub open spec fn wf(self) -> bool {
        self.start <= self.end
    }

    /// The number of rows in the band.
    pub open spec fn rows(self) -> nat {
        (self.end - self.start) as nat
    }

    /// This is band `i` of an image of `height` rows shared out among
    /// `workers` workers.
    pub open spec fn is_band(self, height: nat, workers: nat, i: nat) -> bool {
        &&& self.start == band_start(height, workers, i)
        &&& self.end == band_end(height, workers, i)
    }
}

/// The bands lie one after the other: each begins where the one before it
/// ends, the first with the first row and the last with the last row.
pub proof fn lemma_bands_are_consecutive(height: nat, workers: nat, i: nat)
    requires
        workers > 0,
        i < workers,
    ensures
        band_start(height, workers, 0) == 0,
        band_end(height, workers, (workers - 1) as nat) == height,
        band_start(height, workers, i) <= band_end(height, workers, i) <= height,
        i + 1 < workers ==> band_end(height, workers, i) == band_start(
            height,
            workers,
            i + 1,
        ),
{
    let rows = height / workers;
    assert(workers * rows <= height) by (nonlinear_arith)
        requires
            workers > 0,
            rows == height / workers,
    ;
    assert(i * rows <= (i + 1) * rows <= workers * rows) by (nonlinear_arith)
        requires
            i + 1 <= workers,
    ;
}

/// Every row of the image belongs to a band.
pub proof fn lemma_row_has_band(height: nat, workers: nat, row: nat)
    requires
        workers > 0,
        row < height,
    ensures
        band_of_row(height, workers, row) < workers,
        in_band(height, workers, band_of_row(height, workers, row), row),
{
    let rows = height / workers;
    let i = band_of_row(height, workers, row);
    if rows == 0 {
        assert(i * rows == 0) by (nonlinear_arith)
            requires
                rows == 0,
        ;
    } else {
        let k = row / rows;
        assert(k * rows <= row < (k + 1) * rows) by (nonlinear_arith)
            requires
                rows > 0,
                k == row / rows,
        ;
        if k >= workers {
            assert(i * rows <= k * rows) by (nonlinear_arith)
                requires
                    i <= k,
            ;
        }
    }
}

/// No row of the image belongs to two bands.
pub proof fn lemma_bands_are_disjoint(height: nat, workers: nat, i: nat, j: nat, row: nat)
    requires
        workers > 0,
        i < workers,
        j < workers,
        in_band(height, workers, i, row),
        in_band(height, workers, j, row),
    ensures
        i == j,
{
    let rows = height / workers;
    if i < j {
        assert((i + 1) * rows <= j * rows) by (nonlinear_arith)
            requires
                i + 1 <= j,
        ;
    } else if j < i {
        assert((j + 1) * rows <= i * rows) by (nonlinear_arith)
            requires
                j + 1 <= i,
        ;
    }
}

/// The first `n` bands hold the pixels of the rows before band `n`.
proof fn lemma_pixels_before_band(width: nat, height: nat, workers: nat, n: nat)
    requires
        workers > 0,
        n < workers,
    ensures
        pixels_in_bands(width, height, workers, n) == band_start(height, workers, n) * width,
    decreases n,
{
    if n == 0 {
        assert(0 * (height / workers) * width == 0) by (nonlinear_arith);
    } else {
        let m = (n - 1) as nat;
        lemma_pixels_before_band(width, height, workers, m);
        lemma_bands_are_consecutive(height, workers, m);
        let a = band_start(height, workers, m);
        let b = band_start(height, workers, n);
        assert(a * width + (b - a) * width == b * width) by (nonlinear_arith);
    }
}

/// The bands share out the image: every row belongs to exactly one band, no
/// band reaches past the last row, and the bands' pixels add up to the
/// image's.
pub proof fn lemma_bands_partition(width: nat, height: nat, workers: nat)
    requires
        workers > 0,
    ensures
        forall|row: nat|
            row < height ==> band_of_row(height, workers, row) < workers && #[trigger] in_band(
                height,
                workers,
                band_of_row(height, workers, row),
                row,
            ),
        forall|i: nat, row: nat|
            i < workers && #[trigger] in_band(height, workers, i, row) ==> row < height && i
                == band_of_row(height, workers, row),
        pixels_in_bands(width, height, workers, workers) == width * height,
{
    assert forall|row: nat| row < height implies band_of_row(height, workers, row) < workers
        && #[trigger] in_band(height, workers, band_of_row(height, workers, row), row) by {
        lemma_row_has_band(height, workers, row);
    }
    assert forall|i: nat, row: nat|
        i < workers && #[trigger] in_band(height, workers, i, row) implies row < height && i
        == band_of_row(height, workers, row) by {
        lemma_bands_are_consecutive(height, workers, i);
        lemma_row_has_band(height, workers, row);
        lemma_bands_are_disjoint(height, workers, i, band_of_row(height, workers, row), row);
    }
    let last = (workers - 1) as nat;
    lemma_pixels_before_band(width, height, workers, last);
    lemma_bands_are_consecutive(height, workers, last);
    let a = band_start(height, workers, last);
    assert(a * width + (height - a) * width == width * height) by (nonlinear_arith);
}

/// Band `i` of an image of `height` rows shared out among `workers` workers.
pub fn band(height: usize, workers: usize, i: usize) -> (band: Band)
    requires
        workers > 0,
        i < workers,
    ensures
        band.is_band(height as nat, workers as nat, i as nat),
        band.wf(),
        band.end <= height,
{
    proof {
        lemma_bands_are_consecutive(height as nat, workers as nat, i as nat);
    }
    let rows: usize = height / workers;
    let start: usize = i * rows;
    let end: usize = if i + 1 == workers {
        height
    } else {
        (i + 1) * rows
    };
    Band { start, end }
}

/// All bands of an image of `height` rows shared out among `workers`
/// workers, from the top of the image down.
pub fn bands(height: usize, workers: usize) -> (bands: Vec<Band>)
    requires
        workers > 0,
    ensures
        bands.len() == workers,
        forall|i: int|
            0 <= i < workers ==> (#[trigger] bands[i]).is_band(
                height as nat,
                workers as nat,
                i as nat,
            ),
{
    let mut bands: Vec<Band> = Vec::new();
    let mut i: usize = 0;
    while i < workers
        invariant
            workers > 0,
            0 <= i <= workers,
            bands.len() == i,
            forall|j: int|
                0 <= j < i ==> (#[trigger] bands[j]).is_band(
                    height as nat,
                    workers as nat,
                    j as nat,
                ),
        decreases workers - i,
    {
        bands.push(band(height, workers, i));
        i += 1;
    }
    bands
}

} // verus!
