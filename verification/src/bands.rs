//! The partition of a raster's rows into bands, one for each worker.

use vstd::prelude::*;
use crate::error::RenderError;
use crate::raster::Bounds;

verus! {

/// A block of consecutive rows of a raster: `height` rows from row `top` on.
#[derive(Clone, Copy, Debug, PartialEq, Eq, Structural)]
pub struct Band {
    pub top: usize,
    pub height: usize,
}

impl Band {
    /// The row after the band's last.
    pub open spec fn end(self) -> int {
        self.top + self.height
    }

    /// `row` is one of the band's rows.
    pub open spec fn contains_row(self, row: int) -> bool {
        self.top <= row < self.end()
    }

    /// The band lies inside a raster of dimensions `bounds`.
    pub open spec fn within(self, bounds: Bounds) -> bool {
        self.end() <= bounds.height
    }

    /// Dimensions of the band taken as a raster of its own: as wide as the
    /// whole raster, as high as the band.
    pub fn bounds(&self, bounds: Bounds) -> (sub: Bounds)
        ensures
            sub == (Bounds { width: bounds.width, height: self.height }),
    {
        Bounds { width: bounds.width, height: self.height }
    }

    /// Number of bytes that the band's rows take in the raster's buffer.
    pub fn byte_len(&self, bounds: Bounds) -> (n: usize)
        requires
            self.within(bounds),
            bounds.area() <= usize::MAX,
        ensures
            n == self.height * bounds.width,
    {
        proof {
            lemma_band_bytes(*self, bounds);
        }
        self.height * bounds.width
    }

    /// Index in the raster's buffer of the first byte of the band's rows.
    pub fn first_byte(&self, bounds: Bounds) -> (n: usize)
        requires
            self.within(bounds),
            bounds.area() <= usize::MAX,
        ensures
            n == self.top * bounds.width,
    {
        proof {
            lemma_band_bytes(*self, bounds);
        }
        self.top * bounds.width
    }

    /// The pixel of the whole raster at the band's upper left corner, as
    /// (column, row).
    pub fn upper_left_pixel(&self) -> (pixel: (usize, usize))
        ensures
            pixel == (0usize, self.top),
    {
        (0, self.top)
    }

    /// The pixel of the whole raster just beyond the band's lower right
    /// corner, as (column, row): the raster's width and the band's end.
    pub fn lower_right_pixel(&self, bounds: Bounds) -> (pixel: (usize, usize))
        requires
            self.within(bounds),
        ensures
            pixel == (bounds.width, (self.top + self.height) as usize),
    {
        (bounds.width, self.top + self.height)
    }

    /// The two corners in the plane of the rectangle that the band covers:
    /// what `to_point` answers, for the dimensions of the whole raster and
    /// not of the band, for the band's upper left pixel and for the pixel
    /// just beyond its lower right.
    pub fn window<P, M: Fn(Bounds, (usize, usize)) -> P>(&self, bounds: Bounds, to_point: M) -> (corners: (
        P,
        P,
    ))
        requires
            self.within(bounds),
            to_point.requires((bounds, (0usize, self.top))),
            to_point.requires((bounds, (bounds.width, (self.top + self.height) as usize))),
        ensures
            to_point.ensures((bounds, (0usize, self.top)), corners.0),
            to_point.ensures(
                (bounds, (bounds.width, (self.top + self.height) as usize)),
                corners.1,
            ),
    {
        let upper_left = to_point(bounds, self.upper_left_pixel());
        let lower_right = to_point(bounds, self.lower_right_pixel(bounds));
        (upper_left, lower_right)
    }
}

/// The bytes of a band that lies inside a raster are bytes of the raster's
/// buffer.
pub proof fn lemma_band_bytes(band: Band, bounds: Bounds)
    requires
        band.within(bounds),
    ensures
        0 <= band.top * bounds.width,
        0 <= band.height * bounds.width,
        band.top * bounds.width + band.height * bounds.width == band.end() * bounds.width,
        band.end() * bounds.width <= bounds.area(),
{
    let w = bounds.width as int;
    let t = band.top as int;
    let h = band.height as int;
    let total = bounds.height as int;
    assert(0 <= t * w && 0 <= h * w && t * w + h * w == (t + h) * w && (t + h) * w <= w * total)
        by (nonlinear_arith)
        requires
            0 <= w,
            0 <= t,
            0 <= h,
            t + h <= total,
    ;
}

/// Rows that each band but the last gets.
pub open spec fn rows_per_band(height: usize, workers: usize) -> int
    recommends
        workers > 0,
{
    height as int / workers as int
}

/// Band `i` of the `workers` bands of a raster of `height` rows. Every band
/// has `rows_per_band` rows, but the last, which runs to the raster's end.
pub open spec fn band_at(height: usize, workers: usize, i: int) -> Band
    recommends
        workers > 0,
        0 <= i < workers,
{
    let rows = rows_per_band(height, workers);
    if i < workers - 1 {
        Band { top: (i * rows) as usize, height: rows as usize }
    } else {
        Band { top: (i * rows) as usize, height: (height - i * rows) as usize }
    }
}

/// The bands before band `i` hold `i * rows_per_band` rows, which are rows
/// of the raster.
pub proof fn lemma_band_top(height: usize, workers: usize, i: int)
    requires
        workers > 0,
        0 <= i < workers,
    ensures
        0 <= i * rows_per_band(height, workers) <= height,
        i < workers - 1 ==> (i + 1) * rows_per_band(height, workers) <= height,
        band_at(height, workers, i).top == i * rows_per_band(height, workers),
        band_at(height, workers, i).end() == if i < workers - 1 {
            (i + 1) * rows_per_band(height, workers)
        } else {
            height as int
        },
{
    let rows = rows_per_band(height, workers);
    let h = height as int;
    let n = workers as int;
    vstd::arithmetic::div_mod::lemma_fundamental_div_mod(h, n);
    vstd::arithmetic::div_mod::lemma_div_pos_is_pos(h, n);
    vstd::arithmetic::div_mod::lemma_mod_pos_bound(h, n);
    assert(n * rows <= h);
    assert(0 <= i * rows && (i + 1) * rows <= n * rows && (i + 1) * rows == i * rows + rows)
        by (nonlinear_arith)
        requires
            0 <= i < n,
            0 <= rows,
    ;
}

/// The rows of a raster, split into one band for each of `workers`
/// workers. Fails with `InvalidDimension` where the raster has no pixel or
/// too many to address, or where there is no worker.
pub fn partition(bounds: Bounds, workers: usize) -> (r: Result<Vec<Band>, RenderError>)
    ensures
        match r {
            Ok(bands) => {
                &&& bounds.wf()
                &&& workers > 0
                &&& bands@.len() == workers
                &&& forall|i: int|
                    0 <= i < workers ==> #[trigger] bands@[i] == band_at(bounds.height, workers, i)
            },
            Err(e) => e == RenderError::InvalidDimension && (!bounds.wf() || workers == 0),
        },
{
    if workers == 0 || bounds.width == 0 || bounds.height == 0 {
        return Err(RenderError::InvalidDimension);
    }
    if bounds.width.checked_mul(bounds.height).is_none() {
        return Err(RenderError::InvalidDimension);
    }
    let height: usize = bounds.height;
    let rows: usize = height / workers;
    let mut bands: Vec<Band> = Vec::new();
    let mut i: usize = 0;
    while i < workers - 1
        invariant
            workers > 0,
            height == bounds.height,
            rows == rows_per_band(height, workers),
            i <= workers - 1,
            bands@.len() == i,
            forall|k: int| 0 <= k < i ==> #[trigger] bands@[k] == band_at(height, workers, k),
        decreases workers - i,
    {
        proof {
            lemma_band_top(height, workers, i as int);
        }
        bands.push(Band { top: i * rows, height: rows });
        i = i + 1;
    }
    proof {
        lemma_band_top(height, workers, i as int);
    }
    let top: usize = i * rows;
    bands.push(Band { top, height: height - top });
    Ok(bands)
}

/// Every band lies inside the raster, the first starts at row 0, each next
/// one starts where the one before it ends, and the last ends with the
/// raster.
pub proof fn lemma_bands_tile(height: usize, workers: usize)
    requires
        workers > 0,
    ensures
        band_at(height, workers, 0).top == 0,
        band_at(height, workers, workers - 1).end() == height,
        forall|i: int|
            0 <= i < workers - 1 ==> band_at(height, workers, i + 1).top == (#[trigger] band_at(
                height,
                workers,
                i,
            )).end(),
        forall|i: int| 0 <= i < workers ==> (#[trigger] band_at(height, workers, i)).end() <= height,
{
    lemma_band_top(height, workers, 0);
    lemma_band_top(height, workers, workers - 1);
    assert forall|i: int| 0 <= i < workers - 1 implies band_at(height, workers, i + 1).top == (
    #[trigger] band_at(height, workers, i)).end() by {
        lemma_band_top(height, workers, i);
        lemma_band_top(height, workers, i + 1);
    }
    assert forall|i: int| 0 <= i < workers implies (#[trigger] band_at(height, workers, i)).end()
        <= height by {
        lemma_band_top(height, workers, i);
    }
}

/// No row belongs to two bands.
pub proof fn lemma_bands_disjoint(height: usize, workers: usize, i: int, j: int, row: int)
    requires
        workers > 0,
        0 <= i < workers,
        0 <= j < workers,
        i != j,
    ensures
        !(band_at(height, workers, i).contains_row(row) && band_at(height, workers, j).contains_row(
            row,
        )),
{
    let rows = rows_per_band(height, workers);
    lemma_band_top(height, workers, i);
    lemma_band_top(height, workers, j);
    if i < j {
        assert((i + 1) * rows <= j * rows) by (nonlinear_arith)
            requires
                i < j,
                0 <= rows,
        ;
    } else {
        assert((j + 1) * rows <= i * rows) by (nonlinear_arith)
            requires
                j < i,
                0 <= rows,
        ;
    }
}

/// The band that holds `row`: the one that the row's number divided by the
/// band height names, or the last.
pub open spec fn band_of_row(height: usize, workers: usize, row: int) -> int
    recommends
        workers > 0,
{
    let rows = rows_per_band(height, workers);
    if rows > 0 && row / rows < workers - 1 {
        row / rows
    } else {
        workers - 1
    }
}

/// The bands hold the rows of the raster and no others: a row of the raster
/// lies in the band that `band_of_row` names, and a row of a band is a row
/// of the raster.
pub proof fn lemma_bands_cover(height: usize, workers: usize, row: int)
    requires
        workers > 0,
    ensures
        0 <= row < height ==> 0 <= band_of_row(height, workers, row) < workers && band_at(
            height,
            workers,
            band_of_row(height, workers, row),
        ).contains_row(row),
        forall|i: int|
            0 <= i < workers && (#[trigger] band_at(height, workers, i)).contains_row(row) ==> 0
                <= row < height,
{
    let rows = rows_per_band(height, workers);
    let k = band_of_row(height, workers, row);
    lemma_band_top(height, workers, 0);
    if 0 <= row < height {
        if rows > 0 {
            vstd::arithmetic::div_mod::lemma_fundamental_div_mod(row, rows);
            vstd::arithmetic::div_mod::lemma_div_pos_is_pos(row, rows);
            vstd::arithmetic::div_mod::lemma_mod_pos_bound(row, rows);
            let q = row / rows;
            assert(q * rows == rows * q) by (nonlinear_arith);
            if q < workers - 1 {
                lemma_band_top(height, workers, q);
                assert((q + 1) * rows == q * rows + rows) by (nonlinear_arith);
            } else {
                lemma_band_top(height, workers, workers - 1);
                assert((workers - 1) * rows <= q * rows) by (nonlinear_arith)
                    requires
                        workers - 1 <= q,
                        0 <= rows,
                ;
            }
        } else {
            lemma_band_top(height, workers, workers - 1);
            assert((workers - 1) * rows == 0) by (nonlinear_arith)
                requires
                    rows == 0,
            ;
        }
    }
    assert forall|i: int|
        0 <= i < workers && (#[trigger] band_at(height, workers, i)).contains_row(
            row,
        ) implies 0 <= row < height by {
        lemma_band_top(height, workers, i);
    }
}

/// What the workers' outcomes, `true` for a band that was completed, make
/// of the whole render: it succeeded where every band was completed, and
/// failed as a whole where one was not.
pub fn join_outcome(completed: &Vec<bool>) -> (r: Result<(), RenderError>)
    ensures
        r is Ok <==> forall|i: int| 0 <= i < completed@.len() ==> completed@[i],
        r is Err ==> r == Err::<(), RenderError>(RenderError::WorkerFailure),
{
    let mut i: usize = 0;
    while i < completed.len()
        invariant
            i <= completed@.len(),
            forall|k: int| 0 <= k < i ==> completed@[k],
        decreases completed@.len() - i,
    {
        if !completed[i] {
            return Err(RenderError::WorkerFailure);
        }
        i = i + 1;
    }
    Ok(())
}

} // verus!
