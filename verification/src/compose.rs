//! Why a raster that is rendered band by band, by workers that know only
//! their own band, is the raster that one worker renders alone.

use vstd::prelude::*;
use crate::bands::{band_at, band_of_row, lemma_band_bytes, lemma_bands_cover, partition, Band};
use crate::error::RenderError;
use crate::raster::{depicts, pixel_index, pixel_shown, render, shade_of, Bounds, ESCAPE_LIMIT};

verus! {

/// The part of the buffer `whole` of a raster of dimensions `bounds` that
/// holds the rows of `band`.
pub open spec fn band_bytes(whole: Seq<u8>, bounds: Bounds, band: Band) -> Seq<u8> {
    whole.subrange(band.top * bounds.width, band.end() * bounds.width)
}

/// Dimensions of `band` taken as a raster of its own.
pub open spec fn band_bounds(bounds: Bounds, band: Band) -> Bounds {
    Bounds { width: bounds.width, height: band.height }
}

/// What `sub` answers for a pixel of `band`, counted from the band's first
/// row, `full` answers for the same pixel counted from the raster's first
/// row.
pub open spec fn agrees_in_band<
    F: Fn(usize, usize, usize) -> Option<usize>,
    G: Fn(usize, usize, usize) -> Option<usize>,
>(band: Band, width: usize, sub: G, full: F) -> bool {
    forall|column: usize, row: usize, e: Option<usize>|
        column < width && row < band.height && #[trigger] sub.ensures(
            (column, row, ESCAPE_LIMIT),
            e,
        ) ==> full.ensures((column, (band.top + row) as usize, ESCAPE_LIMIT), e)
}

/// `f` has one answer for each pixel.
pub open spec fn single_valued<F: Fn(usize, usize, usize) -> Option<usize>>(f: F) -> bool {
    forall|column: usize, row: usize, limit: usize, a: Option<usize>, b: Option<usize>|
        #![trigger f.ensures((column, row, limit), a), f.ensures((column, row, limit), b)]
        f.ensures((column, row, limit), a) && f.ensures((column, row, limit), b) ==> a == b
}

/// A band that was rendered on its own shows its rows of the whole raster:
/// where the band's bytes depict the band under `sub`, and `sub` agrees
/// with `full` in the band, every pixel of the band's rows is shown in the
/// whole buffer as `full` answers for it.
pub proof fn lemma_band_shows_its_rows<
    F: Fn(usize, usize, usize) -> Option<usize>,
    G: Fn(usize, usize, usize) -> Option<usize>,
>(whole: Seq<u8>, bounds: Bounds, band: Band, sub: G, full: F)
    requires
        band.within(bounds),
        whole.len() == bounds.area(),
        depicts(band_bytes(whole, bounds, band), band_bounds(bounds, band), sub),
        agrees_in_band(band, bounds.width, sub, full),
    ensures
        forall|column: int, row: int|
            0 <= column < bounds.width && band.contains_row(row) ==> #[trigger] pixel_shown(
                whole,
                bounds.width,
                column,
                row,
                full,
            ),
{
    let width = bounds.width;
    let part = band_bytes(whole, bounds, band);
    lemma_band_bytes(band, bounds);
    assert forall|column: int, row: int|
        0 <= column < width && band.contains_row(row) implies #[trigger] pixel_shown(
        whole,
        width,
        column,
        row,
        full,
    ) by {
        let local = row - band.top;
        assert(pixel_shown(part, width, column, local, sub));
        let e = choose|e: Option<usize>|
            #[trigger] sub.ensures((column as usize, local as usize, ESCAPE_LIMIT), e) && part[pixel_index(
                width as int,
                column,
                local,
            )] == shade_of(e);
        assert(band.top * width + local * width == row * width) by (nonlinear_arith)
            requires
                local == row - band.top,
        ;
        crate::raster::lemma_index_in_range(width as int, band.height as int, column, local);
        assert(part[pixel_index(width as int, column, local)] == whole[pixel_index(
            width as int,
            column,
            row,
        )]);
        assert(full.ensures((column as usize, row as usize, ESCAPE_LIMIT), e));
    }
}

/// Bands that were rendered on their own make up the whole raster: where,
/// for each band of the partition, the band's bytes depict the band under
/// that band's own `subs[i]`, which agrees with `full` in the band, the
/// whole buffer depicts the raster under `full`.
pub proof fn lemma_bands_assemble<
    F: Fn(usize, usize, usize) -> Option<usize>,
    G: Fn(usize, usize, usize) -> Option<usize>,
>(whole: Seq<u8>, bounds: Bounds, workers: usize, subs: Seq<G>, full: F)
    requires
        workers > 0,
        whole.len() == bounds.area(),
        subs.len() == workers,
        forall|i: int|
            0 <= i < workers ==> depicts(
                band_bytes(whole, bounds, #[trigger] band_at(bounds.height, workers, i)),
                band_bounds(bounds, band_at(bounds.height, workers, i)),
                subs[i],
            ),
        forall|i: int|
            0 <= i < workers ==> agrees_in_band(
                #[trigger] band_at(bounds.height, workers, i),
                bounds.width,
                subs[i],
                full,
            ),
    ensures
        depicts(whole, bounds, full),
{
    assert forall|column: int, row: int|
        0 <= column < bounds.width && 0 <= row < bounds.height implies #[trigger] pixel_shown(
        whole,
        bounds.width,
        column,
        row,
        full,
    ) by {
        lemma_bands_cover(bounds.height, workers, row);
        let i = band_of_row(bounds.height, workers, row);
        let band = band_at(bounds.height, workers, i);
        crate::bands::lemma_bands_tile(bounds.height, workers);
        lemma_band_shows_its_rows(whole, bounds, band, subs[i], full);
    }
}

/// There is one picture: two buffers that depict the same raster under the
/// same single-valued `f` are equal byte for byte.
pub proof fn lemma_depiction_unique<F: Fn(usize, usize, usize) -> Option<usize>>(
    a: Seq<u8>,
    b: Seq<u8>,
    bounds: Bounds,
    f: F,
)
    requires
        depicts(a, bounds, f),
        depicts(b, bounds, f),
        single_valued(f),
    ensures
        a == b,
{
    let width = bounds.width as int;
    let height = bounds.height as int;
    assert forall|i: int| 0 <= i < a.len() implies a[i] == b[i] by {
        assert(width > 0) by (nonlinear_arith)
            requires
                0 <= i < width * height,
                0 <= width,
        ;
        let column = i % width;
        let row = i / width;
        vstd::arithmetic::div_mod::lemma_fundamental_div_mod(i, width);
        vstd::arithmetic::div_mod::lemma_mod_pos_bound(i, width);
        vstd::arithmetic::div_mod::lemma_div_pos_is_pos(i, width);
        assert(row < height && width * row == row * width) by (nonlinear_arith)
            requires
                i == width * row + column,
                0 <= column < width,
                i < width * height,
        ;
        assert(pixel_index(width, column, row) == i);
        assert(pixel_shown(a, bounds.width, column, row, f));
        assert(pixel_shown(b, bounds.width, column, row, f));
    }
    assert(a =~= b);
}

/// Rendering in bands gives the picture that rendering in one piece gives:
/// where `whole` was assembled from bands as in `lemma_bands_assemble`, and
/// `alone` depicts the raster under the same single-valued `full`, the two
/// buffers are equal byte for byte.
pub proof fn lemma_bands_render_what_one_renders<
    F: Fn(usize, usize, usize) -> Option<usize>,
    G: Fn(usize, usize, usize) -> Option<usize>,
>(alone: Seq<u8>, whole: Seq<u8>, bounds: Bounds, workers: usize, subs: Seq<G>, full: F)
    requires
        workers > 0,
        single_valued(full),
        depicts(alone, bounds, full),
        whole.len() == bounds.area(),
        subs.len() == workers,
        forall|i: int|
            0 <= i < workers ==> depicts(
                band_bytes(whole, bounds, #[trigger] band_at(bounds.height, workers, i)),
                band_bounds(bounds, band_at(bounds.height, workers, i)),
                subs[i],
            ),
        forall|i: int|
            0 <= i < workers ==> agrees_in_band(
                #[trigger] band_at(bounds.height, workers, i),
                bounds.width,
                subs[i],
                full,
            ),
    ensures
        whole == alone,
{
    lemma_bands_assemble(whole, bounds, workers, subs, full);
    lemma_depiction_unique(whole, alone, bounds, full);
}

/// The byte of `rest`, a buffer that starts with row `top` of the raster,
/// for pixel (`column`, `row`) of the raster is the shade of an outcome that
/// `escape` may give for that pixel.
pub open spec fn shown_from<F: Fn(usize, usize, usize) -> Option<usize>>(
    rest: Seq<u8>,
    width: usize,
    top: int,
    column: int,
    row: int,
    escape: F,
) -> bool {
    exists|e: Option<usize>|
        #[trigger] escape.ensures((column as usize, row as usize, ESCAPE_LIMIT), e)
            && rest[pixel_index(width as int, column, row - top)] == shade_of(e)
}

/// `rest` holds the rows of the raster from row `top` on, each pixel shown
/// as `escape` answers for it.
pub open spec fn depicts_from<F: Fn(usize, usize, usize) -> Option<usize>>(
    rest: Seq<u8>,
    bounds: Bounds,
    top: int,
    escape: F,
) -> bool {
    &&& rest.len() == (bounds.height - top) * bounds.width
    &&& forall|column: int, row: int|
        0 <= column < bounds.width && top <= row < bounds.height ==> #[trigger] shown_from(
            rest,
            bounds.width,
            top,
            column,
            row,
            escape,
        )
}

/// A band and the rows after it make up the rows from the band's first
/// on: where `part` depicts the band under `sub`, which agrees with
/// `escape` in the band, and `tail` holds the rows after the band as
/// `escape` answers for them, `part` followed by `tail` holds the rows
/// from the band's first on.
pub proof fn lemma_band_before_rest<
    F: Fn(usize, usize, usize) -> Option<usize>,
    G: Fn(usize, usize, usize) -> Option<usize>,
>(part: Seq<u8>, tail: Seq<u8>, bounds: Bounds, band: Band, sub: G, escape: F)
    requires
        band.within(bounds),
        depicts(part, band_bounds(bounds, band), sub),
        agrees_in_band(band, bounds.width, sub, escape),
        depicts_from(tail, bounds, band.end(), escape),
    ensures
        depicts_from(part + tail, bounds, band.top as int, escape),
{
    let rest = part + tail;
    let width = bounds.width;
    let top = band.top as int;
    let end = band.end();
    lemma_band_bytes(band, bounds);
    assert((bounds.height - top) * width == band.height * width + (bounds.height - end) * width)
        by (nonlinear_arith)
        requires
            end == top + band.height,
    ;
    assert forall|column: int, row: int|
        0 <= column < width && top <= row < bounds.height implies #[trigger] shown_from(
        rest,
        width,
        top,
        column,
        row,
        escape,
    ) by {
        if row < end {
            let local = row - top;
            assert(pixel_shown(part, width, column, local, sub));
            let e = choose|e: Option<usize>|
                #[trigger] sub.ensures((column as usize, local as usize, ESCAPE_LIMIT), e)
                    && part[pixel_index(width as int, column, local)] == shade_of(e);
            crate::raster::lemma_index_in_range(width as int, band.height as int, column, local);
            assert(rest[pixel_index(width as int, column, local)] == part[pixel_index(
                width as int,
                column,
                local,
            )]);
            assert(escape.ensures((column as usize, row as usize, ESCAPE_LIMIT), e));
        } else {
            assert(shown_from(tail, width, end, column, row, escape));
            let e = choose|e: Option<usize>|
                #[trigger] escape.ensures((column as usize, row as usize, ESCAPE_LIMIT), e)
                    && tail[pixel_index(width as int, column, row - end)] == shade_of(e);
            crate::raster::lemma_index_in_range(
                width as int,
                bounds.height - end,
                column,
                row - end,
            );
            assert(band.height * width + (row - end) * width == (row - top) * width)
                by (nonlinear_arith)
                requires
                    end == top + band.height,
            ;
            assert(rest[pixel_index(width as int, column, row - top)] == tail[pixel_index(
                width as int,
                column,
                row - end,
            )]);
        }
    }
}

/// Renders band `i` and the bands after it, one after the other, each into
/// its own part of `rest`, with an evaluator that knows only that band.
fn render_bands_from<F: Fn(usize, usize, usize) -> Option<usize>>(
    rest: &mut [u8],
    bounds: Bounds,
    workers: usize,
    bands: &Vec<Band>,
    i: usize,
    escape: &F,
)
    requires
        bounds.area() <= usize::MAX,
        bands@.len() == workers,
        i < workers,
        forall|k: int|
            0 <= k < bands@.len() ==> #[trigger] bands@[k] == band_at(
                bounds.height,
                workers,
                k,
            ),
        old(rest)@.len() == (bounds.height - bands@[i as int].top) * bounds.width,
        forall|column: usize, row: usize|
            column < bounds.width && row < bounds.height ==> #[trigger] escape.requires(
                (column, row, ESCAPE_LIMIT),
            ),
    ensures
        depicts_from(final(rest)@, bounds, bands@[i as int].top as int, *escape),
    decreases bands@.len() - i,
{
    let band = bands[i];
    let top = band.top;
    let sub_bounds = band.bounds(bounds);
    proof {
        crate::bands::lemma_bands_tile(bounds.height, workers);
        assert(bands@[i as int] == band_at(bounds.height, workers, i as int));
        lemma_band_bytes(band, bounds);
        assert((bounds.height - top) * bounds.width == band.height * bounds.width + (bounds.height
            - band.end()) * bounds.width) by (nonlinear_arith)
            requires
                band.end() == top + band.height,
        ;
        assert((bounds.height - band.end()) * bounds.width >= 0) by (nonlinear_arith)
            requires
                band.end() <= bounds.height,
                bounds.width >= 0,
        ;
    }
    let sub = |column: usize, row: usize, limit: usize| -> (e: Option<usize>)
        requires
            column < sub_bounds.width,
            row < sub_bounds.height,
            limit == ESCAPE_LIMIT,
        ensures
            escape.ensures((column, (top + row) as usize, limit), e),
        { escape(column, top + row, limit) };
    let len = band.byte_len(bounds);
    let (part, tail) = rest.split_at_mut(len);
    render(part, sub_bounds, sub);
    if i + 1 < bands.len() {
        assert(bands@[i + 1] == band_at(bounds.height, workers, i + 1));
        render_bands_from(tail, bounds, workers, bands, i + 1, escape);
    }
    proof {
        lemma_band_before_rest(part@, tail@, bounds, band, sub, *escape);
    }
}

/// Renders the raster band by band, as `workers` workers would: the rows
/// are partitioned, and each band is rendered into its own part of `pixels`
/// by an evaluator that counts rows from the band's first. The buffer then
/// depicts the whole raster, as it does after `render`. Fails with
/// `InvalidDimension`, and leaves `pixels` as it was, where the raster has
/// no pixel or there is no worker.
pub fn render_in_bands<F: Fn(usize, usize, usize) -> Option<usize>>(
    pixels: &mut [u8],
    bounds: Bounds,
    workers: usize,
    escape: &F,
) -> (r: Result<(), RenderError>)
    requires
        old(pixels)@.len() == bounds.area(),
        forall|column: usize, row: usize|
            column < bounds.width && row < bounds.height ==> #[trigger] escape.requires(
                (column, row, ESCAPE_LIMIT),
            ),
    ensures
        match r {
            Ok(_) => bounds.wf() && workers > 0 && depicts(final(pixels)@, bounds, *escape),
            Err(e) => {
                &&& e == RenderError::InvalidDimension
                &&& !bounds.wf() || workers == 0
                &&& final(pixels)@ == old(pixels)@
            },
        },
{
    match partition(bounds, workers) {
        Err(e) => Err(e),
        Ok(bands) => {
            proof {
                crate::bands::lemma_bands_tile(bounds.height, workers);
                assert(bands@[0] == band_at(bounds.height, workers, 0));
                assert((bounds.height - 0) * bounds.width == bounds.width * bounds.height)
                    by (nonlinear_arith);
            }
            render_bands_from(pixels, bounds, workers, &bands, 0, escape);
            proof {
                assert forall|column: int, row: int|
                    0 <= column < bounds.width && 0 <= row < bounds.height implies #[trigger] pixel_shown(
                    pixels@,
                    bounds.width,
                    column,
                    row,
                    *escape,
                ) by {
                    assert(shown_from(pixels@, bounds.width, 0, column, row, *escape));
                }
            }
            Ok(())
        },
    }
}

} // verus!
