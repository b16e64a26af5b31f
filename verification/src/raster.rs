//! The raster: its dimensions, its row-major byte layout, and the filling
//! of a block of rows with intensities.

use vstd::prelude::*;
use crate::error::RenderError;

verus! {

/// Number of iterations after which a point is taken to belong to the set.
pub const ESCAPE_LIMIT: usize = 255;

/// Dimensions of a raster in pixels.
#[derive(Clone, Copy, Debug, PartialEq, Eq, Structural)]
pub struct Bounds {
    pub width: usize,
    pub height: usize,
}

impl Bounds {
    /// Number of pixels, and so of bytes, in a raster of these dimensions.
    pub open spec fn area(self) -> int {
        self.width * self.height
    }

    /// Both dimensions are positive and the raster's bytes can be addressed.
    pub open spec fn wf(self) -> bool {
        &&& self.width > 0
        &&& self.height > 0
        &&& self.area() <= usize::MAX
    }

    /// Dimensions of a raster that can be rendered, or `InvalidDimension`
    /// where one of them is zero or the byte count does not fit in `usize`.
    pub fn new(width: usize, height: usize) -> (r: Result<Bounds, RenderError>)
        ensures
            match r {
                Ok(b) => b.wf() && b.width == width && b.height == height,
                Err(e) => e == RenderError::InvalidDimension && !(Bounds { width, height }).wf(),
            },
    {
        if width == 0 || height == 0 {
            return Err(RenderError::InvalidDimension);
        }
        match width.checked_mul(height) {
            Some(_) => Ok(Bounds { width, height }),
            None => Err(RenderError::InvalidDimension),
        }
    }
}

/// A buffer for a raster of dimensions `bounds`, one byte for each pixel,
/// all of them black. Fails with `InvalidDimension` where the raster has no
/// pixel or too many to address.
pub fn blank(bounds: Bounds) -> (r: Result<Vec<u8>, RenderError>)
    ensures
        match r {
            Ok(pixels) => {
                &&& bounds.wf()
                &&& pixels@.len() == bounds.area()
                &&& forall|i: int| 0 <= i < pixels@.len() ==> pixels@[i] == 0
            },
            Err(e) => e == RenderError::InvalidDimension && !bounds.wf(),
        },
{
    if bounds.width == 0 || bounds.height == 0 {
        return Err(RenderError::InvalidDimension);
    }
    match bounds.width.checked_mul(bounds.height) {
        None => Err(RenderError::InvalidDimension),
        Some(area) => {
            let mut pixels: Vec<u8> = Vec::with_capacity(area);
            while pixels.len() < area
                invariant
                    area == bounds.area(),
                    pixels@.len() <= area,
                    forall|i: int| 0 <= i < pixels@.len() ==> pixels@[i] == 0,
                decreases area - pixels@.len(),
            {
                pixels.push(0);
            }
            Ok(pixels)
        },
    }
}

/// The raster's width and height as an encoder of images takes them, for a
/// finished buffer `pixels`. Fails with `EncodingFailure` where the image
/// cannot be handed to an encoder: the buffer does not hold exactly one
/// byte for each pixel, or a dimension does not fit in 32 bits.
pub fn image_dimensions(pixels: &[u8], bounds: Bounds) -> (r: Result<(u32, u32), RenderError>)
    ensures
        match r {
            Ok(d) => {
                &&& pixels@.len() == bounds.area()
                &&& d.0 == bounds.width
                &&& d.1 == bounds.height
            },
            Err(e) => {
                &&& e == RenderError::EncodingFailure
                &&& pixels@.len() != bounds.area() || bounds.width > u32::MAX || bounds.height
                    > u32::MAX
            },
        },
{
    if bounds.width > 0xffff_ffff || bounds.height > 0xffff_ffff {
        return Err(RenderError::EncodingFailure);
    }
    let len: usize = pixels.len();
    match bounds.width.checked_mul(bounds.height) {
        None => Err(RenderError::EncodingFailure),
        Some(area) => {
            if area == len {
                Ok((bounds.width as u32, bounds.height as u32))
            } else {
                Err(RenderError::EncodingFailure)
            }
        },
    }
}

/// Position of pixel (`column`, `row`) in a row-major buffer of rows
/// `width` pixels long.
pub open spec fn pixel_index(width: int, column: int, row: int) -> int {
    row * width + column
}

/// Intensity of a pixel: black where the point never escaped, and brighter
/// the sooner it did. The count is reduced to a byte before it is
/// subtracted.
pub open spec fn shade_of(escape: Option<usize>) -> u8 {
    match escape {
        None => 0u8,
        Some(count) => (255 - count % 256) as u8,
    }
}

/// Computes `shade_of`.
pub fn shade(escape: Option<usize>) -> (v: u8)
    ensures
        v == shade_of(escape),
{
    match escape {
        None => 0,
        Some(count) => 255 - (count % 256) as u8,
    }
}

/// The byte of `pixels` for pixel (`column`, `row`) is the shade of an
/// outcome that `escape` may give for that pixel at the iteration limit.
pub open spec fn pixel_shown<F: Fn(usize, usize, usize) -> Option<usize>>(
    pixels: Seq<u8>,
    width: usize,
    column: int,
    row: int,
    escape: F,
) -> bool {
    exists|e: Option<usize>|
        #[trigger] escape.ensures((column as usize, row as usize, ESCAPE_LIMIT), e)
            && pixels[pixel_index(width as int, column, row)] == shade_of(e)
}

/// `pixels` is a raster of dimensions `bounds` in which every pixel is
/// shown as `escape` answers for it.
pub open spec fn depicts<F: Fn(usize, usize, usize) -> Option<usize>>(
    pixels: Seq<u8>,
    bounds: Bounds,
    escape: F,
) -> bool {
    &&& pixels.len() == bounds.area()
    &&& forall|column: int, row: int|
        0 <= column < bounds.width && 0 <= row < bounds.height ==> #[trigger] pixel_shown(
            pixels,
            bounds.width,
            column,
            row,
            escape,
        )
}

/// Fills `pixels`, a buffer of exactly `bounds.width * bounds.height` bytes,
/// row by row: each pixel gets the shade of what `escape` answers for its
/// column and row at the iteration limit.
pub fn render<F: Fn(usize, usize, usize) -> Option<usize>>(
    pixels: &mut [u8],
    bounds: Bounds,
    escape: F,
)
    requires
        old(pixels)@.len() == bounds.area(),
        forall|column: usize, row: usize|
            column < bounds.width && row < bounds.height ==> #[trigger] escape.requires(
                (column, row, ESCAPE_LIMIT),
            ),
    ensures
        depicts(final(pixels)@, bounds, escape),
{
    let width: usize = bounds.width;
    let height: usize = bounds.height;
    let total: usize = pixels.len();
    let mut row: usize = 0;
    while row < height
        invariant
            total == width * height,
            width == bounds.width,
            height == bounds.height,
            row <= height,
            pixels@.len() == width * height,
            forall|column: usize, row: usize|
                column < bounds.width && row < bounds.height ==> #[trigger] escape.requires(
                    (column, row, ESCAPE_LIMIT),
                ),
            forall|c: int, r: int|
                0 <= c < width && 0 <= r < row ==> #[trigger] pixel_shown(
                    pixels@,
                    width,
                    c,
                    r,
                    escape,
                ),
        decreases height - row,
    {
        let mut column: usize = 0;
        while column < width
            invariant
                total == width * height,
                width == bounds.width,
                height == bounds.height,
                row < height,
                column <= width,
                pixels@.len() == width * height,
                forall|column: usize, row: usize|
                    column < bounds.width && row < bounds.height ==> #[trigger] escape.requires(
                        (column, row, ESCAPE_LIMIT),
                    ),
                forall|c: int, r: int|
                    0 <= c < width && 0 <= r < row ==> #[trigger] pixel_shown(
                        pixels@,
                        width,
                        c,
                        r,
                        escape,
                    ),
                forall|c: int|
                    0 <= c < column ==> #[trigger] pixel_shown(pixels@, width, c, row as int, escape),
            decreases width - column,
        {
            proof {
                lemma_index_in_range(width as int, height as int, column as int, row as int);
            }
            let ghost before = pixels@;
            let result = escape(column, row, ESCAPE_LIMIT);
            let index: usize = row * width + column;
            pixels[index] = shade(result);
            proof {
                assert forall|c: int, r: int|
                    0 <= c < width && (0 <= r < row || (r == row && c <= column)) implies #[trigger] pixel_shown(
                    pixels@,
                    width,
                    c,
                    r,
                    escape,
                ) by {
                    if r == row && c == column {
                        assert(escape.ensures((c as usize, r as usize, ESCAPE_LIMIT), result));
                    } else {
                        assert(pixel_shown(before, width, c, r, escape));
                        let e = choose|e: Option<usize>|
                            #[trigger] escape.ensures((c as usize, r as usize, ESCAPE_LIMIT), e)
                                && before[pixel_index(width as int, c, r)] == shade_of(e);
                        lemma_index_in_range(width as int, height as int, c, r);
                        if pixel_index(width as int, c, r) == index {
                            lemma_index_injective(width as int, c, r, column as int, row as int);
                        }
                        assert(pixels@[pixel_index(width as int, c, r)] == shade_of(e));
                    }
                }
            }
            column = column + 1;
        }
        row = row + 1;
    }
}

/// A pixel inside the raster has its index inside the buffer, and its row
/// starts at least one row's length before the buffer's end.
pub proof fn lemma_index_in_range(width: int, height: int, column: int, row: int)
    requires
        0 <= column < width,
        0 <= row < height,
    ensures
        0 <= pixel_index(width, column, row) < width * height,
        row * width <= width * height - width,
{
    assert(row * width + width <= height * width) by (nonlinear_arith)
        requires
            0 <= row < height,
            0 < width,
    ;
    assert(row * width >= 0) by (nonlinear_arith)
        requires
            0 <= row,
            0 < width,
    ;
    assert(height * width == width * height) by (nonlinear_arith);
}

/// Two pixels of a raster share an index only if they are the same pixel.
pub proof fn lemma_index_injective(width: int, c1: int, r1: int, c2: int, r2: int)
    requires
        0 <= c1 < width,
        0 <= c2 < width,
        0 <= r1,
        0 <= r2,
        pixel_index(width, c1, r1) == pixel_index(width, c2, r2),
    ensures
        c1 == c2,
        r1 == r2,
{
    if r1 < r2 {
        assert(r1 * width + width <= r2 * width) by (nonlinear_arith)
            requires
                r1 < r2,
                0 < width,
        ;
    } else if r2 < r1 {
        assert(r2 * width + width <= r1 * width) by (nonlinear_arith)
            requires
                r2 < r1,
                0 < width,
        ;
    }
}

} // verus!
