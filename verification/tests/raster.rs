use mandelbrot::error::RenderError;
use mandelbrot::raster::{blank, image_dimensions, render, shade, Bounds, ESCAPE_LIMIT};

#[test]
fn main_test_pixel_to_point() {
    let bounds = (4, 5);
    let pixels = vec![0; bounds.0 * bounds.1];
    println!("{:?}", pixels);
    let chunks: Vec<_> = pixels.chunks(3).collect();
    println!("{:?}", chunks);

    let made = blank(Bounds::new(bounds.0, bounds.1).unwrap()).unwrap();
    assert_eq!(made, pixels);
    assert_eq!(chunks.len(), 7);
    assert_eq!(chunks[6], &[0u8, 0][..]);
}

#[test]
fn bounds_need_two_positive_dimensions() {
    assert_eq!(Bounds::new(3, 2), Ok(Bounds { width: 3, height: 2 }));
    assert_eq!(Bounds::new(1, 1), Ok(Bounds { width: 1, height: 1 }));
    assert_eq!(Bounds::new(0, 2), Err(RenderError::InvalidDimension));
    assert_eq!(Bounds::new(3, 0), Err(RenderError::InvalidDimension));
    assert_eq!(Bounds::new(0, 0), Err(RenderError::InvalidDimension));
}

#[test]
fn bounds_too_large_to_address_are_refused() {
    assert_eq!(Bounds::new(usize::MAX, 2), Err(RenderError::InvalidDimension));
    assert_eq!(
        Bounds::new(usize::MAX, 1),
        Ok(Bounds { width: usize::MAX, height: 1 })
    );
}

#[test]
fn blank_has_one_black_byte_for_each_pixel() {
    let pixels = blank(Bounds { width: 3, height: 2 }).unwrap();
    assert_eq!(pixels, vec![0u8; 6]);
}

#[test]
fn blank_refuses_empty_rasters() {
    assert_eq!(blank(Bounds { width: 0, height: 2 }), Err(RenderError::InvalidDimension));
    assert_eq!(blank(Bounds { width: 2, height: 0 }), Err(RenderError::InvalidDimension));
    assert_eq!(
        blank(Bounds { width: usize::MAX, height: 2 }),
        Err(RenderError::InvalidDimension)
    );
}

#[test]
fn the_limit_fits_the_byte_range() {
    assert_eq!(ESCAPE_LIMIT, 255);
}

#[test]
fn shade_is_black_inside_and_bright_for_fast_escape() {
    assert_eq!(shade(None), 0);
    assert_eq!(shade(Some(0)), 255);
    assert_eq!(shade(Some(1)), 254);
    assert_eq!(shade(Some(100)), 155);
    assert_eq!(shade(Some(254)), 1);
    assert_eq!(shade(Some(255)), 0);
}

#[test]
fn shade_reduces_the_count_to_a_byte_first() {
    assert_eq!(shade(Some(256)), 255);
    assert_eq!(shade(Some(257)), 254);
    assert_eq!(shade(Some(511)), 0);
}

#[test]
fn render_fills_rows_in_order() {
    let bounds = Bounds { width: 3, height: 2 };
    let mut pixels = vec![7u8; 6];
    render(&mut pixels, bounds, |column, row, _limit| Some(10 * row + column));
    assert_eq!(pixels, vec![255, 254, 253, 245, 244, 243]);
}

#[test]
fn render_asks_at_the_limit() {
    let bounds = Bounds { width: 2, height: 1 };
    let mut pixels = vec![0u8; 2];
    render(&mut pixels, bounds, |_column, _row, limit| Some(limit - 5));
    assert_eq!(pixels, vec![5, 5]);
}

#[test]
fn render_paints_members_black() {
    let bounds = Bounds { width: 2, height: 2 };
    let mut pixels = vec![9u8; 4];
    render(&mut pixels, bounds, |column, row, _limit| {
        if column == row {
            None
        } else {
            Some(0)
        }
    });
    assert_eq!(pixels, vec![0, 255, 255, 0]);
}

#[test]
fn render_single_pixel() {
    let bounds = Bounds::new(1, 1).unwrap();
    let mut pixels = blank(bounds).unwrap();
    render(&mut pixels, bounds, |column, row, limit| {
        assert_eq!((column, row, limit), (0, 0, 255));
        Some(3)
    });
    assert_eq!(pixels, vec![252]);
}

#[test]
fn render_of_no_rows_writes_nothing() {
    let bounds = Bounds { width: 4, height: 0 };
    let mut pixels: Vec<u8> = Vec::new();
    render(&mut pixels, bounds, |_column, _row, _limit| -> Option<usize> {
        panic!("no pixel to ask for")
    });
    assert!(pixels.is_empty());
}

#[test]
fn image_dimensions_of_a_finished_buffer() {
    let bounds = Bounds { width: 3, height: 2 };
    assert_eq!(image_dimensions(&[0u8; 6], bounds), Ok((3, 2)));
    assert_eq!(image_dimensions(&[], Bounds { width: 0, height: 7 }), Ok((0, 7)));
}

#[test]
fn image_dimensions_refuses_a_buffer_of_another_size() {
    let bounds = Bounds { width: 3, height: 2 };
    assert_eq!(image_dimensions(&[0u8; 5], bounds), Err(RenderError::EncodingFailure));
    assert_eq!(image_dimensions(&[0u8; 7], bounds), Err(RenderError::EncodingFailure));
    assert_eq!(
        image_dimensions(&[], Bounds { width: usize::MAX, height: 2 }),
        Err(RenderError::EncodingFailure)
    );
}

#[test]
fn image_dimensions_refuses_what_does_not_fit_in_32_bits() {
    let wide = Bounds { width: 1usize << 32, height: 0 };
    assert_eq!(image_dimensions(&[], wide), Err(RenderError::EncodingFailure));
    let high = Bounds { width: 0, height: 1usize << 32 };
    assert_eq!(image_dimensions(&[], high), Err(RenderError::EncodingFailure));
    let fits = Bounds { width: 0xffff_ffff, height: 0 };
    assert_eq!(image_dimensions(&[], fits), Ok((0xffff_ffff, 0)));
}

#[test]
fn the_three_failures_are_distinct() {
    assert_ne!(RenderError::InvalidDimension, RenderError::WorkerFailure);
    assert_ne!(RenderError::InvalidDimension, RenderError::EncodingFailure);
    assert_ne!(RenderError::WorkerFailure, RenderError::EncodingFailure);
}
