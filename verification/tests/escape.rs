use mandelbrot::escape::{complex_square_add_loop, escape_time, ROUNDS};
use mandelbrot::raster::{blank, render, Bounds};
use num::Complex;

fn left_the_disk(z: &Complex<f64>) -> bool {
    z.norm_sqr() > 4.0
}

fn square_add(z: &Complex<f64>, c: &Complex<f64>) -> Complex<f64> {
    *z * *z + *c
}

fn mandelbrot_time(c: Complex<f64>, limit: usize) -> Option<usize> {
    escape_time(c, limit, Complex { re: 0.0, im: 0.0 }, left_the_disk, square_add)
}

#[test]
fn test_escape_time() {
    println!("{:?}", mandelbrot_time(Complex { re: 1.0, im: 1.0 }, 10))
}

#[test]
fn escape_time_counts_the_steps_to_the_first_escape() {
    assert_eq!(mandelbrot_time(Complex { re: 1.0, im: 1.0 }, 10), Some(2));
    assert_eq!(mandelbrot_time(Complex { re: 2.0, im: 2.0 }, 10), Some(1));
    assert_eq!(mandelbrot_time(Complex { re: 1.0, im: 0.0 }, 10), Some(3));
}

#[test]
fn escape_time_is_below_the_limit() {
    assert_eq!(mandelbrot_time(Complex { re: 1.0, im: 1.0 }, 3), Some(2));
    assert_eq!(mandelbrot_time(Complex { re: 1.0, im: 1.0 }, 2), None);
    assert_eq!(mandelbrot_time(Complex { re: 1.0, im: 1.0 }, 1), None);
    assert_eq!(mandelbrot_time(Complex { re: 1.0, im: 1.0 }, 0), None);
}

#[test]
fn the_origin_never_escapes() {
    for limit in [1usize, 2, 10, 255, 1000] {
        assert_eq!(mandelbrot_time(Complex { re: 0.0, im: 0.0 }, limit), None);
    }
}

#[test]
fn points_of_the_set_do_not_escape() {
    assert_eq!(mandelbrot_time(Complex { re: -1.0, im: 0.0 }, 255), None);
    assert_eq!(mandelbrot_time(Complex { re: 0.0, im: 1.0 }, 255), None);
}

#[test]
fn escape_time_on_integers() {
    let doubled = escape_time(
        3u64,
        10,
        1u64,
        |z: &u64| *z > 40,
        |z: &u64, c: &u64| 2 * *z + *c,
    );
    assert_eq!(doubled, Some(4));
    let stuck = escape_time(0u64, 10, 0u64, |z: &u64| *z > 0, |z: &u64, c: &u64| 2 * *z + *c);
    assert_eq!(stuck, None);
    let at_once = escape_time(0u64, 10, 5u64, |z: &u64| *z > 0, |z: &u64, c: &u64| *z + *c);
    assert_eq!(at_once, Some(0));
}

#[test]
fn render_with_the_escape_time() {
    let bounds = Bounds::new(3, 1).unwrap();
    let mut pixels = blank(bounds).unwrap();
    let points = [
        Complex { re: 0.0, im: 0.0 },
        Complex { re: 1.0, im: 1.0 },
        Complex { re: 2.0, im: 2.0 },
    ];
    render(&mut pixels, bounds, |column, _row, limit| mandelbrot_time(points[column], limit));
    assert_eq!(pixels, vec![0, 253, 254]);
}

#[test]
fn test_complex_square_add_loop() {
    println!(
        "{}",
        complex_square_add_loop(Complex { re: 1.0, im: 1.0 }, Complex { re: 0.0, im: 0.0 }, square_add)
    );
}

#[test]
fn square_add_loop_takes_ten_steps() {
    assert_eq!(ROUNDS, 10);
    assert_eq!(complex_square_add_loop(1u64, 0u64, |z: &u64, c: &u64| *z + *c), 10);
    assert_eq!(complex_square_add_loop(0u64, 1u64, |z: &u64, c: &u64| 2 * *z + *c), 1024);
    assert_eq!(
        complex_square_add_loop(Complex { re: 0.0, im: 0.0 }, Complex { re: 0.0, im: 0.0 }, square_add),
        Complex { re: 0.0, im: 0.0 }
    );
    assert_eq!(
        complex_square_add_loop(Complex { re: -1.0, im: 0.0 }, Complex { re: 0.0, im: 0.0 }, square_add),
        Complex { re: 0.0, im: 0.0 }
    );
}
