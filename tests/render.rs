use mandelbrot::escape::escape_time;
use mandelbrot::render::{band_height, intensity, render, render_rows, RenderError, ITERATION_LIMIT};
use num::Complex;

fn point(bounds: (usize, usize), pixel: (usize, usize), ul: Complex<f64>, lr: Complex<f64>) -> Complex<f64> {
    let (width, height) = (lr.re - ul.re, ul.im - lr.im);
    Complex {
        re: ul.re + pixel.0 as f64 * width / bounds.0 as f64,
        im: ul.im - pixel.1 as f64 * height / bounds.1 as f64,
    }
}

fn evaluator(bounds: (usize, usize)) -> impl Fn(usize, usize) -> Option<u32> {
    let ul = Complex { re: -1.0, im: 1.0 };
    let lr = Complex { re: 1.0, im: -1.0 };
    move |column: usize, row: usize| {
        let c = point(bounds, (column, row), ul, lr);
        let step = |z: Complex<f64>| {
            let next = z * z + c;
            (next, next.norm_sqr() > 4.0)
        };
        escape_time(Complex { re: 0.0, im: 0.0 }, &step, ITERATION_LIMIT)
    }
}

#[test]
fn intensity_values() {
    assert_eq!(intensity(None), 0);
    assert_eq!(intensity(Some(0)), 255);
    assert_eq!(intensity(Some(2)), 253);
    assert_eq!(intensity(Some(254)), 1);
}

#[test]
fn mismatched_buffer_is_refused_untouched() {
    let mut pixels = vec![7u8; 10];
    let eval = evaluator((4, 3));
    assert_eq!(render(&mut pixels, (4, 3), &eval), Err(RenderError::SizeMismatch));
    assert_eq!(pixels, vec![7u8; 10]);
    let mut empty: Vec<u8> = Vec::new();
    assert_eq!(render(&mut empty, (usize::MAX, 2), &eval), Err(RenderError::SizeMismatch));
}

#[test]
fn empty_grid_renders_nothing() {
    let mut pixels: Vec<u8> = Vec::new();
    assert_eq!(render(&mut pixels, (0, 5), &evaluator((1, 1))), Ok(()));
    assert_eq!(render(&mut pixels, (5, 0), &evaluator((1, 1))), Ok(()));
}

#[test]
fn full_grid_corner_and_center() {
    let bounds = (100, 100);
    let mut pixels = vec![9u8; 100 * 100];
    assert_eq!(render(&mut pixels, bounds, &evaluator(bounds)), Ok(()));
    // Pixel (0, 0) is the point -1+i, which escapes at iteration 2.
    assert_eq!(pixels[0], 253);
    // Pixel (50, 50) is the origin, inside the set.
    assert_eq!(pixels[50 * 100 + 50], 0);
    // Pixel (25, 75) is -0.5-0.5i, inside the set.
    assert_eq!(pixels[75 * 100 + 25], 0);
}

#[test]
fn banded_render_matches_whole() {
    let bounds = (40, 30);
    let eval = evaluator(bounds);
    let mut whole = vec![0u8; 40 * 30];
    assert_eq!(render(&mut whole, bounds, &eval), Ok(()));
    let mut banded = vec![0u8; 40 * 30];
    for (i, band) in banded.chunks_mut(40 * 7).enumerate() {
        render_rows(band, 40, i * 7, &eval);
    }
    assert_eq!(whole, banded);
}

#[test]
fn band_height_covers_all_rows() {
    assert_eq!(band_height(30, 4), 8);
    assert_eq!(band_height(32, 4), 8);
    assert_eq!(band_height(33, 4), 9);
    assert_eq!(band_height(0, 8), 0);
    assert_eq!(band_height(3, 8), 1);
    assert_eq!(band_height(usize::MAX, 1), usize::MAX);
}

#[test]
fn bands_of_computed_height_match_whole() {
    let bounds = (17, 23);
    let eval = evaluator(bounds);
    let mut whole = vec![0u8; 17 * 23];
    assert_eq!(render(&mut whole, bounds, &eval), Ok(()));
    let rows = band_height(23, 5);
    let mut banded = vec![0u8; 17 * 23];
    for (i, band) in banded.chunks_mut(rows * 17).enumerate() {
        render_rows(band, 17, i * rows, &eval);
    }
    assert_eq!(whole, banded);
}
