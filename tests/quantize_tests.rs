use rust_8bit::color::Color;
use rust_8bit::palette::generate_palette;
use rust_8bit::quantize::{quantize, PixelGrid, QuantizeError};

fn c(r: u8, g: u8, b: u8) -> Color {
    Color { r, g, b }
}

fn gray(v: u8) -> Color {
    c(v, v, v)
}

fn grid(width: usize, height: usize, pixels: Vec<Color>) -> PixelGrid {
    PixelGrid { width, height, pixels }
}

#[test]
fn two_pixels_direct_mode() {
    let g = grid(2, 1, vec![gray(10), gray(250)]);
    let out = quantize(&g, &generate_palette(2), false).unwrap();
    assert_eq!(out.pixels, vec![gray(0), gray(255)]);
    assert_eq!((out.width, out.height), (2, 1));
}

#[test]
fn empty_palette_is_rejected() {
    let g = grid(2, 1, vec![gray(10), gray(250)]);
    assert_eq!(quantize(&g, &[], false).err(), Some(QuantizeError::EmptyPalette));
    assert_eq!(quantize(&g, &[], true).err(), Some(QuantizeError::EmptyPalette));
}

#[test]
fn inconsistent_grid_is_rejected() {
    let g = grid(2, 2, vec![gray(1), gray(2), gray(3)]);
    let p = generate_palette(8);
    assert_eq!(quantize(&g, &p, false).err(), Some(QuantizeError::DimensionMismatch));
    assert_eq!(quantize(&g, &p, true).err(), Some(QuantizeError::DimensionMismatch));
    let huge = grid(usize::MAX, 2, vec![]);
    assert_eq!(quantize(&huge, &p, false).err(), Some(QuantizeError::DimensionMismatch));
}

#[test]
fn empty_grid_stays_empty() {
    let g = grid(0, 5, vec![]);
    let out = quantize(&g, &generate_palette(4), true).unwrap();
    assert!(out.pixels.is_empty());
    assert_eq!((out.width, out.height), (0, 5));
}

#[test]
fn dimensions_are_preserved_in_both_modes() {
    let pixels: Vec<Color> = (0..12u8).map(|i| c(i * 20, 255 - i * 20, i * 7)).collect();
    let g = grid(4, 3, pixels);
    let p = generate_palette(20);
    for dither in [false, true] {
        let out = quantize(&g, &p, dither).unwrap();
        assert_eq!((out.width, out.height, out.pixels.len()), (4, 3, 12));
        assert!(out.pixels.iter().all(|q| p.contains(q)));
    }
}

#[test]
fn direct_mode_is_idempotent() {
    let pixels: Vec<Color> = (0..30u8).map(|i| c(i * 8, i * 3, 200 - i * 5)).collect();
    let g = grid(6, 5, pixels);
    let p = generate_palette(40);
    let once = quantize(&g, &p, false).unwrap();
    let twice = quantize(&once, &p, false).unwrap();
    assert_eq!(once.pixels, twice.pixels);
}

#[test]
fn dithering_carries_error_to_the_right() {
    let g = grid(2, 1, vec![gray(100), gray(100)]);
    let p = generate_palette(2);
    let direct = quantize(&g, &p, false).unwrap();
    assert_eq!(direct.pixels, vec![gray(0), gray(0)]);
    let dithered = quantize(&g, &p, true).unwrap();
    assert_eq!(dithered.pixels, vec![gray(0), gray(255)]);
}

#[test]
fn dithering_carries_error_downward() {
    let g = grid(2, 2, vec![gray(128); 4]);
    let out = quantize(&g, &generate_palette(2), true).unwrap();
    assert_eq!(out.pixels, vec![gray(255), gray(0), gray(0), gray(255)]);
}

#[test]
fn dithering_has_less_drift_than_direct_mapping() {
    let width = 32usize;
    let height = 8usize;
    let pixels: Vec<Color> = vec![gray(100); width * height];
    let g = grid(width, height, pixels.clone());
    let p = generate_palette(2);
    let drift = |out: &PixelGrid| -> i64 {
        out.pixels.iter().zip(pixels.iter()).map(|(o, i)| o.r as i64 - i.r as i64).sum::<i64>()
    };
    let direct = drift(&quantize(&g, &p, false).unwrap());
    let dithered = drift(&quantize(&g, &p, true).unwrap());
    assert_eq!(direct, -100 * (width * height) as i64);
    assert!(dithered.abs() * 10 < direct.abs());
}

#[test]
fn dithering_an_exact_palette_image_is_lossless() {
    let p = generate_palette(8);
    let pixels: Vec<Color> = (0..24).map(|i| p[i % 8]).collect();
    let g = grid(6, 4, pixels.clone());
    assert_eq!(quantize(&g, &p, true).unwrap().pixels, pixels);
}
