use rust_8bit::color::{color_distance, find_nearest_color, Color};
use rust_8bit::palette::generate_palette;
use rust_8bit::quantize::QuantizeError;

fn c(r: u8, g: u8, b: u8) -> Color {
    Color { r, g, b }
}

fn anchors() -> Vec<Color> {
    vec![
        c(0, 0, 0),
        c(255, 255, 255),
        c(255, 0, 0),
        c(0, 255, 0),
        c(0, 0, 255),
        c(255, 255, 0),
        c(255, 0, 255),
        c(0, 255, 255),
    ]
}

fn has_duplicates(p: &[Color]) -> bool {
    for i in 0..p.len() {
        for j in 0..i {
            if p[i] == p[j] {
                return true;
            }
        }
    }
    false
}

#[test]
fn size_zero_is_clamped_to_one() {
    assert_eq!(generate_palette(0), vec![c(0, 0, 0)]);
    assert_eq!(generate_palette(0), generate_palette(1));
}

#[test]
fn size_above_limit_is_clamped() {
    assert_eq!(generate_palette(300), generate_palette(256));
    assert_eq!(generate_palette(usize::MAX), generate_palette(256));
}

#[test]
fn small_sizes_truncate_anchors() {
    assert_eq!(generate_palette(2), vec![c(0, 0, 0), c(255, 255, 255)]);
    for n in 1..=8 {
        assert_eq!(generate_palette(n), anchors()[..n].to_vec());
    }
}

#[test]
fn size_nine_finds_no_new_grid_color() {
    // one step per axis gives only the cube's corners, all of them anchors
    assert_eq!(generate_palette(9), anchors());
}

#[test]
fn size_ten_uses_stride_127() {
    let mut expected = anchors();
    expected.push(c(0, 0, 127));
    expected.push(c(0, 0, 254));
    assert_eq!(generate_palette(10), expected);
}

#[test]
fn size_sixteen_enumerates_blue_then_green() {
    let mut expected = anchors();
    for (g, b) in [(0, 127), (0, 254), (127, 0), (127, 127), (127, 254), (254, 0), (254, 127), (254, 254)] {
        expected.push(c(0, g, b));
    }
    assert_eq!(generate_palette(16), expected);
}

#[test]
fn full_palette_has_256_entries() {
    let p = generate_palette(256);
    assert_eq!(p.len(), 256);
    assert_eq!(p[..8].to_vec(), anchors());
    assert_eq!(p[8], c(0, 0, 36));
    assert_eq!(p[255], c(108, 252, 0));
}

#[test]
fn palettes_are_bounded_unique_and_anchored() {
    for size in 0..=260usize {
        let p = generate_palette(size);
        let n = size.clamp(1, 256);
        assert!(p.len() <= n);
        assert!(p.len() >= n.min(8));
        assert!(!has_duplicates(&p));
        if n >= 8 {
            assert_eq!(p[..8].to_vec(), anchors());
        }
    }
}

#[test]
fn palette_is_deterministic() {
    for size in [1usize, 7, 8, 9, 50, 100, 255, 256] {
        assert_eq!(generate_palette(size), generate_palette(size));
    }
}

#[test]
fn distance_is_squared_euclidean() {
    assert_eq!(color_distance(&c(0, 0, 0), &c(255, 255, 255)), 195075);
    assert_eq!(color_distance(&c(10, 20, 30), &c(13, 16, 30)), 25);
    assert_eq!(color_distance(&c(7, 7, 7), &c(7, 7, 7)), 0);
}

#[test]
fn nearest_prefers_first_on_ties() {
    let p = vec![c(10, 0, 0), c(0, 10, 0)];
    assert_eq!(find_nearest_color(&c(0, 0, 0), &p), Ok(c(10, 0, 0)));
    assert_eq!(find_nearest_color(&c(0, 9, 0), &p), Ok(c(0, 10, 0)));
}

#[test]
fn nearest_is_closest_member() {
    let p = generate_palette(64);
    for probe in [c(3, 200, 17), c(128, 128, 128), c(250, 5, 90)] {
        let best = find_nearest_color(&probe, &p).unwrap();
        assert!(p.contains(&best));
        let d = color_distance(&probe, &best);
        let first = p.iter().position(|q| color_distance(&probe, q) == d).unwrap();
        assert_eq!(p[first], best);
        assert!(p.iter().all(|q| color_distance(&probe, q) >= d));
    }
}

#[test]
fn nearest_on_empty_palette_is_none() {
    assert_eq!(find_nearest_color(&c(1, 2, 3), &[]), Err(QuantizeError::EmptyPalette));
}
