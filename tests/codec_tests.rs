use rust_8bit::codec::{convert_to_8bit, quantize_rgb_samples, ConvertError};
use rust_8bit::quantize::QuantizeError;

fn png_of(width: u32, height: u32, samples: Vec<u8>) -> Vec<u8> {
    let img = image::RgbImage::from_raw(width, height, samples).unwrap();
    let mut bytes = std::io::Cursor::new(Vec::new());
    img.write_to(&mut bytes, image::ImageOutputFormat::Png).unwrap();
    bytes.into_inner()
}

#[test]
fn samples_are_quantized() {
    let raw = vec![10, 10, 10, 250, 250, 250];
    let out = quantize_rgb_samples(2, 1, &raw, 2, false).unwrap();
    assert_eq!(out, vec![0, 0, 0, 255, 255, 255]);
}

#[test]
fn short_samples_are_rejected() {
    let raw = vec![10, 10, 10, 250, 250];
    assert_eq!(quantize_rgb_samples(2, 1, &raw, 2, false), Err(QuantizeError::DimensionMismatch));
    assert_eq!(quantize_rgb_samples(u32::MAX, u32::MAX, &raw, 2, true), Err(QuantizeError::DimensionMismatch));
}

#[test]
fn png_round_trip_through_conversion() {
    let input = png_of(2, 1, vec![10, 10, 10, 250, 250, 250]);
    let output = convert_to_8bit(&input, 2, false).unwrap();
    assert_ne!(output, input);
    let decoded = image::load_from_memory(&output).unwrap().to_rgb8();
    assert_eq!(decoded.dimensions(), (2, 1));
    assert_eq!(decoded.into_raw(), vec![0, 0, 0, 255, 255, 255]);
}

#[test]
fn png_conversion_with_dithering() {
    let input = png_of(2, 2, vec![128; 12]);
    let output = convert_to_8bit(&input, 2, true).unwrap();
    let decoded = image::load_from_memory(&output).unwrap().to_rgb8();
    assert_eq!(decoded.into_raw(), vec![255, 255, 255, 0, 0, 0, 0, 0, 0, 255, 255, 255]);
}

#[test]
fn unreadable_bytes_are_a_decode_error() {
    match convert_to_8bit(&[1, 2, 3, 4], 16, false) {
        Err(ConvertError::Decode(msg)) => assert!(!msg.is_empty()),
        other => panic!("unexpected result: {:?}", other),
    }
}
