use vstd::prelude::*;
use image::ImageEncoder;
use crate::color::Color;
use crate::palette::{generate_palette, palette_of};
use crate::quantize::{
    PixelGrid,
    QuantizeError,
    direct_pixels,
    dithered_pixels,
    quantize,
};

verus! {

#[verifier::external_type_specification]
#[verifier::external_body]
pub struct ExImageError(image::ImageError);

/// The PNG stream for an 8-bit RGB image, or nothing when encoding fails.
pub uninterp spec fn png_encoding(width: u32, height: u32, samples: Seq<u8>) -> Option<Seq<u8>>;

/// Relies on image::load_from_memory and DynamicImage::to_rgb8: on success it
/// yields the dimensions and the row-major RGB samples, three per pixel, as
/// to_rgb8 fills a fresh `width` by `height` RGB buffer. The samples are not a
/// function of the bytes alone: some decoders (JPEG's SIMD transforms, HDR's
/// floating-point tone mapping) give results that differ between machines.
#[verifier::external_body]
fn decode_rgb8(data: &[u8]) -> (r: Result<(u32, u32, Vec<u8>), image::ImageError>)
    ensures
        r matches Ok((w, h, raw)) ==> raw@.len() == 3 * w * h,
{
    let rgb = image::load_from_memory(data)?.to_rgb8();
    Ok((rgb.width(), rgb.height(), rgb.into_raw()))
}

/// Relies on image's PngEncoder::write_image with ColorType::Rgb8, which
/// panics unless there are three samples per pixel: the stream depends on the
/// dimensions and the samples alone.
#[verifier::external_body]
fn encode_png(width: u32, height: u32, samples: &[u8]) -> (r: Result<Vec<u8>, image::ImageError>)
    requires
        samples@.len() == 3 * width * height,
    ensures
        r matches Ok(b) ==> png_encoding(width, height, samples@) == Some(b@),
        r is Err ==> png_encoding(width, height, samples@) is None,
{
    let mut out: Vec<u8> = Vec::new();
    image::codecs::png::PngEncoder::new(&mut out).write_image(
        samples,
        width,
        height,
        image::ColorType::Rgb8,
    )?;
    Ok(out)
}

/// Relies on the Display impl of image::ImageError for a readable message.
#[verifier::external_body]
fn image_error_message(e: &image::ImageError) -> String {
    e.to_string()
}

/// Why an encoded image could not be converted.
#[derive(Clone, Debug, PartialEq, Eq)]
pub enum ConvertError {
    /// The input is not a readable image; carries the decoder's message.
    Decode(String),
    /// The palette has no entry to map pixels to.
    EmptyPalette,
    /// The decoded samples do not fill the stated dimensions.
    DimensionMismatch,
    /// The output could not be written as PNG; carries the encoder's message.
    Encode(String),
}

/// Pixels read from row-major RGB samples, three per pixel.
pub open spec fn colors_of(raw: Seq<u8>) -> Seq<Color> {
    Seq::new(raw.len() / 3, |i: int| Color { r: raw[3 * i], g: raw[3 * i + 1], b: raw[3 * i + 2] })
}

pub open spec fn channel(c: Color, i: int) -> u8 {
    if i == 0 {
        c.r
    } else if i == 1 {
        c.g
    } else {
        c.b
    }
}

/// Row-major RGB samples of pixels, three per pixel.
pub open spec fn samples_of(px: Seq<Color>) -> Seq<u8> {
    Seq::new(3 * px.len(), |i: int| channel(px[i / 3], i % 3))
}

/// Output pixels for either mode.
pub open spec fn quantized_pixels(
    px: Seq<Color>,
    p: Seq<Color>,
    dither: bool,
    w: int,
    h: int,
) -> Seq<Color> {
    if dither {
        dithered_pixels(px, p, w, h)
    } else {
        direct_pixels(px, p)
    }
}

/// Output samples for decoded samples `raw` of a `w` by `h` image.
pub open spec fn converted_samples(w: u32, h: u32, raw: Seq<u8>, size: usize, dither: bool) -> Seq<
    u8,
> {
    samples_of(quantized_pixels(colors_of(raw), palette_of(size as int), dither, w as int, h as int))
}

/// Quantizes row-major RGB samples of a `width` by `height` image to the
/// palette built for `palette_size`, and returns the output samples. Fails
/// when there are not exactly three samples per pixel.
pub fn quantize_rgb_samples(
    width: u32,
    height: u32,
    raw: &[u8],
    palette_size: usize,
    dithering: bool,
) -> (r: Result<Vec<u8>, QuantizeError>)
    ensures
        raw@.len() != 3 * width * height ==> r == Err::<Vec<u8>, QuantizeError>(
            QuantizeError::DimensionMismatch,
        ),
        raw@.len() == 3 * width * height ==> (r matches Ok(out) && out@ == converted_samples(
            width,
            height,
            raw@,
            palette_size,
            dithering,
        )),
        r matches Ok(out) ==> out@.len() == raw@.len(),
{
    let len = raw.len();
    let w = width as usize;
    let h = height as usize;
    assert(3 * width * height == 3 * (w * h)) by (nonlinear_arith)
        requires
            w == width,
            h == height,
    ;
    let n = match w.checked_mul(h) {
        Some(n) => n,
        None => {
            return Err(QuantizeError::DimensionMismatch);
        },
    };
    if n > len / 3 || n * 3 != len {
        return Err(QuantizeError::DimensionMismatch);
    }
    let mut pixels: Vec<Color> = Vec::new();
    let mut i: usize = 0;
    while i < n
        invariant
            i <= n,
            3 * n == raw@.len(),
            len == raw@.len(),
            pixels@ =~= colors_of(raw@).take(i as int),
        decreases n - i,
    {
        pixels.push(Color { r: raw[3 * i], g: raw[3 * i + 1], b: raw[3 * i + 2] });
        i = i + 1;
    }
    assert(pixels@ =~= colors_of(raw@));
    let grid = PixelGrid { width: w, height: h, pixels };
    let palette = generate_palette(palette_size);
    let out = match quantize(&grid, palette.as_slice(), dithering) {
        Ok(g) => g,
        Err(e) => {
            return Err(e);
        },
    };
    let ghost q = out.pixels@;
    let mut samples: Vec<u8> = Vec::new();
    let mut j: usize = 0;
    while j < out.pixels.len()
        invariant
            j <= q.len(),
            q == out.pixels@,
            q.len() == n,
            samples@ =~= samples_of(q).take(3 * j),
        decreases q.len() - j,
    {
        let c = out.pixels[j];
        samples.push(c.r);
        samples.push(c.g);
        samples.push(c.b);
        j = j + 1;
    }
    assert(samples@ =~= samples_of(q));
    Ok(samples)
}

/// Converts an encoded image to a PNG whose pixels are drawn from the palette
/// built for `palette_size`, directly or with error diffusion. Whatever the
/// decoder yields, the output is the PNG of its quantized samples; the only
/// failures are the decoder's and the encoder's.
pub fn convert_to_8bit(image_data: &[u8], palette_size: usize, dithering: bool) -> (r: Result<
    Vec<u8>,
    ConvertError,
>)
    ensures
        r matches Ok(out) ==> exists|w: u32, h: u32, raw: Seq<u8>|
            #![trigger png_encoding(w, h, converted_samples(w, h, raw, palette_size, dithering))]
            raw.len() == 3 * w * h && png_encoding(
                w,
                h,
                converted_samples(w, h, raw, palette_size, dithering),
            ) == Some(out@),
        r matches Err(ConvertError::Encode(_)) ==> exists|w: u32, h: u32, raw: Seq<u8>|
            #![trigger png_encoding(w, h, converted_samples(w, h, raw, palette_size, dithering))]
            raw.len() == 3 * w * h && png_encoding(
                w,
                h,
                converted_samples(w, h, raw, palette_size, dithering),
            ) is None,
        !(r matches Err(ConvertError::EmptyPalette)),
        !(r matches Err(ConvertError::DimensionMismatch)),
{
    let (width, height, raw) = match decode_rgb8(image_data) {
        Ok(d) => d,
        Err(e) => {
            return Err(ConvertError::Decode(image_error_message(&e)));
        },
    };
    let samples = match quantize_rgb_samples(width, height, raw.as_slice(), palette_size, dithering) {
        Ok(s) => s,
        Err(QuantizeError::EmptyPalette) => {
            return Err(ConvertError::EmptyPalette);
        },
        Err(QuantizeError::DimensionMismatch) => {
            return Err(ConvertError::DimensionMismatch);
        },
    };
    let ghost converted = converted_samples(width, height, raw@, palette_size, dithering);
    assert(png_encoding(width, height, converted) == png_encoding(
        width,
        height,
        converted_samples(width, height, raw@, palette_size, dithering),
    ));
    match encode_png(width, height, samples.as_slice()) {
        Ok(png) => Ok(png),
        Err(e) => Err(ConvertError::Encode(image_error_message(&e))),
    }
}

} // verus!
