//! Reduced-palette ("8-bit") rendering of RGB images: a deterministic palette
//! builder and a quantizer with direct and error-diffusion modes.

pub mod color;
pub mod palette;
pub mod quantize;
pub mod codec;
