//! Dominant-color extraction: decoding of encoded images, sampling of raw RGB
//! pixel buffers, median-cut quantization and hexadecimal formatting.

pub mod cluster;
pub mod color;
pub mod image_colors;
pub mod quantize;
pub mod ranking;
pub mod sampler;
pub mod service;

pub use color::{format_as_hex, format_hex, hex_chars, DominantColor, Rgb};
pub use image_colors::{extract_colors_from_image, ImageColorError};
pub use quantize::{
    extract_dominant_colors, QuantizationError, QuantizeConfig, DEFAULT_MAX_COLORS,
    DEFAULT_MAX_SAMPLES,
};
pub use sampler::sample_pixels;
