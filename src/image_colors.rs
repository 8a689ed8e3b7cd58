//! Dominant colors of an encoded image.

use vstd::prelude::*;

use crate::color::DominantColor;
use crate::quantize::{extract_dominant_colors, extraction_outcome, QuantizationError, QuantizeConfig};

verus! {

/// The pixels of an encoded image (PNG, JPEG) as row-major R, G, B bytes, or
/// `None` where its leading bytes match no built-in format or it does not
/// decode.
pub uninterp spec fn decoded_rgb(bytes: Seq<u8>) -> Option<Seq<u8>>;

/// Relies on `image::guess_format`, which picks the format from the built-in
/// table of leading signature bytes, on `image::load_from_memory_with_format`,
/// which decodes with that built-in format's decoder (no registered hook is
/// consulted), and on `DynamicImage::to_rgb8` and `ImageBuffer::into_raw` to
/// lay the pixels out as R, G, B bytes. So the outcome depends on the bytes
/// alone.
#[verifier::external_body]
fn decode_rgb(bytes: &Vec<u8>) -> (r: Option<Vec<u8>>)
    ensures
        match r {
            Some(v) => decoded_rgb(bytes@) == Some(v@),
            None => decoded_rgb(bytes@) is None,
        },
{
    image::guess_format(bytes)
        .and_then(|format| image::load_from_memory_with_format(bytes, format))
        .ok()
        .map(|img| img.to_rgb8().into_raw())
}

/// Why an encoded image yields no palette.
#[derive(Clone, Copy, Debug, PartialEq, Eq, Structural)]
pub enum ImageColorError {
    /// The bytes are not an image that can be decoded.
    Undecodable,
    /// The decoded pixels yield no palette.
    Quantization(QuantizationError),
}

/// The dominant colors of an encoded image: it is decoded into R, G, B
/// pixels, which `extract_dominant_colors` then reduces.
pub fn extract_colors_from_image(image_bytes: &Vec<u8>, config: &QuantizeConfig) -> (res: Result<
    Vec<DominantColor>,
    ImageColorError,
>)
    requires
        config.max_colors >= 1,
    ensures
        decoded_rgb(image_bytes@) is None <==> res == Err::<Vec<DominantColor>, ImageColorError>(
            ImageColorError::Undecodable,
        ),
        decoded_rgb(image_bytes@) is Some ==> match res {
            Err(ImageColorError::Quantization(e)) => extraction_outcome(
                decoded_rgb(image_bytes@)->0,
                *config,
                Err(e),
            ),
            Err(ImageColorError::Undecodable) => false,
            Ok(p) => extraction_outcome(decoded_rgb(image_bytes@)->0, *config, Ok(p@)),
        },
{
    match decode_rgb(image_bytes) {
        None => Err(ImageColorError::Undecodable),
        Some(pixels) => match extract_dominant_colors(&pixels, config) {
            Ok(p) => Ok(p),
            Err(e) => Err(ImageColorError::Quantization(e)),
        },
    }
}

} // verus!
