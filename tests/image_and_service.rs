use nasa_palette::service::{
    host_for_environment, image_url, ALL_INTERFACES_HOST, FALLBACK_IMAGE_URL, LOOPBACK_HOST,
};
use nasa_palette::{
    extract_colors_from_image, format_as_hex, DominantColor, ImageColorError, QuantizationError,
    QuantizeConfig, Rgb,
};

fn png_of(width: u32, height: u32, pixel: impl Fn(u32, u32) -> [u8; 3]) -> Vec<u8> {
    let img = image::RgbImage::from_fn(width, height, |x, y| image::Rgb(pixel(x, y)));
    let mut out = std::io::Cursor::new(Vec::new());
    img.write_to(&mut out, image::ImageFormat::Png).unwrap();
    out.into_inner()
}

fn config(k: usize) -> QuantizeConfig {
    QuantizeConfig { max_colors: k, max_samples: 10000 }
}

#[test]
fn decoded_single_color_png() {
    let bytes = png_of(4, 3, |_, _| [10, 20, 30]);
    let p = extract_colors_from_image(&bytes, &config(5)).unwrap();
    assert_eq!(p, vec![DominantColor { color: Rgb { r: 10, g: 20, b: 30 }, count: 12 }]);
    assert_eq!(format_as_hex(&p), vec!["0A141E".to_string()]);
}

#[test]
fn decoded_two_color_png() {
    let bytes = png_of(10, 10, |_, y| if y < 5 { [255, 0, 0] } else { [0, 0, 255] });
    let p = extract_colors_from_image(&bytes, &config(5)).unwrap();
    assert_eq!(format_as_hex(&p), vec!["0000FF".to_string(), "FF0000".to_string()]);
    assert_eq!(p[0].count, 50);
    assert_eq!(p[1].count, 50);
}

#[test]
fn garbage_bytes_are_undecodable() {
    let bytes: Vec<u8> = vec![1, 2, 3, 4, 5, 6];
    assert_eq!(extract_colors_from_image(&bytes, &config(5)), Err(ImageColorError::Undecodable));
}

#[test]
fn decoded_image_with_zero_cap_is_empty_input() {
    let bytes = png_of(2, 2, |_, _| [1, 2, 3]);
    let c = QuantizeConfig { max_colors: 5, max_samples: 0 };
    assert_eq!(
        extract_colors_from_image(&bytes, &c),
        Err(ImageColorError::Quantization(QuantizationError::EmptyInput))
    );
}

#[test]
fn image_media_keeps_its_url() {
    let url = image_url(&"image".to_string(), &"https://example.org/a.jpg".to_string());
    assert_eq!(url, "https://example.org/a.jpg");
}

#[test]
fn video_media_uses_fallback() {
    let url = image_url(&"video".to_string(), &"https://example.org/v.mp4".to_string());
    assert_eq!(url, FALLBACK_IMAGE_URL);
    assert_eq!(url, "https://i.imgur.com/68jyjZT.jpg");
}

#[test]
fn environments_choose_hosts() {
    assert_eq!(host_for_environment(&"development".to_string()), (LOOPBACK_HOST, true));
    assert_eq!(host_for_environment(&"production".to_string()), (ALL_INTERFACES_HOST, true));
    assert_eq!(host_for_environment(&"staging".to_string()), (LOOPBACK_HOST, false));
    assert_eq!(LOOPBACK_HOST, "127.0.0.1");
    assert_eq!(ALL_INTERFACES_HOST, "0.0.0.0");
}
