use nasa_palette::{
    extract_dominant_colors, format_as_hex, format_hex, sample_pixels, DominantColor,
    QuantizationError, QuantizeConfig, Rgb, DEFAULT_MAX_COLORS, DEFAULT_MAX_SAMPLES,
};

fn repeat(buf: &mut Vec<u8>, rgb: (u8, u8, u8), times: usize) {
    for _ in 0..times {
        buf.push(rgb.0);
        buf.push(rgb.1);
        buf.push(rgb.2);
    }
}

fn config(k: usize) -> QuantizeConfig {
    QuantizeConfig { max_colors: k, max_samples: DEFAULT_MAX_SAMPLES }
}

fn rgb(r: u8, g: u8, b: u8) -> Rgb {
    Rgb { r, g, b }
}

#[test]
fn single_repeated_color_gives_one_entry() {
    let mut buf = Vec::new();
    repeat(&mut buf, (10, 20, 30), 100);
    let p = extract_dominant_colors(&buf, &config(5)).unwrap();
    assert_eq!(p, vec![DominantColor { color: rgb(10, 20, 30), count: 100 }]);
    assert_eq!(format_as_hex(&p), vec!["0A141E".to_string()]);
}

#[test]
fn empty_buffer_is_empty_input() {
    let buf: Vec<u8> = Vec::new();
    assert_eq!(extract_dominant_colors(&buf, &config(5)), Err(QuantizationError::EmptyInput));
}

#[test]
fn zero_sample_cap_is_empty_input() {
    let mut buf = Vec::new();
    repeat(&mut buf, (1, 2, 3), 4);
    let c = QuantizeConfig { max_colors: 5, max_samples: 0 };
    assert_eq!(extract_dominant_colors(&buf, &c), Err(QuantizationError::EmptyInput));
}

#[test]
fn five_bytes_is_malformed() {
    let buf: Vec<u8> = vec![1, 2, 3, 4, 5];
    assert_eq!(
        extract_dominant_colors(&buf, &config(5)),
        Err(QuantizationError::MalformedBuffer)
    );
    assert_eq!(sample_pixels(&buf, 10), Err(QuantizationError::MalformedBuffer));
}

#[test]
fn two_equal_groups_are_ordered_deterministically() {
    let mut buf = Vec::new();
    repeat(&mut buf, (255, 0, 0), 50);
    repeat(&mut buf, (0, 0, 255), 50);
    let p = extract_dominant_colors(&buf, &config(5)).unwrap();
    assert_eq!(
        p,
        vec![
            DominantColor { color: rgb(0, 0, 255), count: 50 },
            DominantColor { color: rgb(255, 0, 0), count: 50 },
        ]
    );
    assert_eq!(format_as_hex(&p), vec!["0000FF".to_string(), "FF0000".to_string()]);
}

#[test]
fn larger_group_comes_first() {
    let mut buf = Vec::new();
    repeat(&mut buf, (0, 0, 255), 10);
    repeat(&mut buf, (255, 0, 0), 30);
    let p = extract_dominant_colors(&buf, &config(5)).unwrap();
    assert_eq!(p[0], DominantColor { color: rgb(255, 0, 0), count: 30 });
    assert_eq!(p[1], DominantColor { color: rgb(0, 0, 255), count: 10 });
}

#[test]
fn same_input_same_output() {
    let mut buf = Vec::new();
    for i in 0..600u32 {
        buf.push((i * 7 % 256) as u8);
        buf.push((i * 13 % 256) as u8);
        buf.push((i * 29 % 256) as u8);
    }
    let c = QuantizeConfig { max_colors: 6, max_samples: 200 };
    let a = extract_dominant_colors(&buf, &c).unwrap();
    let b = extract_dominant_colors(&buf, &c).unwrap();
    assert_eq!(a, b);
    assert_eq!(format_as_hex(&a), format_as_hex(&b));
}

#[test]
fn palette_size_is_bounded() {
    let mut buf = Vec::new();
    for i in 0..300u32 {
        buf.push((i % 256) as u8);
        buf.push((255 - i % 256) as u8);
        buf.push((i * 3 % 256) as u8);
    }
    for k in 1..=16usize {
        let p = extract_dominant_colors(&buf, &config(k)).unwrap();
        assert!(p.len() >= 1 && p.len() <= k);
        let total: usize = p.iter().map(|d| d.count).sum();
        assert_eq!(total, 300);
        for w in p.windows(2) {
            assert!(w[0].count >= w[1].count);
        }
    }
}

#[test]
fn fewer_colors_than_bound_are_not_padded() {
    let mut buf = Vec::new();
    repeat(&mut buf, (1, 1, 1), 3);
    repeat(&mut buf, (200, 100, 50), 2);
    repeat(&mut buf, (9, 250, 9), 1);
    let p = extract_dominant_colors(&buf, &config(16)).unwrap();
    assert_eq!(
        p,
        vec![
            DominantColor { color: rgb(1, 1, 1), count: 3 },
            DominantColor { color: rgb(200, 100, 50), count: 2 },
            DominantColor { color: rgb(9, 250, 9), count: 1 },
        ]
    );
}

#[test]
fn one_color_bound_gives_rounded_mean() {
    let mut buf = Vec::new();
    repeat(&mut buf, (0, 0, 0), 1);
    repeat(&mut buf, (3, 4, 5), 1);
    let p = extract_dominant_colors(&buf, &config(1)).unwrap();
    assert_eq!(p, vec![DominantColor { color: rgb(2, 2, 3), count: 2 }]);
}

#[test]
fn default_config_values() {
    let c = QuantizeConfig::default();
    assert_eq!(c.max_colors, DEFAULT_MAX_COLORS);
    assert_eq!(c.max_samples, DEFAULT_MAX_SAMPLES);
    assert_eq!(c.max_colors, 5);
    assert_eq!(c.max_samples, 10000);
}

#[test]
fn sampling_keeps_small_buffers() {
    let buf: Vec<u8> = vec![1, 2, 3, 4, 5, 6, 7, 8, 9];
    let s = sample_pixels(&buf, 10).unwrap();
    assert_eq!(s, vec![rgb(1, 2, 3), rgb(4, 5, 6), rgb(7, 8, 9)]);
}

#[test]
fn sampling_strides_over_large_buffers() {
    let mut buf = Vec::new();
    for i in 0..10u8 {
        buf.push(i);
        buf.push(i);
        buf.push(i);
    }
    let s = sample_pixels(&buf, 3).unwrap();
    assert_eq!(s, vec![rgb(0, 0, 0), rgb(4, 4, 4), rgb(8, 8, 8)]);
}

#[test]
fn hex_is_zero_padded_uppercase() {
    assert_eq!(format_hex(rgb(15, 0, 255)), "0F00FF");
    assert_eq!(format_hex(rgb(10, 20, 30)), "0A141E");
    assert_eq!(format_hex(rgb(0, 0, 0)), "000000");
    assert_eq!(format_hex(rgb(171, 205, 239)), "ABCDEF");
}

#[test]
fn hex_shape_holds_on_all_channel_values() {
    for v in 0..=255u8 {
        let s = format_hex(rgb(v, 255 - v, v / 2));
        assert_eq!(s.len(), 6);
        assert!(s.chars().all(|c| c.is_ascii_digit() || ('A'..='F').contains(&c)));
        assert_eq!(s, format!("{:02X}{:02X}{:02X}", v, 255 - v, v / 2));
    }
}

#[test]
fn counts_cover_the_samples_under_a_cap() {
    let mut buf = Vec::new();
    for i in 0..10u8 {
        repeat(&mut buf, (i * 20, 0, 0), 1);
    }
    let c = QuantizeConfig { max_colors: 16, max_samples: 3 };
    let p = extract_dominant_colors(&buf, &c).unwrap();
    let total: usize = p.iter().map(|d| d.count).sum();
    assert_eq!(total, 3);
    assert_eq!(p.len(), 3);
    assert_eq!(
        p,
        vec![
            DominantColor { color: rgb(0, 0, 0), count: 1 },
            DominantColor { color: rgb(80, 0, 0), count: 1 },
            DominantColor { color: rgb(160, 0, 0), count: 1 },
        ]
    );
}

#[test]
fn palette_colors_are_pairwise_distinct() {
    let mut buf = Vec::new();
    for i in 0..500u32 {
        buf.push((i * 37 % 256) as u8);
        buf.push((i * 91 % 256) as u8);
        buf.push((i * 53 % 256) as u8);
    }
    for k in 1..=16usize {
        let p = extract_dominant_colors(&buf, &config(k)).unwrap();
        for a in 0..p.len() {
            for b in (a + 1)..p.len() {
                assert_ne!(p[a].color, p[b].color);
            }
        }
    }
}

#[test]
fn single_color_bound_takes_mean_of_samples() {
    let mut buf = Vec::new();
    repeat(&mut buf, (10, 0, 255), 3);
    repeat(&mut buf, (20, 1, 0), 1);
    let p = extract_dominant_colors(&buf, &config(1)).unwrap();
    assert_eq!(p, vec![DominantColor { color: rgb(13, 0, 191), count: 4 }]);
}
