use image_analysis::color::{hex_string, to_rgb, to_uniform, ColorSample, RgbTuple};
use image_analysis::kmeans::cluster;
use image_analysis::{add, extract_palette, sample_pixels, EngineError};

fn rgb(r: u8, g: u8, b: u8) -> RgbTuple {
    RgbTuple { r, g, b }
}

/// A fixed noisy pixel buffer: a deterministic mix of colors.
fn noisy_pixels(n: usize) -> Vec<u8> {
    let mut data = Vec::new();
    let mut x: u64 = 12345;
    for _ in 0..n {
        x = x.wrapping_mul(6364136223846793005).wrapping_add(1442695040888963407);
        data.push((x >> 33) as u8);
        data.push((x >> 41) as u8);
        data.push((x >> 49) as u8);
    }
    data
}

fn samples_of(data: &[u8]) -> Vec<ColorSample> {
    let mut out = Vec::new();
    for px in data.chunks(3) {
        out.push(to_uniform(rgb(px[0], px[1], px[2])));
    }
    out
}

#[test]
fn add_works() {
    assert_eq!(add(2, 3), 5);
    assert_eq!(add(-7, 7), 0);
}

#[test]
fn output_count_equals_k() {
    let data = noisy_pixels(60);
    for k in [1usize, 2, 5, 9] {
        let out = extract_palette(&data, 6, 10, k, 2, 20, 1, 99).unwrap();
        assert_eq!(out.len(), k);
    }
}

#[test]
fn shares_sum_to_one() {
    let data = noisy_pixels(50);
    let out = extract_palette(&data, 10, 5, 4, 2, 20, 1, 5).unwrap();
    let mut count_sum = 0usize;
    let mut share_sum = 0.0f64;
    for e in &out {
        assert_eq!(e.total, 50);
        count_sum += e.count;
        share_sum += e.count as f64 / e.total as f64;
    }
    assert_eq!(count_sum, 50);
    assert!((share_sum - 1.0).abs() < 1e-9);
}

#[test]
fn output_is_sorted() {
    let data = noisy_pixels(120);
    let out = extract_palette(&data, 12, 10, 6, 3, 25, 1, 31).unwrap();
    for w in out.windows(2) {
        assert!(w[0].count >= w[1].count);
        if w[0].count == w[1].count {
            assert!(w[0].centroid_index < w[1].centroid_index);
        }
    }
}

#[test]
fn identical_invocations_give_identical_output() {
    let data = noisy_pixels(80);
    let a = extract_palette(&data, 8, 10, 5, 3, 20, 2, 314).unwrap();
    let b = extract_palette(&data, 8, 10, 5, 3, 20, 2, 314).unwrap();
    assert_eq!(a.len(), b.len());
    for (x, y) in a.iter().zip(b.iter()) {
        assert_eq!(x.rgb, y.rgb);
        assert_eq!(x.hex, y.hex);
        assert_eq!(x.count, y.count);
        assert_eq!(x.total, y.total);
        assert_eq!(x.centroid_index, y.centroid_index);
    }
}

#[test]
fn empty_image_is_reported() {
    let data: Vec<u8> = Vec::new();
    assert!(matches!(extract_palette(&data, 0, 0, 3, 2, 20, 1, 1), Err(EngineError::EmptyImage)));
    assert!(matches!(extract_palette(&data, 5, 0, 3, 2, 20, 1, 1), Err(EngineError::EmptyImage)));
    assert_eq!(sample_pixels(&data, 0, 0), Err(EngineError::EmptyImage));
}

#[test]
fn invalid_parameters_are_reported() {
    let data = noisy_pixels(4);
    assert!(matches!(
        extract_palette(&data, 2, 2, 0, 2, 20, 1, 1),
        Err(EngineError::InvalidParameter)
    ));
    assert!(matches!(
        extract_palette(&data, 2, 2, 3, 0, 20, 1, 1),
        Err(EngineError::InvalidParameter)
    ));
    assert!(matches!(
        extract_palette(&data, 2, 2, 3, 2, 0, 1, 1),
        Err(EngineError::InvalidParameter)
    ));
    // Parameters are validated before the buffer.
    let empty: Vec<u8> = Vec::new();
    assert!(matches!(
        extract_palette(&empty, 0, 0, 0, 2, 20, 1, 1),
        Err(EngineError::InvalidParameter)
    ));
}

#[test]
fn round_trip_error_is_small() {
    let mut worst: i32 = 0;
    let mut check = |c: RgbTuple| {
        let back = to_rgb(to_uniform(c));
        let dr = (back.r as i32 - c.r as i32).abs();
        let dg = (back.g as i32 - c.g as i32).abs();
        let db = (back.b as i32 - c.b as i32).abs();
        worst = worst.max(dr).max(dg).max(db);
    };
    for v in 0..=255u16 {
        check(rgb(v as u8, v as u8, v as u8));
    }
    for r in (0..=255u16).step_by(15) {
        for g in (0..=255u16).step_by(15) {
            for b in (0..=255u16).step_by(15) {
                check(rgb(r as u8, g as u8, b as u8));
            }
        }
    }
    assert!(worst <= 2, "worst channel error {}", worst);
}

#[test]
fn three_red_one_blue() {
    let mut data = Vec::new();
    for _ in 0..3 {
        data.extend_from_slice(&[255, 0, 0]);
    }
    data.extend_from_slice(&[0, 0, 255]);
    let out = extract_palette(&data, 2, 2, 2, 1, 20, 1, 7).unwrap();
    assert_eq!(out.len(), 2);
    assert_eq!(out[0].count, 3);
    assert_eq!(out[1].count, 1);
    assert_eq!(out[0].total, 4);
    // The dominant entry is red-ish, the other blue-ish.
    assert!(out[0].rgb.r > 200 && out[0].rgb.b < 100);
    assert!(out[1].rgb.b > 200 && out[1].rgb.r < 100);
}

#[test]
fn single_gray_pixel_with_k_three() {
    let data = vec![128u8, 128, 128];
    let out = extract_palette(&data, 1, 1, 3, 1, 20, 1, 11).unwrap();
    assert_eq!(out.len(), 3);
    assert_eq!(out[0].count, 1);
    assert_eq!(out[0].total, 1);
    assert_eq!(out[1].count, 0);
    assert_eq!(out[2].count, 0);
    // Degenerate entries tie on share and stand in ascending centroid order.
    assert!(out[1].centroid_index < out[2].centroid_index);
    for e in &out {
        assert_eq!(e.hex.len(), 7);
        let bytes = e.hex.as_bytes();
        assert_eq!(bytes[0], b'#');
        for &c in &bytes[1..] {
            assert!(c.is_ascii_hexdigit() && !c.is_ascii_uppercase());
        }
        // The gray pixel survives the round trip closely.
        if e.count == 1 {
            assert!((e.rgb.r as i32 - 128).abs() <= 2);
            assert!((e.rgb.g as i32 - 128).abs() <= 2);
            assert!((e.rgb.b as i32 - 128).abs() <= 2);
        }
    }
}

#[test]
fn more_runs_never_worsen_the_score() {
    let data = noisy_pixels(90);
    let samples = samples_of(&data);
    let mut prev: u128 = u128::MAX;
    for runs in 1u32..=5 {
        let rr = cluster(&samples, 3, runs, 20, 1, 42).unwrap();
        assert!(rr.score <= prev);
        prev = rr.score;
    }
}

#[test]
fn cluster_rejects_bad_parameters() {
    let samples = samples_of(&noisy_pixels(10));
    assert!(matches!(cluster(&samples, 0, 1, 20, 1, 1), Err(EngineError::InvalidParameter)));
    assert!(matches!(cluster(&samples, 2, 0, 20, 1, 1), Err(EngineError::InvalidParameter)));
    let none: Vec<ColorSample> = Vec::new();
    assert!(matches!(cluster(&none, 2, 1, 20, 1, 1), Err(EngineError::EmptyImage)));
}

#[test]
fn hex_rendering_is_lowercase_and_padded() {
    assert_eq!(hex_string(rgb(255, 0, 0)), "#ff0000");
    assert_eq!(hex_string(rgb(0, 0, 0)), "#000000");
    assert_eq!(hex_string(rgb(18, 52, 86)), "#123456");
    assert_eq!(hex_string(rgb(0, 255, 171)), "#00ffab");
}

#[test]
fn sampler_keeps_scan_order_and_every_pixel() {
    let data = vec![1u8, 2, 3, 4, 5, 6, 7, 8, 9, 10, 11, 12];
    let px = sample_pixels(&data, 2, 2).unwrap();
    assert_eq!(px.len(), 4);
    assert_eq!(px[0], rgb(1, 2, 3));
    assert_eq!(px[1], rgb(4, 5, 6));
    assert_eq!(px[2], rgb(7, 8, 9));
    assert_eq!(px[3], rgb(10, 11, 12));
}

#[test]
fn round_trip_exact_at_black_and_white() {
    assert_eq!(to_rgb(to_uniform(rgb(0, 0, 0))), rgb(0, 0, 0));
    assert_eq!(to_rgb(to_uniform(rgb(255, 255, 255))), rgb(255, 255, 255));
}
