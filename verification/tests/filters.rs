use purikura::hsl::{hsl_to_rgb, rgb_to_hsl};
use purikura::filters::{
    apply_cool, apply_filter, apply_grayscale, apply_sepia, apply_soft, apply_vivid, apply_warm,
};

#[test]
fn grayscale_white_stays_white() {
    let mut buf = vec![255u8, 255, 255, 255];
    apply_grayscale(&mut buf);
    assert_eq!(buf, [255, 255, 255, 255]);
}

#[test]
fn grayscale_black_stays_black() {
    let mut buf = vec![0u8, 0, 0, 255];
    apply_grayscale(&mut buf);
    assert_eq!(buf, [0, 0, 0, 255]);
}

#[test]
fn grayscale_preserves_alpha() {
    let mut buf = vec![128u8, 64, 32, 200];
    apply_grayscale(&mut buf);
    assert_eq!(buf[3], 200);
}

#[test]
fn grayscale_rgb_equal_after() {
    let mut buf = vec![100u8, 150, 200, 255];
    apply_grayscale(&mut buf);
    assert_eq!(buf[0], buf[1]);
    assert_eq!(buf[1], buf[2]);
}

#[test]
fn sepia_output_in_range() {
    let mut buf = vec![100u8, 100, 100, 255];
    apply_sepia(&mut buf);
    // sepia values are non-zero and alpha preserved
    assert!(buf[0] > 0);
    assert_eq!(buf[3], 255);
}

#[test]
fn sepia_white_blue_reduced() {
    let mut buf = vec![255u8, 255, 255, 255];
    apply_sepia(&mut buf);
    // sepia of white: red and green clamp to 255, blue is reduced
    assert_eq!(buf[0], 255);
    assert_eq!(buf[1], 255);
    assert!(buf[2] < 255);
}

#[test]
fn warm_increases_red() {
    let mut buf = vec![100u8, 100, 100, 255];
    apply_warm(&mut buf);
    assert_eq!(buf[0], 115);
    assert_eq!(buf[1], 105);
    assert_eq!(buf[2], 85);
}

#[test]
fn warm_saturates_at_255() {
    let mut buf = vec![250u8, 254, 10, 255];
    apply_warm(&mut buf);
    assert_eq!(buf[0], 255);
    assert_eq!(buf[2], 0);
}

#[test]
fn cool_increases_blue() {
    let mut buf = vec![100u8, 100, 100, 255];
    apply_cool(&mut buf);
    assert_eq!(buf[0], 85);
    assert_eq!(buf[2], 120);
}

#[test]
fn soft_raises_midtones() {
    let mut buf = vec![0u8, 0, 0, 255];
    apply_soft(&mut buf);
    assert!(buf[0] > 0);
}

#[test]
fn vivid_preserves_alpha() {
    let mut buf = vec![100u8, 150, 200, 128];
    apply_vivid(&mut buf);
    assert_eq!(buf[3], 128);
}

// ---------------------------------------------------------------------------
// Single-precision formulas the filters are specified against.

fn ref_gray(r: u8, g: u8, b: u8) -> u8 {
    (r as f32 * 0.299 + g as f32 * 0.587 + b as f32 * 0.114) as u8
}

fn ref_sepia(r: u8, g: u8, b: u8) -> [u8; 3] {
    let r = r as f32;
    let g = g as f32;
    let b = b as f32;
    [
        (r * 0.393 + g * 0.769 + b * 0.189).min(255.0) as u8,
        (r * 0.349 + g * 0.686 + b * 0.168).min(255.0) as u8,
        (r * 0.272 + g * 0.534 + b * 0.131).min(255.0) as u8,
    ]
}

fn ref_soft(c: u8) -> u8 {
    ((c as f32 * 0.85 + 128.0 * 0.15) as u8).saturating_add(8)
}

fn ref_rgb_to_hsl(r: f32, g: f32, b: f32) -> (f32, f32, f32) {
    let max = r.max(g).max(b);
    let min = r.min(g).min(b);
    let l = (max + min) / 2.0;
    if (max - min).abs() < f32::EPSILON {
        return (0.0, 0.0, l);
    }
    let d = max - min;
    let s = if l > 0.5 { d / (2.0 - max - min) } else { d / (max + min) };
    let h = if max == r {
        (g - b) / d + if g < b { 6.0 } else { 0.0 }
    } else if max == g {
        (b - r) / d + 2.0
    } else {
        (r - g) / d + 4.0
    } / 6.0;
    (h, s, l)
}

fn ref_hue_to_rgb(p: f32, q: f32, mut t: f32) -> f32 {
    if t < 0.0 {
        t += 1.0;
    }
    if t > 1.0 {
        t -= 1.0;
    }
    if t < 1.0 / 6.0 {
        return p + (q - p) * 6.0 * t;
    }
    if t < 1.0 / 2.0 {
        return q;
    }
    if t < 2.0 / 3.0 {
        return p + (q - p) * (2.0 / 3.0 - t) * 6.0;
    }
    p
}

fn ref_vivid(r: u8, g: u8, b: u8) -> [u8; 3] {
    let (h, s, l) = ref_rgb_to_hsl(r as f32 / 255.0, g as f32 / 255.0, b as f32 / 255.0);
    let s2 = (s * 1.4).min(1.0);
    let (r2, g2, b2) = if s2.abs() < f32::EPSILON {
        (l, l, l)
    } else {
        let q = if l < 0.5 { l * (1.0 + s2) } else { l + s2 - l * s2 };
        let p = 2.0 * l - q;
        (
            ref_hue_to_rgb(p, q, h + 1.0 / 3.0),
            ref_hue_to_rgb(p, q, h),
            ref_hue_to_rgb(p, q, h - 1.0 / 3.0),
        )
    };
    [(r2 * 255.0) as u8, (g2 * 255.0) as u8, (b2 * 255.0) as u8]
}

/// Pixels covering every red and green level, with a spread of blue levels.
fn sample_image(blues: &[u8]) -> Vec<u8> {
    let mut out = Vec::new();
    for &b in blues {
        for r in 0..=255u8 {
            for g in 0..=255u8 {
                out.extend_from_slice(&[r, g, b, r ^ g]);
            }
        }
    }
    out
}

#[test]
fn grayscale_matches_single_precision() {
    let src = sample_image(&[0, 32, 77, 152, 255]);
    let mut buf = src.clone();
    apply_grayscale(&mut buf);
    for i in 0..src.len() / 4 {
        let l = ref_gray(src[4 * i], src[4 * i + 1], src[4 * i + 2]);
        assert_eq!(&buf[4 * i..4 * i + 4], &[l, l, l, src[4 * i + 3]]);
    }
}

#[test]
fn sepia_matches_single_precision() {
    let src = sample_image(&[0, 10, 14, 87, 160, 255]);
    let mut buf = src.clone();
    apply_sepia(&mut buf);
    for i in 0..src.len() / 4 {
        let e = ref_sepia(src[4 * i], src[4 * i + 1], src[4 * i + 2]);
        assert_eq!(&buf[4 * i..4 * i + 3], &e);
        assert_eq!(buf[4 * i + 3], src[4 * i + 3]);
    }
}

#[test]
fn soft_matches_single_precision_for_every_level() {
    let mut buf: Vec<u8> = (0..=255u8).flat_map(|c| [c, c, c, 9]).collect();
    apply_soft(&mut buf);
    for c in 0..=255u8 {
        let e = ref_soft(c);
        assert_eq!(&buf[4 * c as usize..4 * c as usize + 4], &[e, e, e, 9]);
    }
}

#[test]
fn soft_lifts_black_to_exact_level() {
    let mut buf = vec![0u8, 128, 255, 1];
    apply_soft(&mut buf);
    assert_eq!(buf, [27, 136, 243, 1]);
}

#[test]
fn vivid_matches_single_precision() {
    let mut src = Vec::new();
    for r in (0..=255u32).step_by(5) {
        for g in (0..=255u32).step_by(7) {
            for b in (0..=255u32).step_by(11) {
                src.extend_from_slice(&[r as u8, g as u8, b as u8, 77]);
            }
        }
    }
    let mut buf = src.clone();
    apply_vivid(&mut buf);
    for i in 0..src.len() / 4 {
        let e = ref_vivid(src[4 * i], src[4 * i + 1], src[4 * i + 2]);
        assert_eq!(&buf[4 * i..4 * i + 3], &e, "pixel {:?}", &src[4 * i..4 * i + 3]);
        assert_eq!(buf[4 * i + 3], 77);
    }
}

#[test]
fn vivid_keeps_grey_pixels() {
    let mut buf = vec![0u8, 0, 0, 1, 128, 128, 128, 2, 255, 255, 255, 3];
    apply_vivid(&mut buf);
    assert_eq!(buf, [0, 0, 0, 1, 128, 128, 128, 2, 255, 255, 255, 3]);
}

#[test]
fn cool_saturates_both_ways() {
    let mut buf = vec![10u8, 77, 250, 5];
    apply_cool(&mut buf);
    assert_eq!(buf, [0, 77, 255, 5]);
}

#[test]
fn filters_leave_trailing_partial_pixel() {
    let src = vec![10u8, 20, 30, 40, 50, 60];
    for name in ["grayscale", "sepia", "vivid", "soft", "warm", "cool"] {
        let out = apply_filter(&src, 1, 1, name);
        assert_eq!(&out[4..], &[50, 60], "filter {}", name);
        assert_eq!(out[3], 40);
    }
}

#[test]
fn apply_filter_dispatches_by_name() {
    let src = vec![100u8, 150, 200, 255, 3, 4, 5, 6];
    let mut expected = src.clone();
    apply_warm(&mut expected);
    assert_eq!(apply_filter(&src, 2, 1, "warm"), expected);
    let mut expected = src.clone();
    apply_grayscale(&mut expected);
    assert_eq!(apply_filter(&src, 2, 1, "grayscale"), expected);
    assert_eq!(apply_filter(&src, 2, 1, "none"), src);
    assert_eq!(apply_filter(&src, 2, 1, "Warm"), src);
}

#[test]
fn grey_level_is_integer_luma_or_one_below() {
    let mut x: u32 = 7;
    for _ in 0..20000 {
        x = x.wrapping_mul(1103515245).wrapping_add(12345);
        let (r, g, b) = ((x >> 8) as u8, (x >> 16) as u8, (x >> 24) as u8);
        let mut p = vec![r, g, b, 1];
        apply_grayscale(&mut p);
        let q = (299 * r as i32 + 587 * g as i32 + 114 * b as i32) / 1000;
        assert!(q - 1 <= p[0] as i32 && p[0] as i32 <= q, "{r} {g} {b}: {} vs {q}", p[0]);
    }
}

#[test]
fn vivid_keeps_every_grey_level() {
    for c in 0..=255u8 {
        let mut p = vec![c, c, c, 255];
        apply_vivid(&mut p);
        assert_eq!(p[0], p[1]);
        assert_eq!(p[1], p[2]);
        assert!(p[0] == c || p[0] as i32 == c as i32 - 1, "{c} -> {}", p[0]);
    }
}

#[test]
fn hsl_round_trip_stays_within_ten_thousandth() {
    let one: i128 = 1 << 48;
    let bound = one / 10000;
    let level = |k: i128| one * k / 255;
    for r in (0..=255i128).step_by(5) {
        for g in (0..=255i128).step_by(5) {
            for b in (0..=255i128).step_by(5) {
                let (rr, gg, bb) = (level(r), level(g), level(b));
                let (h, s, l) = rgb_to_hsl(rr, gg, bb);
                let (r2, g2, b2) = hsl_to_rgb(h, s, l);
                assert!((r2 - rr).abs() <= bound, "{r} {g} {b}");
                assert!((g2 - gg).abs() <= bound, "{r} {g} {b}");
                assert!((b2 - bb).abs() <= bound, "{r} {g} {b}");
            }
        }
    }
}
