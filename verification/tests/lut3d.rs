use purikura::lut3d::{
    apply_lut3d_cpu, apply_lut_cpu, build_lut, finish_grading, get_lut, lut_for_preset,
    lut_texels, preset_from_name, Preset, LUT_SIZE,
};

fn solid_pixels(r: u8, g: u8, b: u8) -> Vec<u8> {
    vec![r, g, b, 255].repeat(16)
}

#[test]
fn identity_lut_preserves_pixels() {
    let lut = build_lut(&Preset::Identity);
    let p = solid_pixels(128, 64, 200);
    let out = apply_lut_cpu(&p, &lut);
    for i in (0..out.len()).step_by(4) {
        assert!((out[i] as i32 - p[i] as i32).abs() <= 1, "R drift");
        assert!((out[i + 1] as i32 - p[i + 1] as i32).abs() <= 1, "G drift");
        assert!((out[i + 2] as i32 - p[i + 2] as i32).abs() <= 1, "B drift");
    }
}

#[test]
fn lut3d_alpha_preserved() {
    let p: Vec<u8> = (0..16).flat_map(|_| [100u8, 150, 80, 42]).collect();
    let lut = build_lut(&Preset::Pop);
    let out = apply_lut_cpu(&p, &lut);
    for i in (3..out.len()).step_by(4) {
        assert_eq!(out[i], 42);
    }
}

#[test]
fn pop_increases_saturation() {
    let grey = solid_pixels(128, 128, 128);
    let lut = build_lut(&Preset::Pop);
    let out = apply_lut_cpu(&grey, &lut);
    let r = out[0] as i32;
    let g = out[1] as i32;
    let b = out[2] as i32;
    assert!((r - g).abs() <= 3, "grey drift R-G: {r} vs {g}");
    assert!((r - b).abs() <= 3, "grey drift R-B: {r} vs {b}");
}

#[test]
fn soft_lifts_blacks() {
    let black = solid_pixels(0, 0, 0);
    let lut = build_lut(&Preset::Soft);
    let out = apply_lut_cpu(&black, &lut);
    assert!(out[0] > 10, "soft should lift black R");
}

#[test]
fn trilinear_boundary_safe() {
    let lut = build_lut(&Preset::Film);
    let white = solid_pixels(255, 255, 255);
    let black = solid_pixels(0, 0, 0);
    let _ = apply_lut_cpu(&white, &lut);
    let _ = apply_lut_cpu(&black, &lut);
}

#[test]
fn none_preset_is_identity() {
    let p = solid_pixels(100, 150, 200);
    let lut = get_lut("none");
    let out = apply_lut_cpu(&p, &lut);
    for i in (0..out.len()).step_by(4) {
        assert!((out[i] as i32 - p[i] as i32).abs() <= 1);
    }
}

// ---------------------------------------------------------------------------
// Single-precision reference of the presets, written the way a float
// implementation would compute them.

fn rgb_to_hsl(r: f32, g: f32, b: f32) -> (f32, f32, f32) {
    let max = r.max(g).max(b);
    let min = r.min(g).min(b);
    let l = (max + min) / 2.0;
    if (max - min).abs() < 1e-7 {
        return (0.0, 0.0, l);
    }
    let d = max - min;
    let s = if l > 0.5 { d / (2.0 - max - min) } else { d / (max + min) };
    let h = if (max - r).abs() < 1e-7 {
        ((g - b) / d + if g < b { 6.0 } else { 0.0 }) / 6.0
    } else if (max - g).abs() < 1e-7 {
        ((b - r) / d + 2.0) / 6.0
    } else {
        ((r - g) / d + 4.0) / 6.0
    };
    (h, s, l)
}

fn hue2rgb(p: f32, q: f32, t0: f32) -> f32 {
    let mut t = t0;
    if t < 0.0 {
        t += 1.0;
    }
    if t > 1.0 {
        t -= 1.0;
    }
    if t < 1.0 / 6.0 {
        return p + (q - p) * 6.0 * t;
    }
    if t < 0.5 {
        return q;
    }
    if t < 2.0 / 3.0 {
        return p + (q - p) * (2.0 / 3.0 - t) * 6.0;
    }
    p
}

fn hsl_to_rgb(h: f32, s: f32, l: f32) -> (f32, f32, f32) {
    if s < 1e-7 {
        return (l, l, l);
    }
    let q = if l < 0.5 { l * (1.0 + s) } else { l + s - l * s };
    let p = 2.0 * l - q;
    (hue2rgb(p, q, h + 1.0 / 3.0), hue2rgb(p, q, h), hue2rgb(p, q, h - 1.0 / 3.0))
}

fn sat(r: f32, g: f32, b: f32, f: f32) -> (f32, f32, f32) {
    let (h, s, l) = rgb_to_hsl(r, g, b);
    hsl_to_rgb(h, (s * f).clamp(0.0, 1.0), l)
}

fn curve(v: f32, k: f32) -> f32 {
    let s = v * v * (3.0 - 2.0 * v);
    v * (1.0 - k) + s * k
}

fn c3(r: f32, g: f32, b: f32) -> (f32, f32, f32) {
    (r.clamp(0.0, 1.0), g.clamp(0.0, 1.0), b.clamp(0.0, 1.0))
}

fn reference(p: usize, r: f32, g: f32, b: f32) -> (f32, f32, f32) {
    let lum = 0.299 * r + 0.587 * g + 0.114 * b;
    match p {
        0 => {
            let (r, g, b) = c3(r * 1.10 + 0.03, g * 1.03 + 0.01, b * 0.90);
            c3(curve(r, 0.18), curve(g, 0.14), curve(b, 0.10))
        }
        1 => {
            let (r, g, b) = sat(r, g, b, 1.9);
            let (r, g, b) = c3(r * 1.10 + 0.02, g * 1.10 + 0.02, b * 1.08 + 0.02);
            c3(curve(r, 0.30), curve(g, 0.30), curve(b, 0.28))
        }
        2 => {
            let (r, g, b) = sat(r, g, b, 0.82);
            c3(r * 0.88 + 0.06, g * 0.88 + 0.06, b * 0.88 + 0.06)
        }
        3 => {
            let warm = lum;
            let cool = 1.0 - lum;
            let (r, g, b) = sat(r, g, b, 0.88);
            let (r, g, b) = c3(
                r + 0.07 * warm - 0.02 * cool,
                g + 0.02 * warm - 0.01 * cool,
                b - 0.06 * warm + 0.07 * cool,
            );
            c3(curve(r, 0.10), curve(g, 0.08), curve(b, 0.06))
        }
        4 => {
            let (r, g, b) = sat(r, g, b, 0.55);
            c3((r * 0.82 + 0.06) + 0.04, (g * 0.82 + 0.06) + 0.01, (b * 0.82 + 0.06) - 0.03)
        }
        5 => {
            let (r, g, b) = sat(r, g, b, 1.15);
            c3(r - 0.08 + 0.03 * lum, g - 0.02, b + 0.10 - 0.03 * lum)
        }
        6 => {
            let (r, g, b) = c3(r * 1.06 + 0.02, g * 1.01 + 0.01, b * 0.93);
            c3(r + 0.03 * lum, g + 0.01 * lum, b - 0.04 * lum)
        }
        _ => (r, g, b),
    }
}

fn reference_table(p: usize) -> Vec<u8> {
    let mut lut = vec![0u8; LUT_SIZE * 3];
    for ri in 0..17usize {
        for gi in 0..17usize {
            for bi in 0..17usize {
                let (ro, go, bo) =
                    reference(p, ri as f32 / 16.0, gi as f32 / 16.0, bi as f32 / 16.0);
                let idx = (ri * 289 + gi * 17 + bi) * 3;
                lut[idx] = (ro * 255.0 + 0.5) as u8;
                lut[idx + 1] = (go * 255.0 + 0.5) as u8;
                lut[idx + 2] = (bo * 255.0 + 0.5) as u8;
            }
        }
    }
    lut
}

fn reference_grade(pixels: &[u8], lut: &[u8]) -> Vec<u8> {
    let mut out = pixels.to_vec();
    for i in 0..pixels.len() / 4 {
        let mut ax = [(0usize, 0usize, 0f32); 3];
        for c in 0..3 {
            let v = (pixels[i * 4 + c] as f32 / 255.0 * 16.0).clamp(0.0, 16.0);
            let i0 = v.floor() as usize;
            ax[c] = (i0, (i0 + 1).min(16), v - i0 as f32);
        }
        let (r0, r1, rf) = ax[0];
        let (g0, g1, gf) = ax[1];
        let (b0, b1, bf) = ax[2];
        for ch in 0..3 {
            let s = |r: usize, g: usize, b: usize| lut[(r * 289 + g * 17 + b) * 3 + ch] as f32;
            let lo = s(r0, g0, b0) + rf * (s(r1, g0, b0) - s(r0, g0, b0));
            let hi = s(r0, g1, b0) + rf * (s(r1, g1, b0) - s(r0, g1, b0));
            let a = lo + gf * (hi - lo);
            let lo2 = s(r0, g0, b1) + rf * (s(r1, g0, b1) - s(r0, g0, b1));
            let hi2 = s(r0, g1, b1) + rf * (s(r1, g1, b1) - s(r0, g1, b1));
            let b = lo2 + gf * (hi2 - lo2);
            out[i * 4 + ch] = (a + bf * (b - a)).clamp(0.0, 255.0) as u8;
        }
    }
    out
}

const PRESETS: [Preset; 8] = [
    Preset::Natural,
    Preset::Pop,
    Preset::Soft,
    Preset::Film,
    Preset::Vintage,
    Preset::Cool,
    Preset::Peach,
    Preset::Identity,
];

#[test]
fn every_table_matches_single_precision_reference() {
    for (k, p) in PRESETS.iter().enumerate() {
        assert_eq!(build_lut(p), reference_table(k), "preset {k}");
    }
}

#[test]
fn grading_matches_single_precision_reference() {
    let mut pixels = Vec::new();
    let mut x: u32 = 12345;
    for _ in 0..4000 {
        x = x.wrapping_mul(1103515245).wrapping_add(12345);
        pixels.extend_from_slice(&[(x >> 8) as u8, (x >> 16) as u8, (x >> 24) as u8, x as u8]);
    }
    for v in [0u8, 1, 15, 16, 127, 128, 239, 240, 254, 255] {
        pixels.extend_from_slice(&[v, 255 - v, v / 2, 9]);
    }
    pixels.extend_from_slice(&[7, 8]);
    for (k, p) in PRESETS.iter().enumerate() {
        let lut = build_lut(p);
        assert_eq!(apply_lut_cpu(&pixels, &lut), reference_grade(&pixels, &lut), "preset {k}");
    }
}

#[test]
fn identity_table_grid_bytes() {
    let lut = build_lut(&Preset::Identity);
    assert_eq!(lut.len(), 3 * LUT_SIZE);
    // grid index 8 of 16 is 0.5, 127.5 + 0.5 = 128
    assert_eq!(lut[(8 * 289 + 8 * 17 + 8) * 3], 128);
    // grid index 1 is 0.0625: 15.9375 + 0.5 truncates to 16
    assert_eq!(lut[(289 + 17 + 1) * 3 + 2], 16);
    assert_eq!(&lut[0..3], &[0, 0, 0]);
    assert_eq!(&lut[3 * LUT_SIZE - 3..], &[255, 255, 255]);
}

#[test]
fn preset_names_are_recognised() {
    assert!(matches!(preset_from_name("natural"), Preset::Natural));
    assert!(matches!(preset_from_name("pop"), Preset::Pop));
    assert!(matches!(preset_from_name("soft"), Preset::Soft));
    assert!(matches!(preset_from_name("film"), Preset::Film));
    assert!(matches!(preset_from_name("vintage"), Preset::Vintage));
    assert!(matches!(preset_from_name("cool"), Preset::Cool));
    assert!(matches!(preset_from_name("peach"), Preset::Peach));
    assert!(matches!(preset_from_name("Pop"), Preset::Identity));
    assert!(matches!(preset_from_name(""), Preset::Identity));
}

#[test]
fn unknown_name_gives_identity_table() {
    assert_eq!(get_lut("sparkle"), build_lut(&Preset::Identity));
    assert_eq!(get_lut("film"), build_lut(&Preset::Film));
}

#[test]
fn none_preset_needs_no_table() {
    assert!(lut_for_preset("none").is_none());
    assert_eq!(lut_for_preset("pop"), Some(build_lut(&Preset::Pop)));
    assert_eq!(lut_for_preset("nonsense"), Some(build_lut(&Preset::Identity)));
}

#[test]
fn cpu_grading_with_none_is_an_exact_copy() {
    let p = vec![3u8, 250, 17, 0, 99, 1, 2];
    assert_eq!(apply_lut3d_cpu(&p, "none"), p);
}

#[test]
fn cpu_grading_by_name_uses_the_preset_table() {
    let p: Vec<u8> = (0..64u8).flat_map(|v| [v * 4, 255 - v * 3, v, v]).collect();
    let lut = build_lut(&Preset::Vintage);
    assert_eq!(apply_lut3d_cpu(&p, "vintage"), apply_lut_cpu(&p, &lut));
}

#[test]
fn finish_grading_prefers_gpu_output() {
    let p = solid_pixels(10, 20, 30);
    let lut = build_lut(&Preset::Cool);
    let gpu = vec![1u8, 2, 3, 4];
    assert_eq!(finish_grading(&p, &lut, Some(gpu.clone())), gpu);
    assert_eq!(finish_grading(&p, &lut, None), apply_lut_cpu(&p, &lut));
}

#[test]
fn trailing_bytes_are_kept() {
    let p = vec![200u8, 100, 50, 7, 9, 9, 9];
    let lut = build_lut(&Preset::Peach);
    let out = apply_lut_cpu(&p, &lut);
    assert_eq!(&out[3..], &[7, 9, 9, 9]);
    assert_ne!(&out[0..3], &[200, 100, 50]);
}

#[test]
fn texels_add_opaque_alpha() {
    let lut = build_lut(&Preset::Natural);
    let tex = lut_texels(&lut);
    assert_eq!(tex.len(), 4 * LUT_SIZE);
    for i in 0..LUT_SIZE {
        assert_eq!(&tex[4 * i..4 * i + 3], &lut[3 * i..3 * i + 3]);
        assert_eq!(tex[4 * i + 3], 255);
    }
}

#[test]
fn identity_table_keeps_every_level_within_one() {
    let lut = build_lut(&Preset::Identity);
    let mut p = Vec::new();
    for v in 0..=255u8 {
        p.extend_from_slice(&[v, 255 - v, v.wrapping_mul(7), 255]);
    }
    let out = apply_lut_cpu(&p, &lut);
    for i in 0..p.len() {
        assert!((out[i] as i32 - p[i] as i32).abs() <= 1, "byte {i}: {} -> {}", p[i], out[i]);
    }
}

#[test]
fn soft_table_lifts_every_black_channel() {
    let lut = build_lut(&Preset::Soft);
    let out = apply_lut_cpu(&[0, 0, 0, 255], &lut);
    assert_eq!(out, vec![15, 15, 15, 255]);
}

#[test]
fn grading_stays_within_corner_bytes() {
    let mut x: u32 = 3;
    let lut: Vec<u8> = (0..3 * LUT_SIZE)
        .map(|_| {
            x = x.wrapping_mul(1103515245).wrapping_add(12345);
            40 + ((x >> 16) % 51) as u8
        })
        .collect();
    let p: Vec<u8> = (0..2000u32).flat_map(|i| [(i * 7) as u8, (i * 13) as u8, (i * 29) as u8, 1]).collect();
    let out = apply_lut_cpu(&p, &lut);
    for i in 0..p.len() {
        if i % 4 < 3 {
            assert!(39 <= out[i] && out[i] <= 90, "byte {i}: {}", out[i]);
        }
    }
}
