use purikura::compositor::alpha_composite;

fn solid(r: u8, g: u8, b: u8, a: u8, w: u32, h: u32) -> Vec<u8> {
    let mut buf = vec![0u8; (w * h * 4) as usize];
    for chunk in buf.chunks_exact_mut(4) {
        chunk[0] = r;
        chunk[1] = g;
        chunk[2] = b;
        chunk[3] = a;
    }
    buf
}

/// Single-precision formula the compositor is specified against.
fn reference_channel(f: u8, p: u8, a: u8) -> u8 {
    let fa = a as f32 / 255.0;
    let pa = 1.0 - fa;
    (f as f32 * fa + p as f32 * pa) as u8
}

#[test]
fn composite_transparent_frame_unchanged() {
    let photo = solid(100, 100, 100, 255, 2, 2);
    let frame = solid(255, 0, 0, 0, 2, 2);
    let result = alpha_composite(&photo, &frame, 2, 2);
    assert_eq!(result[0], 100);
    assert_eq!(result[1], 100);
    assert_eq!(result[2], 100);
}

#[test]
fn composite_opaque_frame_overwrites() {
    let photo = solid(100, 100, 100, 255, 2, 2);
    let frame = solid(255, 0, 0, 255, 2, 2);
    let result = alpha_composite(&photo, &frame, 2, 2);
    assert_eq!(result[0], 255);
    assert_eq!(result[1], 0);
    assert_eq!(result[2], 0);
}

#[test]
fn composite_half_alpha_blends_and_sets_opaque() {
    let photo = solid(0, 200, 100, 17, 1, 1);
    let frame = solid(200, 0, 100, 128, 1, 1);
    let result = alpha_composite(&photo, &frame, 1, 1);
    assert_eq!(result[0], reference_channel(200, 0, 128));
    assert_eq!(result[1], reference_channel(0, 200, 128));
    assert_eq!(result[2], reference_channel(100, 100, 128));
    assert_eq!(result[3], 255);
    assert_eq!(result[0], 100);
    assert_eq!(result[1], 99);
}

#[test]
fn composite_keeps_photo_alpha_under_transparent_frame() {
    let photo = solid(1, 2, 3, 44, 3, 1);
    let frame = solid(9, 9, 9, 0, 3, 1);
    let result = alpha_composite(&photo, &frame, 3, 1);
    assert_eq!(result, photo);
}

#[test]
fn composite_matches_single_precision_blend() {
    // Every frame alpha and many colour pairs, one pixel each.
    let mut photo = Vec::new();
    let mut frame = Vec::new();
    for a in 0..=255u32 {
        for f in (0..=255u32).step_by(3) {
            let p = (f * 7 + a * 13) % 256;
            photo.extend_from_slice(&[p as u8, (255 - p) as u8, (p / 2) as u8, 200]);
            frame.extend_from_slice(&[f as u8, (f / 3) as u8, (255 - f) as u8, a as u8]);
        }
    }
    let n = (photo.len() / 4) as u32;
    let result = alpha_composite(&photo, &frame, n, 1);
    for i in 0..n as usize {
        let a = frame[i * 4 + 3];
        for c in 0..3 {
            let expected = if a > 0 {
                reference_channel(frame[i * 4 + c], photo[i * 4 + c], a)
            } else {
                photo[i * 4 + c]
            };
            assert_eq!(result[i * 4 + c], expected, "pixel {} channel {}", i, c);
        }
        let alpha = if a > 0 { 255 } else { photo[i * 4 + 3] };
        assert_eq!(result[i * 4 + 3], alpha);
    }
}

#[test]
fn blend_is_integer_mix_or_one_below() {
    for a in [1u8, 17, 128, 200, 254, 255] {
        for f in (0..=255u32).step_by(5) {
            for p in (0..=255u32).step_by(7) {
                let out = alpha_composite(&[p as u8, 0, 0, 9], &[f as u8, 0, 0, a], 1, 1);
                let q = ((f * a as u32 + p * (255 - a as u32)) / 255) as i32;
                assert!(q - 1 <= out[0] as i32 && out[0] as i32 <= q, "f {f} p {p} a {a}");
                assert_eq!(out[3], 255);
            }
        }
    }
}
