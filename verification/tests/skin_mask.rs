use purikura::skin_mask::{
    box_blur_pass, build_mask, feather, is_skin_ycbcr, iter_packed_polys, INSIDE_BASE,
    INSIDE_NONSKIN_DIM,
};

#[test]
fn box_blur_uniform_is_invariant() {
    let mut src = vec![100u8; 100];
    let mut dst = vec![0u8; 100];
    box_blur_pass(&mut src, &mut dst, 10, 10, 2);
    for &v in &dst {
        assert!(v >= 99 && v <= 101, "uniform must stay uniform, got {}", v);
    }
}

#[test]
fn feather_smooths_edge() {
    // Half-mask: left half 255, right half 0
    let w = 40;
    let h = 10;
    let mut m = vec![0u8; w * h];
    for y in 0..h {
        for x in 0..(w / 2) {
            m[y * w + x] = 255;
        }
    }
    feather(&mut m, w, h, 2);
    // Around the boundary x=20, expect intermediate values, not just 0/255
    let mid = 5 * w + 20;
    assert!(m[mid] > 0 && m[mid] < 255, "edge mid value = {}", m[mid]);
    // Far left stays high, far right stays low
    assert!(m[5 * w + 1] > 200);
    assert!(m[5 * w + 38] < 60);
}

#[test]
fn iter_packed_polys_decodes() {
    // 2 polygons: triangle then square
    let packed = [
        2.0f32, // n_polys
        3.0,    // len 0
        0.0, 0.0, 1.0, 0.0, 0.5, 1.0, // tri
        4.0,    // len 1
        0.0, 0.0, 1.0, 0.0, 1.0, 1.0, 0.0, 1.0, // sq
    ];
    let counts: Vec<usize> = packed.iter().map(|&v| v as usize).collect();
    let polys = iter_packed_polys(&counts);
    assert_eq!(polys.len(), 2);
    assert_eq!(polys[0].1 - polys[0].0, 6);
    assert_eq!(polys[1].1 - polys[1].0, 8);
    assert_eq!(polys[0], (2, 8));
    assert_eq!(polys[1], (9, 17));
}

#[test]
fn iter_packed_polys_stops_at_truncated_polygon() {
    let counts = vec![3usize, 1, 7, 7, 5, 1, 2];
    assert_eq!(iter_packed_polys(&counts), vec![(2, 4)]);
    assert!(iter_packed_polys(&[]).is_empty());
    assert!(iter_packed_polys(&[0, 2, 1, 1, 1, 1]).is_empty());
    assert_eq!(iter_packed_polys(&[1, 0]), vec![(2, 2)]);
}

/// Single-precision YCbCr skin test the integer version is specified against.
fn ref_skin(r: u8, g: u8, b: u8) -> bool {
    let r = r as f32;
    let g = g as f32;
    let b = b as f32;
    let y = 0.299 * r + 0.587 * g + 0.114 * b;
    let cb = -0.168736 * r - 0.331264 * g + 0.5 * b + 128.0;
    let cr = 0.5 * r - 0.418688 * g - 0.081312 * b + 128.0;
    y > 60.0 && (77.0..=130.0).contains(&cb) && (130.0..=180.0).contains(&cr)
}

#[test]
fn skin_test_matches_single_precision() {
    for r in 0..=255u8 {
        for g in (0..=255u8).step_by(3) {
            for b in [0u8, 40, 101, 150, 200, 255] {
                assert_eq!(is_skin_ycbcr(r, g, b), ref_skin(r, g, b), "{} {} {}", r, g, b);
            }
        }
    }
    // A boundary case whose luma is 60 up to rounding.
    assert_eq!(is_skin_ycbcr(101, 43, 40), ref_skin(101, 43, 40));
    assert!(is_skin_ycbcr(220, 180, 150));
    assert!(!is_skin_ycbcr(0, 0, 255));
}

fn rgba_uniform(w: usize, h: usize, r: u8, g: u8, b: u8) -> Vec<u8> {
    let mut out = Vec::with_capacity(w * h * 4);
    for _ in 0..(w * h) {
        out.extend_from_slice(&[r, g, b, 255]);
    }
    out
}

#[test]
fn build_mask_marks_face_skin_and_exclusions() {
    let (w, h) = (4usize, 3usize);
    let face: Vec<bool> = (0..w * h).map(|i| i % w != 0).collect();
    let mut pixels = rgba_uniform(w, h, 220, 180, 150);
    // Pixel 5 is pure blue: inside the face, not skin.
    pixels[5 * 4] = 0;
    pixels[5 * 4 + 1] = 0;
    pixels[5 * 4 + 2] = 255;
    let excl: Vec<bool> = (0..w * h).map(|i| i == 6).collect();
    let mask = build_mask(w, h, &face, &[excl], &pixels, 0);
    for i in 0..w * h {
        let expected = if i % w == 0 || i == 6 {
            0
        } else if i == 5 {
            INSIDE_NONSKIN_DIM
        } else {
            INSIDE_BASE
        };
        assert_eq!(mask[i], expected, "pixel {}", i);
    }
}

#[test]
fn box_blur_replicates_both_edges_when_radius_exceeds_size() {
    let src = vec![10u8, 40, 10, 40];
    let mut dst = vec![0u8; 4];
    box_blur_pass(&src, &mut dst, 2, 2, 2);
    // rows [10, 40], window -2..=2 clamped: 10+10+10+40+40 = 110 -> 22, 10+10+40+40+40 = 140 -> 28
    assert_eq!(dst, vec![22, 28, 22, 28]);
}

#[test]
fn oversized_polygon_count_stops_decoding() {
    assert!(iter_packed_polys(&[1, usize::MAX, 0, 0]).is_empty());
    assert!(iter_packed_polys(&[2, 1, 0, 0, 2, 0, 0]).len() == 1);
    assert!(iter_packed_polys(&[]).is_empty());
    assert_eq!(iter_packed_polys(&[3, 0, 0]), vec![(2, 2), (3, 3)]);
}

#[test]
fn feather_keeps_zero_mask_for_any_radius() {
    let mut m = vec![0u8; 6];
    feather(&mut m, 3, 2, 5);
    assert_eq!(m, vec![0u8; 6]);
}

#[test]
fn blur_pass_wider_than_image_keeps_level() {
    let src = vec![100u8];
    let mut dst = vec![0u8];
    box_blur_pass(&src, &mut dst, 1, 1, 1);
    assert_eq!(dst, vec![100]);
    let mut m = vec![77u8; 6];
    feather(&mut m, 3, 2, 9);
    assert_eq!(m, vec![77u8; 6]);
}

#[test]
fn blur_pass_on_longer_buffers_touches_only_the_image() {
    let src = vec![100u8, 100, 100, 100, 5, 6];
    let mut dst = vec![9u8; 7];
    box_blur_pass(&src, &mut dst, 2, 2, 1);
    assert_eq!(dst, vec![100, 100, 100, 100, 9, 9, 9]);
    let mut same = vec![0u8; 6];
    box_blur_pass(&src, &mut same, 2, 2, 0);
    assert_eq!(same, src);
}

// Rasterisation of normalised polygons, as the WebAssembly layer performs it
// before handing the regions to `build_mask`.

fn inside_polygon(x: f32, y: f32, poly: &[f32]) -> bool {
    let n = poly.len() / 2;
    if n < 3 {
        return false;
    }
    let mut inside = false;
    let mut j = n - 1;
    for i in 0..n {
        let (xi, yi, xj, yj) = (poly[i * 2], poly[i * 2 + 1], poly[j * 2], poly[j * 2 + 1]);
        if ((yi > y) != (yj > y)) && x < (xj - xi) * (y - yi) / (yj - yi + f32::EPSILON) + xi {
            inside = !inside;
        }
        j = i;
    }
    inside
}

fn raster(width: usize, height: usize, poly_norm: &[f32]) -> Vec<bool> {
    let mut px = Vec::new();
    for i in (0..poly_norm.len()).step_by(2) {
        px.push(poly_norm[i] * width as f32);
        px.push(poly_norm[i + 1] * height as f32);
    }
    let mut out = vec![false; width * height];
    if px.len() < 6 {
        return out;
    }
    for y in 0..height {
        for x in 0..width {
            out[y * width + x] = inside_polygon(x as f32 + 0.5, y as f32 + 0.5, &px);
        }
    }
    out
}

fn mask_from_polygons(
    w: usize,
    h: usize,
    face: &[f32],
    excl_packed: &[f32],
    pixels: &[u8],
    radius: usize,
) -> Vec<u8> {
    let face_r = raster(w, h, face);
    let counts: Vec<usize> = excl_packed.iter().map(|&v| v as usize).collect();
    let excl: Vec<Vec<bool>> = iter_packed_polys(&counts)
        .into_iter()
        .map(|(s, e)| raster(w, h, &excl_packed[s..e]))
        .collect();
    build_mask(w, h, &face_r, &excl, pixels, radius)
}

#[test]
fn build_mask_full_face_no_exclusions() {
    let face = [0.0f32, 0.0, 1.0, 0.0, 1.0, 1.0, 0.0, 1.0];
    let pixels = rgba_uniform(20, 20, 220, 180, 150);
    let mask = mask_from_polygons(20, 20, &face, &[], &pixels, 0);
    assert!(mask.iter().all(|&v| v == 255), "first={}", mask[0]);
}

#[test]
fn build_mask_excludes_eye_polygon() {
    let face = [0.0f32, 0.0, 1.0, 0.0, 1.0, 1.0, 0.0, 1.0];
    let pixels = rgba_uniform(20, 20, 220, 180, 150);
    let excl = [1.0f32, 4.0, 0.4, 0.4, 0.6, 0.4, 0.6, 0.6, 0.4, 0.6];
    let mask = mask_from_polygons(20, 20, &face, &excl, &pixels, 0);
    let center = 10 * 20 + 10;
    assert_eq!(mask[center], 0, "center should be excluded");
    assert_eq!(mask[0], 255);
}

#[test]
fn build_mask_zero_outside_face() {
    let face = [0.4f32, 0.4, 0.6, 0.4, 0.6, 0.6, 0.4, 0.6];
    let pixels = rgba_uniform(20, 20, 220, 180, 150);
    let mask = mask_from_polygons(20, 20, &face, &[], &pixels, 0);
    assert_eq!(mask[0], 0);
    assert_eq!(mask[19], 0);
    let center = 10 * 20 + 10;
    assert_eq!(mask[center], 255);
}

#[test]
fn build_mask_dims_non_skin_inside_face() {
    let face = [0.0f32, 0.0, 1.0, 0.0, 1.0, 1.0, 0.0, 1.0];
    let pixels = rgba_uniform(10, 10, 0, 0, 255);
    let mask = mask_from_polygons(10, 10, &face, &[], &pixels, 0);
    assert_eq!(mask[0], INSIDE_NONSKIN_DIM);
}

#[test]
fn no_grey_is_skin() {
    for v in 0..=255u8 {
        assert!(!is_skin_ycbcr(v, v, v));
    }
}

#[test]
fn brighter_source_never_blurs_darker() {
    let (w, h) = (7usize, 5usize);
    let mut x: u32 = 99;
    let mut a = vec![0u8; w * h];
    let mut b = vec![0u8; w * h];
    for i in 0..w * h {
        x = x.wrapping_mul(1103515245).wrapping_add(12345);
        a[i] = (x >> 24) as u8 / 2;
        b[i] = a[i] + ((x >> 8) as u8) / 2;
    }
    for r in [1usize, 2, 6, 9] {
        let mut da = vec![0u8; w * h];
        let mut db = vec![0u8; w * h];
        box_blur_pass(&a, &mut da, w, h, r);
        box_blur_pass(&b, &mut db, w, h, r);
        assert!(da.iter().zip(&db).all(|(p, q)| p <= q), "radius {r}");
    }
}
