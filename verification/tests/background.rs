use purikura::background::{
    background_mode, blur_rgba_cpu, box_blur_channel, pack_rgba_words, solid_layer,
    unpack_rgba_words, BackgroundMode,
};
use purikura::skin_mask::feather;

#[test]
fn blur_cpu_smooths_edge() {
    let w = 20usize;
    let h = 10usize;
    // Left half red, right half blue
    let mut pixels = vec![0u8; w * h * 4];
    for y in 0..h {
        for x in 0..w {
            let i = (y * w + x) * 4;
            if x < w / 2 {
                pixels[i] = 255; // R
            } else {
                pixels[i + 2] = 255; // B
            }
            pixels[i + 3] = 255;
        }
    }
    let blurred = blur_rgba_cpu(&pixels, w, h, 2);
    // The pixel at the boundary should be mixed
    let mid = (5 * w + w / 2) * 4;
    assert!(
        blurred[mid] > 0 && blurred[mid] < 255,
        "boundary R: {}",
        blurred[mid]
    );
    assert!(
        blurred[mid + 2] > 0 && blurred[mid + 2] < 255,
        "boundary B: {}",
        blurred[mid + 2]
    );
}

#[test]
fn blur_channel_equals_feather() {
    let src: Vec<u8> = (0..48u32).map(|i| (i * 37 % 256) as u8).collect();
    let out = box_blur_channel(&src, 8, 6, 2);
    let mut m = src.clone();
    feather(&mut m, 8, 6, 2);
    assert_eq!(out, m);
    assert_eq!(box_blur_channel(&src, 8, 6, 0), src);
}

#[test]
fn blur_rgba_keeps_alpha_and_tail() {
    let mut pixels: Vec<u8> = (0..36u32).map(|i| (i * 53 % 256) as u8).collect();
    pixels.push(7);
    let out = blur_rgba_cpu(&pixels, 3, 3, 1);
    for i in 0..9 {
        assert_eq!(out[i * 4 + 3], pixels[i * 4 + 3]);
    }
    assert_eq!(out[36], 7);
}

#[test]
fn background_mode_choices() {
    assert!(matches!(background_mode("blur", 4, 0, 4), BackgroundMode::Blur));
    assert!(matches!(background_mode("solid", 4, 0, 4), BackgroundMode::Solid));
    assert!(matches!(background_mode("image", 4, 16, 4), BackgroundMode::Image));
    assert!(matches!(background_mode("image", 4, 15, 4), BackgroundMode::Keep));
    assert!(matches!(background_mode("blur", 3, 0, 4), BackgroundMode::Keep));
    assert!(matches!(background_mode("sharpen", 4, 16, 4), BackgroundMode::Keep));
}

#[test]
fn solid_layer_is_opaque_colour() {
    assert_eq!(solid_layer(2, 10, 20, 30), vec![10, 20, 30, 255, 10, 20, 30, 255]);
    assert!(solid_layer(0, 1, 2, 3).is_empty());
}

#[test]
fn pack_then_unpack_gives_pixels_back() {
    let pixels: Vec<u8> = (0..40u32).map(|i| (i * 29 + 3) as u8).collect();
    let words = pack_rgba_words(&pixels, 10);
    assert_eq!(words[0], u32::from_le_bytes([pixels[0], pixels[1], pixels[2], pixels[3]]));
    assert_eq!(unpack_rgba_words(&words), pixels);
}
