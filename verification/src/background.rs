//! Background processing helpers: the CPU blur of an RGBA image, the choice of
//! what to do with the background, the flat replacement layer, and the packing
//! of pixels into 32-bit words for the GPU.
use crate::skin_mask::{box_blur_pass, feathered, MAX_RADIUS};
use crate::text::str_equals;
use crate::window::box_blur;
use vstd::prelude::*;
use vstd::slice::slice_to_vec;

verus! {

/// `t` box-blur passes.
pub open spec fn blur_iterations(s: Seq<u8>, w: int, h: int, r: int, t: nat) -> Seq<u8>
    decreases t,
{
    if t == 0 {
        s
    } else {
        box_blur(blur_iterations(s, w, h, r, (t - 1) as nat), w, h, r)
    }
}

/// Separable three-pass box blur of one channel (close to a Gaussian); a copy
/// when `radius == 0`.
pub fn box_blur_channel(src: &[u8], width: usize, height: usize, radius: usize) -> (out: Vec<u8>)
    requires
        src@.len() == width * height,
        radius <= MAX_RADIUS,
        radius == 0 || (width == 0) == (height == 0),
        width + radius + 1 <= usize::MAX,
        height + radius + 1 <= usize::MAX,
    ensures
        out@ == feathered(src@, width as int, height as int, radius as int),
{
    if radius == 0 {
        return slice_to_vec(src);
    }
    let mut a = slice_to_vec(src);
    let mut b = vec![0u8; src.len()];
    let mut t: usize = 0;
    while t < 3
        invariant
            src@.len() == width * height,
            1 <= radius <= MAX_RADIUS,
            (width == 0) == (height == 0),
            width + radius + 1 <= usize::MAX,
            height + radius + 1 <= usize::MAX,
            0 <= t <= 3,
            a@ == blur_iterations(src@, width as int, height as int, radius as int, t as nat),
            a@.len() == width * height,
            b@.len() == width * height,
        decreases 3 - t,
    {
        box_blur_pass(a.as_slice(), b.as_mut_slice(), width, height, radius);
        std::mem::swap(&mut a, &mut b);
        t = t + 1;
    }
    proof {
        let (w, h, r) = (width as int, height as int, radius as int);
        assert(blur_iterations(src@, w, h, r, 3) == box_blur(
            blur_iterations(src@, w, h, r, 2),
            w,
            h,
            r,
        ));
        assert(blur_iterations(src@, w, h, r, 2) == box_blur(
            blur_iterations(src@, w, h, r, 1),
            w,
            h,
            r,
        ));
        assert(blur_iterations(src@, w, h, r, 1) == box_blur(
            blur_iterations(src@, w, h, r, 0),
            w,
            h,
            r,
        ));
    }
    a
}

/// Channel `c` of the first `n` RGBA pixels.
pub open spec fn channel(s: Seq<u8>, n: int, c: int) -> Seq<u8> {
    Seq::new(n as nat, |i: int| s[4 * i + c])
}

/// The RGBA image with each colour channel of its first `n` pixels replaced by
/// the three-pass box blur of that channel; alpha and later bytes unchanged.
pub open spec fn blurred_rgba(s: Seq<u8>, w: int, h: int, r: int) -> Seq<u8> {
    Seq::new(
        s.len(),
        |j: int|
            if j < 4 * (w * h) && j % 4 < 3 {
                feathered(channel(s, w * h, j % 4), w, h, r)[j / 4]
            } else {
                s[j]
            },
    )
}

/// Channel `c` (0 red, 1 green, 2 blue, 3 alpha) of the first `n` pixels,
/// spelled out.
pub open spec fn colour_plane(s: Seq<u8>, n: int, c: int) -> Seq<u8> {
    Seq::new(n as nat, |i: int| s[4 * i + c])
}

/// The background blur treats each colour channel on its own: every red, green
/// and blue byte of the first `w * h` pixels is the feathered plane of that
/// channel; alpha bytes and bytes past the image are kept; and an image whose
/// pixels are all grey stays grey.
pub proof fn lemma_blurred_rgba_laws(s: Seq<u8>, w: int, h: int, r: int)
    requires
        0 <= w,
        0 <= h,
        s.len() + 1 >= 4 * (w * h),
    ensures
        blurred_rgba(s, w, h, r).len() == s.len(),
        forall|i: int, c: int|
            0 <= i < w * h && 0 <= c < 3 ==> #[trigger] blurred_rgba(s, w, h, r)[4 * i + c]
                == feathered(colour_plane(s, w * h, c), w, h, r)[i],
        forall|j: int|
            0 <= j < s.len() && (j >= 4 * (w * h) || j % 4 == 3) ==> #[trigger] blurred_rgba(
                s,
                w,
                h,
                r,
            )[j] == s[j],
        (forall|i: int| 0 <= i < w * h ==> #[trigger] s[4 * i] == s[4 * i + 1] && s[4 * i + 1] == s[4 * i + 2])
            ==> forall|i: int|
            0 <= i < w * h ==> #[trigger] blurred_rgba(s, w, h, r)[4 * i] == blurred_rgba(
                s,
                w,
                h,
                r,
            )[4 * i + 1] && blurred_rgba(s, w, h, r)[4 * i + 1] == blurred_rgba(s, w, h, r)[4 * i
                + 2],
{
    let n = w * h;
    let t = blurred_rgba(s, w, h, r);
    assert forall|c: int| 0 <= c < 3 implies channel(s, n, c) == colour_plane(s, n, c) by {
        assert(channel(s, n, c) =~= colour_plane(s, n, c));
    }
    assert forall|i: int, c: int| 0 <= i < n && 0 <= c < 3 implies #[trigger] t[4 * i + c]
        == feathered(colour_plane(s, n, c), w, h, r)[i] by {
        assert((4 * i + c) % 4 == c && (4 * i + c) / 4 == i);
        assert(channel(s, n, c) == colour_plane(s, n, c));
        if c == 2 {
            assert(4 * i + c < s.len());
        }
    }
    if forall|i: int| 0 <= i < n ==> #[trigger] s[4 * i] == s[4 * i + 1] && s[4 * i + 1] == s[4 * i + 2] {
        assert(colour_plane(s, n, 0) =~= colour_plane(s, n, 1));
        assert(colour_plane(s, n, 1) =~= colour_plane(s, n, 2));
        assert forall|i: int| 0 <= i < n implies #[trigger] t[4 * i] == t[4 * i + 1] && t[4 * i + 1]
            == t[4 * i + 2] by {
            assert(t[4 * i] == feathered(colour_plane(s, n, 0), w, h, r)[i]);
            assert(t[4 * i + 1] == feathered(colour_plane(s, n, 1), w, h, r)[i]);
            assert(t[4 * i + 2] == feathered(colour_plane(s, n, 2), w, h, r)[i]);
        }
    }
}

/// Blurs the R, G and B channels of a `width` x `height` RGBA image
/// independently; alpha is kept.
pub fn blur_rgba_cpu(pixels: &[u8], width: usize, height: usize, radius: usize) -> (out: Vec<u8>)
    requires
        pixels@.len() + 1 >= 4 * width * height,
        radius <= MAX_RADIUS,
        radius == 0 || (width == 0) == (height == 0),
        width + radius + 1 <= usize::MAX,
        height + radius + 1 <= usize::MAX,
    ensures
        out@ == blurred_rgba(pixels@, width as int, height as int, radius as int),
        out@.len() == pixels@.len(),
        forall|i: int, c: int|
            0 <= i < width * height && 0 <= c < 3 ==> #[trigger] out@[4 * i + c] == feathered(
                colour_plane(pixels@, width * height, c),
                width as int,
                height as int,
                radius as int,
            )[i],
        forall|j: int|
            0 <= j < pixels@.len() && (j >= 4 * (width * height) || j % 4 == 3) ==> #[trigger] out@[j]
                == pixels@[j],
        (forall|i: int|
            0 <= i < width * height ==> #[trigger] pixels@[4 * i] == pixels@[4 * i + 1] && pixels@[4 * i + 1]
                == pixels@[4 * i + 2]) ==> forall|i: int|
            0 <= i < width * height ==> #[trigger] out@[4 * i] == out@[4 * i + 1] && out@[4 * i + 1]
                == out@[4 * i + 2],
{
    proof {
        assert(4 * width * height == 4 * (width * height)) by (nonlinear_arith);
    }
    let plen = pixels.len();
    let n = width * height;
    let mut r_ch = vec![0u8; n];
    let mut g_ch = vec![0u8; n];
    let mut b_ch = vec![0u8; n];
    let mut i: usize = 0;
    while i < n
        invariant
            plen == pixels@.len(),
            plen + 1 >= 4 * n,
            r_ch@.len() == n,
            g_ch@.len() == n,
            b_ch@.len() == n,
            0 <= i <= n,
            forall|j: int| 0 <= j < i ==> #[trigger] r_ch@[j] == pixels@[4 * j],
            forall|j: int| 0 <= j < i ==> #[trigger] g_ch@[j] == pixels@[4 * j + 1],
            forall|j: int| 0 <= j < i ==> #[trigger] b_ch@[j] == pixels@[4 * j + 2],
        decreases n - i,
    {
        r_ch[i] = pixels[i * 4];
        g_ch[i] = pixels[i * 4 + 1];
        b_ch[i] = pixels[i * 4 + 2];
        i = i + 1;
    }
    let ghost (w, h, r) = (width as int, height as int, radius as int);
    assert(r_ch@ =~= channel(pixels@, n as int, 0));
    assert(g_ch@ =~= channel(pixels@, n as int, 1));
    assert(b_ch@ =~= channel(pixels@, n as int, 2));
    let r_blurred = box_blur_channel(r_ch.as_slice(), width, height, radius);
    let g_blurred = box_blur_channel(g_ch.as_slice(), width, height, radius);
    let b_blurred = box_blur_channel(b_ch.as_slice(), width, height, radius);
    let ghost target = blurred_rgba(pixels@, w, h, r);
    let mut out = slice_to_vec(pixels);
    let mut i: usize = 0;
    while i < n
        invariant
            plen == pixels@.len(),
            plen + 1 >= 4 * n,
            n == w * h,
            out@.len() == plen,
            r_blurred@ == feathered(channel(pixels@, n as int, 0), w, h, r),
            g_blurred@ == feathered(channel(pixels@, n as int, 1), w, h, r),
            b_blurred@ == feathered(channel(pixels@, n as int, 2), w, h, r),
            r_blurred@.len() == n,
            g_blurred@.len() == n,
            b_blurred@.len() == n,
            target == blurred_rgba(pixels@, w, h, r),
            0 <= i <= n,
            forall|j: int|
                0 <= j < plen ==> #[trigger] out@[j] == if j < 4 * i {
                    target[j]
                } else {
                    pixels@[j]
                },
        decreases n - i,
    {
        out[i * 4] = r_blurred[i];
        out[i * 4 + 1] = g_blurred[i];
        out[i * 4 + 2] = b_blurred[i];
        proof {
            assert forall|j: int| 0 <= j < plen implies #[trigger] out@[j] == if j < 4 * (i + 1) {
                target[j]
            } else {
                pixels@[j]
            } by {
                if 4 * i <= j < 4 * i + 4 {
                    assert(j / 4 == i);
                }
            }
        }
        i = i + 1;
    }
    assert(out@ =~= target);
    proof {
        lemma_blurred_rgba_laws(pixels@, w, h, r);
    }
    out
}

/// What happens to the background.
pub enum BackgroundMode {
    /// Blur the whole image and show it behind the foreground.
    Blur,
    /// Replace the background with a flat colour.
    Solid,
    /// Replace the background with a supplied image.
    Image,
    /// Leave the image unchanged.
    Keep,
}

/// The background treatment for a mode name, given the lengths of the
/// segmentation mask and of the replacement image, for `n` pixels.
pub open spec fn background_mode_spec(
    mode: Seq<char>,
    seg_len: int,
    repl_len: int,
    n: int,
) -> BackgroundMode {
    if seg_len < n {
        BackgroundMode::Keep
    } else if mode == "blur"@ {
        BackgroundMode::Blur
    } else if mode == "solid"@ {
        BackgroundMode::Solid
    } else if mode == "image"@ && repl_len >= 4 * n {
        BackgroundMode::Image
    } else {
        BackgroundMode::Keep
    }
}

/// Chooses the background treatment: nothing changes when the mask covers fewer
/// than `n` pixels or the mode is unknown, and `"image"` needs a replacement of
/// at least `n` RGBA pixels.
pub fn background_mode(mode: &str, seg_len: usize, repl_len: usize, n: usize) -> (res: BackgroundMode)
    ensures
        res == background_mode_spec(mode@, seg_len as int, repl_len as int, n as int),
        seg_len < n ==> res is Keep,
        seg_len >= n && mode@ == "blur"@ ==> res is Blur,
        seg_len >= n && mode@ == "solid"@ ==> res is Solid,
        seg_len >= n && mode@ == "image"@ ==> (res is Image <==> repl_len >= 4 * n),
        mode@ != "blur"@ && mode@ != "solid"@ && mode@ != "image"@ ==> res is Keep,
        res is Image ==> seg_len >= n && repl_len >= 4 * n && mode@ == "image"@,
{
    proof {
        reveal_strlit("blur");
        reveal_strlit("solid");
        reveal_strlit("image");
        assert("blur"@[0] == 'b' && "solid"@[0] == 's' && "image"@[0] == 'i');
    }
    if seg_len < n {
        BackgroundMode::Keep
    } else if str_equals(mode, "blur") {
        BackgroundMode::Blur
    } else if str_equals(mode, "solid") {
        BackgroundMode::Solid
    } else if str_equals(mode, "image") && repl_len / 4 >= n {
        BackgroundMode::Image
    } else {
        BackgroundMode::Keep
    }
}

/// `n` opaque pixels of colour `(r, g, b)`.
pub open spec fn solid_layer_spec(n: int, r: u8, g: u8, b: u8) -> Seq<u8> {
    Seq::new(
        (4 * n) as nat,
        |j: int|
            if j % 4 == 0 {
                r
            } else if j % 4 == 1 {
                g
            } else if j % 4 == 2 {
                b
            } else {
                255u8
            },
    )
}

/// A flat, opaque RGBA layer of `n` pixels.
pub fn solid_layer(n: usize, r: u8, g: u8, b: u8) -> (out: Vec<u8>)
    requires
        4 * n <= usize::MAX,
    ensures
        out@ == solid_layer_spec(n as int, r, g, b),
        out@.len() == 4 * n,
        forall|i: int|
            0 <= i < n ==> #[trigger] out@[4 * i] == r && out@[4 * i + 1] == g && out@[4 * i + 2] == b
                && out@[4 * i + 3] == 255,
{
    let mut out: Vec<u8> = Vec::new();
    let mut i: usize = 0;
    while i < n
        invariant
            4 * n <= usize::MAX,
            0 <= i <= n,
            out@ == solid_layer_spec(i as int, r, g, b),
        decreases n - i,
    {
        let ghost prev = out@;
        out.push(r);
        out.push(g);
        out.push(b);
        out.push(255);
        proof {
            assert forall|j: int| 0 <= j < 4 * (i + 1) implies #[trigger] out@[j]
                == solid_layer_spec(i + 1, r, g, b)[j] by {
                if j >= 4 * i {
                    assert(j % 4 == j - 4 * i);
                }
            }
            assert(out@ =~= solid_layer_spec(i + 1, r, g, b));
        }
        i = i + 1;
    }
    proof {
        assert forall|i: int| 0 <= i < n implies #[trigger] out@[4 * i] == r && out@[4 * i + 1] == g
            && out@[4 * i + 2] == b && out@[4 * i + 3] == 255 by {
            assert((4 * i) % 4 == 0 && (4 * i + 1) % 4 == 1 && (4 * i + 2) % 4 == 2 && (4 * i + 3) % 4 == 3);
        }
    }
    out
}

/// The 32-bit word of an RGBA pixel: R in bits 0-7, G in 8-15, B in 16-23,
/// A in 24-31.
pub open spec fn word_of(r: u8, g: u8, b: u8, a: u8) -> u32 {
    (r as int + 256 * g + 65536 * b + 16777216 * a) as u32
}

/// Byte `c` (0 for the lowest) of a 32-bit word.
pub open spec fn byte_of(w: u32, c: int) -> u8 {
    if c == 0 {
        (w % 256) as u8
    } else if c == 1 {
        ((w / 256) % 256) as u8
    } else if c == 2 {
        ((w / 65536) % 256) as u8
    } else {
        (w / 16777216) as u8
    }
}

proof fn lemma_word_bits(r: u8, g: u8, b: u8, a: u8)
    ensures
        (r as u32) | ((g as u32) << 8) | ((b as u32) << 16) | ((a as u32) << 24) == word_of(r, g, b, a),
{
    assert((r as u32) | ((g as u32) << 8) | ((b as u32) << 16) | ((a as u32) << 24) == (r as u32)
        + (g as u32) * 256 + (b as u32) * 65536 + (a as u32) * 16777216) by (bit_vector);
}

proof fn lemma_byte_bits(w: u32)
    ensures
        (w & 0xFF) as u8 == byte_of(w, 0),
        ((w >> 8) & 0xFF) as u8 == byte_of(w, 1),
        ((w >> 16) & 0xFF) as u8 == byte_of(w, 2),
        ((w >> 24) & 0xFF) as u8 == byte_of(w, 3),
{
    assert(w & 0xFF == w % 256) by (bit_vector);
    assert((w >> 8) & 0xFF == (w / 256) % 256) by (bit_vector);
    assert((w >> 16) & 0xFF == (w / 65536) % 256) by (bit_vector);
    assert((w >> 24) & 0xFF == w / 16777216) by (bit_vector);
}

/// Packs the first `n` RGBA pixels into one word each.
pub fn pack_rgba_words(pixels: &[u8], n: usize) -> (out: Vec<u32>)
    requires
        pixels@.len() >= 4 * n,
    ensures
        out@.len() == n,
        forall|i: int|
            0 <= i < n ==> #[trigger] out@[i] == word_of(
                pixels@[4 * i],
                pixels@[4 * i + 1],
                pixels@[4 * i + 2],
                pixels@[4 * i + 3],
            ),
        forall|i: int|
            0 <= i < n ==> #[trigger] out@[i] as int == pixels@[4 * i] + 256 * pixels@[4 * i + 1]
                + 65536 * pixels@[4 * i + 2] + 16777216 * pixels@[4 * i + 3],
{
    let plen = pixels.len();
    let mut out: Vec<u32> = Vec::new();
    let mut i: usize = 0;
    while i < n
        invariant
            plen == pixels@.len(),
            plen >= 4 * n,
            0 <= i <= n,
            out@.len() == i,
            forall|j: int|
                0 <= j < i ==> #[trigger] out@[j] == word_of(
                    pixels@[4 * j],
                    pixels@[4 * j + 1],
                    pixels@[4 * j + 2],
                    pixels@[4 * j + 3],
                ),
        decreases n - i,
    {
        let r = pixels[i * 4];
        let g = pixels[i * 4 + 1];
        let b = pixels[i * 4 + 2];
        let a = pixels[i * 4 + 3];
        proof {
            lemma_word_bits(r, g, b, a);
        }
        out.push((r as u32) | ((g as u32) << 8) | ((b as u32) << 16) | ((a as u32) << 24));
        i = i + 1;
    }
    out
}

/// Unpacks words into RGBA bytes, four per word, lowest byte first.
pub fn unpack_rgba_words(words: &[u32]) -> (out: Vec<u8>)
    requires
        4 * words@.len() <= usize::MAX,
    ensures
        out@.len() == 4 * words@.len(),
        forall|j: int| 0 <= j < out@.len() ==> #[trigger] out@[j] == byte_of(words@[j / 4], j % 4),
        forall|i: int|
            0 <= i < words@.len() ==> #[trigger] out@[4 * i] as int == words@[i] % 256 && out@[4 * i
                + 1] as int == (words@[i] / 256) % 256 && out@[4 * i + 2] as int == (words@[i]
                / 65536) % 256 && out@[4 * i + 3] as int == words@[i] / 16777216,
{
    let n = words.len();
    let mut out: Vec<u8> = Vec::new();
    let mut i: usize = 0;
    while i < n
        invariant
            n == words@.len(),
            4 * n <= usize::MAX,
            0 <= i <= n,
            out@.len() == 4 * i,
            forall|j: int| 0 <= j < 4 * i ==> #[trigger] out@[j] == byte_of(words@[j / 4], j % 4),
        decreases n - i,
    {
        let p = words[i];
        proof {
            lemma_byte_bits(p);
        }
        out.push((p & 0xFF) as u8);
        out.push(((p >> 8) & 0xFF) as u8);
        out.push(((p >> 16) & 0xFF) as u8);
        out.push(((p >> 24) & 0xFF) as u8);
        proof {
            assert forall|j: int| 0 <= j < 4 * (i + 1) implies #[trigger] out@[j] == byte_of(
                words@[j / 4],
                j % 4,
            ) by {
                if j >= 4 * i {
                    assert(j / 4 == i);
                    assert(j % 4 == j - 4 * i);
                }
            }
        }
        i = i + 1;
    }
    out
}

/// Unpacking a packed pixel gives back its four bytes.
pub proof fn lemma_pack_roundtrip(r: u8, g: u8, b: u8, a: u8)
    ensures
        byte_of(word_of(r, g, b, a), 0) == r,
        byte_of(word_of(r, g, b, a), 1) == g,
        byte_of(word_of(r, g, b, a), 2) == b,
        byte_of(word_of(r, g, b, a), 3) == a,
{
    let w = word_of(r, g, b, a);
    assert(w == (r as int + 256 * g + 65536 * b + 16777216 * a));
    assert(w % 256 == r);
    assert((w / 256) % 256 == g);
    assert((w / 65536) % 256 == b);
    assert(w / 16777216 == a);
}

/// Packing the first `n` pixels of an image and unpacking the words gives
/// back those `4 * n` bytes.
pub proof fn lemma_pack_unpack(pixels: Seq<u8>, words: Seq<u32>, bytes: Seq<u8>, n: int)
    requires
        0 <= n,
        pixels.len() >= 4 * n,
        words.len() == n,
        forall|i: int|
            0 <= i < n ==> #[trigger] words[i] == word_of(
                pixels[4 * i],
                pixels[4 * i + 1],
                pixels[4 * i + 2],
                pixels[4 * i + 3],
            ),
        bytes.len() == 4 * n,
        forall|j: int| 0 <= j < bytes.len() ==> #[trigger] bytes[j] == byte_of(words[j / 4], j % 4),
    ensures
        bytes == pixels.subrange(0, 4 * n),
{
    assert forall|j: int| 0 <= j < 4 * n implies #[trigger] bytes[j] == pixels[j] by {
        let i = j / 4;
        lemma_pack_roundtrip(pixels[4 * i], pixels[4 * i + 1], pixels[4 * i + 2], pixels[4 * i + 3]);
        assert(words[i] == word_of(pixels[4 * i], pixels[4 * i + 1], pixels[4 * i + 2], pixels[4 * i + 3]));
    }
    assert(bytes =~= pixels.subrange(0, 4 * n));
}

} // verus!
