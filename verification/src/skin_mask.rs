//! Skin mask assembly: skin-colour test, polygon exclusions and edge feathering.
//!
//! The mask is one byte per pixel, used as a per-pixel blend weight.
use crate::window::{
    box_blur, box_blur_values, clamp_index, clamped_sum, col_of, horizontal_pass, in_byte_range,
    lemma_clamped_slide, lemma_grid_index, lemma_grid_split, lemma_horizontal_range,
    lemma_line_box_range, lemma_uniform_blur_invariant, lemma_vertical_range, lemma_window_nonneg, lemma_window_start, line_box,
    min, missing_copies, row_of, vertical_pass, widen,
};
use crate::binary32::{
    byte_prod_exec, diff, diff_exec, from_u8, lemma_byte_prod_close, lemma_diff_close,
    lemma_sum_close, one, prod, sum, sum_exec, ONE,
};
use crate::filters::{luma, LUMA_B, LUMA_G, LUMA_R};
use vstd::prelude::*;

verus! {

/// Mask value of a face pixel whose colour passes the skin test.
pub const INSIDE_BASE: u8 = 255;

/// Mask value of a face pixel whose colour fails the skin test (dimmed, not removed).
pub const INSIDE_NONSKIN_DIM: u8 = 160;

/// Weight of red in the blue-difference chroma, 0.168736 (entering negated).
pub const CB_R: i128 = 47494960513024;

/// Weight of green in the blue-difference chroma, 0.331264 (subtracted).
pub const CB_G: i128 = 93242523648000;

/// The weight 0.5.
pub const HALF: i128 = 140737488355328;

/// Weight of green in the red-difference chroma, 0.418688 (subtracted).
pub const CR_G: i128 = 117850194837504;

/// Weight of blue in the red-difference chroma, 0.081312 (subtracted).
pub const CR_B: i128 = 22887293517824;

/// Blue-difference chroma: `-0.168736 r - 0.331264 g + 0.5 b + 128.0`.
pub open spec fn chroma_blue(r: u8, g: u8, b: u8) -> int {
    sum(
        sum(diff(prod(from_u8(r), -CB_R), prod(from_u8(g), CB_G as int)), prod(from_u8(b), HALF as int)),
        128 * one(),
    )
}

/// Red-difference chroma: `0.5 r - 0.418688 g - 0.081312 b + 128.0`.
pub open spec fn chroma_red(r: u8, g: u8, b: u8) -> int {
    sum(
        diff(diff(prod(from_u8(r), HALF as int), prod(from_u8(g), CR_G as int)), prod(from_u8(b), CR_B as int)),
        128 * one(),
    )
}

/// Skin-colour test in YCbCr: luma above 60, Cb in 77 ..= 130, Cr in 130 ..= 180.
pub open spec fn is_skin(r: u8, g: u8, b: u8) -> bool {
    &&& luma(r, g, b) > 60 * one()
    &&& 77 * one() <= chroma_blue(r, g, b) <= 130 * one()
    &&& 130 * one() <= chroma_red(r, g, b) <= 180 * one()
}

/// A grey pixel is never skin: its red-difference chroma stays at 128, below
/// the skin range.
pub proof fn lemma_grey_is_not_skin(v: u8)
    ensures
        !is_skin(v, v, v),
{
    let e: int = 0x8_0000_0002;
    lemma_byte_prod_close(v, HALF as int);
    lemma_byte_prod_close(v, CR_G as int);
    lemma_byte_prod_close(v, CR_B as int);
    let ph = prod(from_u8(v), HALF as int);
    let pg = prod(from_u8(v), CR_G as int);
    let pb = prod(from_u8(v), CR_B as int);
    assert(HALF - CR_G - CR_B == 0);
    assert(v * HALF - v * CR_G - v * CR_B == 0) by (nonlinear_arith)
        requires HALF - CR_G - CR_B == 0;
    assert(0 <= v * HALF <= 255 * HALF) by (nonlinear_arith)
        requires 0 <= v <= 255;
    assert(0 <= v * CR_G <= 255 * CR_G) by (nonlinear_arith)
        requires 0 <= v <= 255;
    assert(0 <= v * CR_B <= 255 * CR_B) by (nonlinear_arith)
        requires 0 <= v <= 255;
    let d1 = diff(ph, pg);
    lemma_diff_close(ph, pg);
    let d2 = diff(d1, pb);
    lemma_diff_close(d1, pb);
    assert(-5 * e <= d2 <= 5 * e);
    lemma_sum_close(d2, 128 * one());
    assert(chroma_red(v, v, v) < 130 * one());
}

/// Decides whether a colour lies in the skin range of YCbCr space.
pub fn is_skin_ycbcr(r: u8, g: u8, b: u8) -> (res: bool)
    ensures
        res == is_skin(r, g, b),
{
    let y = crate::filters::luma_exec(r, g, b);
    let cb = sum_exec(
        sum_exec(diff_exec(byte_prod_exec(r, -CB_R), byte_prod_exec(g, CB_G)), byte_prod_exec(b, HALF)),
        128 * ONE,
    );
    let cr = sum_exec(
        diff_exec(diff_exec(byte_prod_exec(r, HALF), byte_prod_exec(g, CR_G)), byte_prod_exec(b, CR_B)),
        128 * ONE,
    );
    y > 60 * ONE && 77 * ONE <= cb && cb <= 130 * ONE && 130 * ONE <= cr && cr <= 180 * ONE
}

/// Largest blur half-width for which the running sums fit in 32 bits.
pub const MAX_RADIUS: usize = 8_421_503;

/// Copies `src` into `dst`.
fn copy_into(dst: &mut [u8], src: &[u8])
    requires
        old(dst)@.len() == src@.len(),
    ensures
        final(dst)@ == src@,
{
    let n = src.len();
    let mut i: usize = 0;
    while i < n
        invariant
            n == src@.len(),
            dst@.len() == n,
            0 <= i <= n,
            forall|j: int| 0 <= j < i ==> #[trigger] dst@[j] == src@[j],
        decreases n - i,
    {
        dst[i] = src[i];
        i = i + 1;
    }
    assert(dst@ =~= src@);
}

/// One pass of the separable box blur: every row is averaged over a window of
/// `2 * radius + 1` samples with both edges replicated, then every column of
/// that result likewise (averages truncate).  `radius == 0` copies `src`.
pub fn box_blur_pass(src: &[u8], dst: &mut [u8], width: usize, height: usize, radius: usize)
    requires
        radius == 0 ==> old(dst)@.len() == src@.len(),
        radius > 0 ==> src@.len() >= width * height && old(dst)@.len() >= width * height,
        radius <= MAX_RADIUS,
        radius == 0 || (width == 0) == (height == 0),
        width + radius + 1 <= usize::MAX,
        height + radius + 1 <= usize::MAX,
    ensures
        final(dst)@.len() == old(dst)@.len(),
        radius == 0 ==> final(dst)@ == src@,
        radius > 0 ==> final(dst)@.subrange(0, width * height) == box_blur(
            src@.subrange(0, width * height),
            width as int,
            height as int,
            radius as int,
        ),
        radius > 0 ==> forall|i: int|
            width * height <= i < old(dst)@.len() ==> #[trigger] final(dst)@[i] == old(dst)@[i],
        src@.len() == width * height && old(dst)@.len() == width * height ==> final(dst)@
            == box_blur(src@, width as int, height as int, radius as int),
{
    if radius == 0 {
        copy_into(dst, src);
        assert(box_blur(src@, width as int, height as int, 0) =~= src@);
        return;
    }
    let ghost dlen = dst@.len();
    let ghost d0 = dst@;
    let ghost w = width as int;
    let ghost h = height as int;
    let ghost r = radius as int;
    let slen = src.len();
    proof {
        assert(width * height <= slen);
    }
    let n = width * height;
    let ghost s0 = src@.subrange(0, n as int);
    let ghost img = widen(s0);
    let ghost hp = horizontal_pass(img, w, h, r);
    let mut tmp: Vec<u16> = vec![0u16; n];
    let win: u32 = (radius * 2 + 1) as u32;
    assert(in_byte_range(img));
    // Horizontal pass: src -> tmp.
    let mut y: usize = 0;
    while y < height
        invariant
            w == width,
            h == height,
            r == radius,
            1 <= radius <= MAX_RADIUS,
            (width == 0) == (height == 0),
            width + radius + 1 <= usize::MAX,
            n == w * h,
            src@.len() >= n,
            img == widen(src@.subrange(0, n as int)),
            in_byte_range(img),
            hp == horizontal_pass(img, w, h, r),
            win == 2 * radius + 1,
            tmp@.len() == n,
            0 <= y <= height,
            forall|i: int| 0 <= i < y * w ==> #[trigger] tmp@[i] as int == hp[i],
        decreases height - y,
    {
        proof {
            assert(width > 0);
            assert((y + 1) * w <= n) by (nonlinear_arith)
                requires y < h, n == w * h, w > 0;
            assert((y + 1) * w == y * w + w) by (nonlinear_arith);
        }
        let row = y * width;
        let ghost line = row_of(img, w, y as int);
        proof {
            assert forall|k: int| 0 <= k < line.len() implies 0 <= #[trigger] line[k] <= 255 by {
                lemma_grid_index(k, y as int, w, h);
            }
        }
        let kmax = if radius < width - 1 {
            radius
        } else {
            width - 1
        };
        let mut acc: u32 = 0;
        let mut k: usize = 0;
        while k <= kmax
            invariant
                w == width,
                h == height,
                r == radius,
                width > 0,
                y < height,
                row == y * w,
                row + w <= n,
                src@.len() >= n,
                img == widen(src@.subrange(0, n as int)),
                line == row_of(img, w, y as int),
                in_byte_range(line),
                kmax == min(r, w - 1),
                1 <= radius <= MAX_RADIUS,
                0 <= k <= kmax + 1,
                acc == clamped_sum(line, 0, k as int),
                acc <= k * 255,
            decreases kmax + 1 - k,
        {
            proof {
                lemma_grid_index(k as int, y as int, w, h);
                assert(clamped_sum(line, 0, k + 1) == clamped_sum(line, 0, k as int) + line[k as int]);
            }
            acc = acc + src[row + k] as u32;
            k = k + 1;
        }
        proof {
            lemma_window_start(line, r);
            lemma_grid_index(0, y as int, w, h);
            let v = src@[row as int];
            assert(radius * v <= radius * 255) by (nonlinear_arith)
                requires v <= 255;
        }
        acc = acc + (radius as u32) * (src[row] as u32);
        proof {
            lemma_grid_index(w - 1, y as int, w, h);
            let e = src@[row + w - 1];
            assert(line[w - 1] == e);
            assert((radius - kmax) * e <= (radius - kmax) * 255) by (nonlinear_arith)
                requires e <= 255, kmax <= radius;
            assert(acc + (radius - kmax) * 255 <= (2 * radius + 1) * 255) by (nonlinear_arith)
                requires acc <= (kmax + 1) * 255 + radius * 255, kmax <= radius;
        }
        // Replicate the right edge where the window reaches past it.
        acc = acc + ((radius - kmax) as u32) * (src[row + width - 1] as u32);
        let mut x: usize = 0;
        while x < width
            invariant
                w == width,
                h == height,
                r == radius,
                1 <= radius <= MAX_RADIUS,
                width > 0,
                width + radius + 1 <= usize::MAX,
                y < height,
                row == y * w,
                row + w <= n,
                src@.len() >= n,
                img == widen(src@.subrange(0, n as int)),
                hp == horizontal_pass(img, w, h, r),
                line == row_of(img, w, y as int),
                in_byte_range(line),
                win == 2 * radius + 1,
                tmp@.len() == n,
                0 <= x <= width,
                acc as int == clamped_sum(line, x - r, x + r + 1),
                forall|i: int| 0 <= i < row + x ==> #[trigger] tmp@[i] as int == hp[i],
            decreases width - x,
        {
            proof {
                lemma_line_box_range(line, x as int, r);
                lemma_grid_index(x as int, y as int, w, h);
                assert(hp[row + x] == line_box(line, x as int, r));
            }
            tmp[row + x] = (acc / win) as u16;
            let left = if x >= radius {
                x - radius
            } else {
                0
            };
            let right = if x + radius + 1 < width - 1 {
                x + radius + 1
            } else {
                width - 1
            };
            proof {
                assert(left == clamp_index(x - r, w));
                assert(right == clamp_index(x + r + 1, w));
                lemma_grid_index(left as int, y as int, w, h);
                lemma_grid_index(right as int, y as int, w, h);
                lemma_window_nonneg(line, x as int, r);
                lemma_window_nonneg(line, x + 1, r);
                lemma_clamped_slide(line, x - r, x + r + 1);
                assert((2 * r + 2) * 255 <= u32::MAX);
            }
            acc = acc + src[row + right] as u32 - src[row + left] as u32;
            x = x + 1;
        }
        y = y + 1;
    }
    proof {
        assert(y * w == n) by (nonlinear_arith)
            requires y == h, n == w * h;
        if width > 0 {
            lemma_horizontal_range(img, w, h, r);
        }
    }
    // Vertical pass: tmp -> dst.
    let ghost vp = vertical_pass(hp, w, h, r);
    let mut x: usize = 0;
    while x < width
        invariant
            w == width,
            h == height,
            r == radius,
            1 <= radius <= MAX_RADIUS,
            (width == 0) == (height == 0),
            height + radius + 1 <= usize::MAX,
            n == w * h,
            hp == horizontal_pass(img, w, h, r),
            hp.len() == n,
            width > 0 ==> in_byte_range(hp),
            vp == vertical_pass(hp, w, h, r),
            win == 2 * radius + 1,
            tmp@.len() == n,
            dst@.len() == dlen,
            dlen >= n,
            forall|i: int| n <= i < dlen ==> #[trigger] dst@[i] == d0[i],
            forall|i: int| 0 <= i < n ==> #[trigger] tmp@[i] as int == hp[i],
            0 <= x <= width,
            forall|i: int| 0 <= i < n && i % w < x ==> #[trigger] dst@[i] as int == vp[i],
        decreases width - x,
    {
        let ghost col = col_of(hp, w, h, x as int);
        proof {
            assert(height > 0);
            assert forall|k: int| 0 <= k < col.len() implies 0 <= #[trigger] col[k] <= 255 by {
                lemma_grid_index(x as int, k, w, h);
            }
        }
        let kmax = if radius < height - 1 {
            radius
        } else {
            height - 1
        };
        let mut acc: u32 = 0;
        let mut k: usize = 0;
        while k <= kmax
            invariant
                w == width,
                h == height,
                r == radius,
                height > 0,
                x < width,
                n == w * h,
                tmp@.len() == n,
                forall|i: int| 0 <= i < n ==> #[trigger] tmp@[i] as int == hp[i],
                col == col_of(hp, w, h, x as int),
                in_byte_range(col),
                kmax == min(r, h - 1),
                1 <= radius <= MAX_RADIUS,
                0 <= k <= kmax + 1,
                acc == clamped_sum(col, 0, k as int),
                acc <= k * 255,
            decreases kmax + 1 - k,
        {
            proof {
                lemma_grid_index(x as int, k as int, w, h);
                assert(clamped_sum(col, 0, k + 1) == clamped_sum(col, 0, k as int) + col[k as int]);
            }
            acc = acc + tmp[k * width + x] as u32;
            k = k + 1;
        }
        proof {
            lemma_window_start(col, r);
            lemma_grid_index(x as int, 0, w, h);
            let v = tmp@[x as int];
            assert(v == col[0]);
            assert(radius * v <= radius * 255) by (nonlinear_arith)
                requires v <= 255;
        }
        acc = acc + (radius as u32) * (tmp[x] as u32);
        proof {
            lemma_grid_index(x as int, h - 1, w, h);
            let e = tmp@[(h - 1) * w + x];
            assert(e == col[h - 1]);
            assert((radius - kmax) * e <= (radius - kmax) * 255) by (nonlinear_arith)
                requires e <= 255, kmax <= radius;
            assert(acc + (radius - kmax) * 255 <= (2 * radius + 1) * 255) by (nonlinear_arith)
                requires acc <= (kmax + 1) * 255 + radius * 255, kmax <= radius;
        }
        // Replicate the bottom edge where the window reaches past it.
        acc = acc + ((radius - kmax) as u32) * (tmp[(height - 1) * width + x] as u32);
        let mut y: usize = 0;
        while y < height
            invariant
                w == width,
                h == height,
                r == radius,
                1 <= radius <= MAX_RADIUS,
                height > 0,
                height + radius + 1 <= usize::MAX,
                x < width,
                n == w * h,
                hp.len() == n,
                vp == vertical_pass(hp, w, h, r),
                col == col_of(hp, w, h, x as int),
                in_byte_range(col),
                win == 2 * radius + 1,
                tmp@.len() == n,
                forall|i: int| 0 <= i < n ==> #[trigger] tmp@[i] as int == hp[i],
                dst@.len() == dlen,
                dlen >= n,
                forall|i: int| n <= i < dlen ==> #[trigger] dst@[i] == d0[i],
                0 <= y <= height,
                acc as int == clamped_sum(col, y - r, y + r + 1),
                forall|i: int|
                    0 <= i < n && (i % w < x || (i % w == x && i / w < y)) ==> #[trigger] dst@[i]
                        as int == vp[i],
            decreases height - y,
        {
            proof {
                lemma_line_box_range(col, y as int, r);
                lemma_grid_index(x as int, y as int, w, h);
                assert(vp[y * w + x] == line_box(col, y as int, r));
            }
            let ghost prev = dst@;
            dst[y * width + x] = (acc / win) as u8;
            proof {
                assert forall|i: int|
                    0 <= i < n && (i % w < x || (i % w == x && i / w < y + 1)) implies #[trigger] dst@[i]
                        as int == vp[i] by {
                    lemma_grid_split(i, w, h);
                    if i != y * w + x {
                        assert(dst@[i] == prev[i]);
                        if i % w == x && i / w == y {
                            assert(false);
                        }
                    }
                }
            }
            let top = if y >= radius {
                y - radius
            } else {
                0
            };
            let bot = if y + radius + 1 < height - 1 {
                y + radius + 1
            } else {
                height - 1
            };
            proof {
                assert(top == clamp_index(y - r, h));
                assert(bot == clamp_index(y + r + 1, h));
                lemma_grid_index(x as int, top as int, w, h);
                lemma_grid_index(x as int, bot as int, w, h);
                lemma_window_nonneg(col, y as int, r);
                lemma_window_nonneg(col, y + 1, r);
                lemma_clamped_slide(col, y - r, y + r + 1);
                assert((2 * r + 2) * 255 <= u32::MAX);
            }
            acc = acc + tmp[bot * width + x] as u32 - tmp[top * width + x] as u32;
            y = y + 1;
        }
        proof {
            assert forall|i: int| 0 <= i < n && i % w < x + 1 implies #[trigger] dst@[i] as int
                == vp[i] by {
                lemma_grid_split(i, w, h);
            }
        }
        x = x + 1;
    }
    proof {
        let bv = box_blur_values(s0, w, h, r);
        assert(bv == vp);
        if width > 0 {
            lemma_vertical_range(hp, w, h, r);
        }
        assert forall|i: int| 0 <= i < n implies #[trigger] dst@[i] as int == bv[i] by {
            lemma_grid_split(i, w, h);
        }
        assert(dst@.subrange(0, n as int) =~= box_blur(s0, w, h, r));
        if src@.len() == n && dlen == n {
            assert(s0 =~= src@);
            assert(dst@ =~= dst@.subrange(0, n as int));
        }
    }
}

/// Three box-blur passes (close to a Gaussian), the identity for radius 0.
pub open spec fn feathered(mask: Seq<u8>, w: int, h: int, r: int) -> Seq<u8> {
    if r == 0 {
        mask
    } else {
        box_blur(box_blur(box_blur(mask, w, h, r), w, h, r), w, h, r)
    }
}

/// Feathering leaves a uniform mask unchanged, whatever the radius.
pub proof fn lemma_uniform_feather_invariant(mask: Seq<u8>, w: int, h: int, r: int, v: u8)
    requires
        mask.len() == w * h,
        0 <= w,
        0 <= h,
        0 <= r,
        forall|i: int| 0 <= i < mask.len() ==> #[trigger] mask[i] == v,
    ensures
        feathered(mask, w, h, r) == mask,
{
    if r > 0 {
        lemma_uniform_blur_invariant(mask, w, h, r, v);
        lemma_uniform_blur_invariant(box_blur(mask, w, h, r), w, h, r, v);
        lemma_uniform_blur_invariant(box_blur(box_blur(mask, w, h, r), w, h, r), w, h, r, v);
    }
}

/// Softens the edges of a `width` x `height` mask with three box-blur passes.
pub fn feather(mask: &mut [u8], width: usize, height: usize, radius: usize)
    requires
        old(mask)@.len() == width * height,
        radius <= MAX_RADIUS,
        radius == 0 || (width == 0) == (height == 0),
        width + radius + 1 <= usize::MAX,
        height + radius + 1 <= usize::MAX,
    ensures
        final(mask)@ == feathered(old(mask)@, width as int, height as int, radius as int),
{
    if radius == 0 {
        return;
    }
    let mut tmp = vec![0u8; mask.len()];
    box_blur_pass(mask, tmp.as_mut_slice(), width, height, radius);
    box_blur_pass(tmp.as_slice(), mask, width, height, radius);
    box_blur_pass(mask, tmp.as_mut_slice(), width, height, radius);
    copy_into(mask, tmp.as_slice());
}

/// The polygons of a packed buffer `[n_polys, len_0, x0, y0, ..., len_1, ...]`
/// from position `i` on, at most `remaining` of them: each is the range of its
/// `2 * len` coordinates; decoding stops at the first polygon whose length
/// entry or coordinates run past the buffer.
pub open spec fn decode_polys(c: Seq<usize>, i: int, remaining: int) -> Seq<(usize, usize)>
    decreases remaining,
{
    if remaining <= 0 || i < 0 || i >= c.len() {
        seq![]
    } else {
        let start = i + 1;
        let end = start + 2 * c[i];
        if end > c.len() {
            seq![]
        } else {
            seq![(start as usize, end as usize)] + decode_polys(c, end, remaining - 1)
        }
    }
}

/// All polygons of a packed buffer; its first entry is the number of polygons.
pub open spec fn packed_polys(c: Seq<usize>) -> Seq<(usize, usize)> {
    if c.len() == 0 {
        seq![]
    } else {
        decode_polys(c, 1, c[0] as int)
    }
}

/// What decoding from position `i` gives: polygons that follow one another
/// (each starts just past the previous one's end, the first just past `i`),
/// each spanning twice its count, all inside the buffer; at most `remaining`
/// of them; and when fewer, the next count entry is missing or its polygon
/// runs past the buffer.
pub proof fn lemma_decode_polys_shape(c: Seq<usize>, i: int, remaining: int)
    requires
        0 <= i,
        c.len() <= usize::MAX,
    ensures
        ({
            let d = decode_polys(c, i, remaining);
            &&& d.len() <= (if remaining > 0 { remaining } else { 0 })
            &&& d.len() > 0 ==> d[0].0 == i + 1
            &&& forall|m: int|
                0 <= m < d.len() ==> 1 <= (#[trigger] d[m]).0 <= d[m].1 <= c.len() && d[m].1 == d[m].0
                    + 2 * c[d[m].0 - 1]
            &&& forall|m: int| 0 <= m < d.len() - 1 ==> #[trigger] d[m + 1].0 == d[m].1 + 1
            &&& d.len() < remaining ==> {
                let e = if d.len() == 0 { i } else { d[d.len() - 1].1 as int };
                e >= c.len() || e + 1 + 2 * c[e] > c.len()
            }
        }),
    decreases remaining,
{
    if remaining <= 0 || i >= c.len() {
    } else {
        let start = i + 1;
        let end = start + 2 * c[i];
        if end > c.len() {
        } else {
            lemma_decode_polys_shape(c, end, remaining - 1);
            let tail = decode_polys(c, end, remaining - 1);
            let d = decode_polys(c, i, remaining);
            assert(d == seq![(start as usize, end as usize)] + tail);
            assert((end as usize) as int == end && (start as usize) as int == start);
            assert(d[0] == (start as usize, end as usize));
            assert forall|m: int| 0 <= m < d.len() implies 1 <= (#[trigger] d[m]).0 <= d[m].1 <= c.len()
                && d[m].1 == d[m].0 + 2 * c[d[m].0 - 1] by {
                if m > 0 {
                    assert(d[m] == tail[m - 1]);
                }
            }
            assert forall|m: int| 0 <= m < d.len() - 1 implies #[trigger] d[m + 1].0 == d[m].1 + 1 by {
                assert(d[m + 1] == tail[m]);
                if m > 0 {
                    assert(d[m] == tail[m - 1]);
                    let m1 = m - 1;
                    assert(0 <= m1 < tail.len() - 1);
                    assert(tail[m1 + 1].0 == tail[m1].1 + 1);
                    assert(m1 + 1 == m);
                } else {
                    assert(tail[0].0 == end + 1);
                }
            }
            if d.len() < remaining && tail.len() > 0 {
                assert(d[d.len() - 1] == tail[tail.len() - 1]);
            }
        }
    }
}

/// Splits a packed exclusions buffer into its polygons.
///
/// `counts` is the packed buffer `[n_polys, len_0, x0, y0, x1, y1, ..., len_1, ...]`
/// with every entry truncated to an integer (only the count entries are read).
/// The result holds, for each polygon, the index range `start .. end` of its
/// `2 * len` coordinates.
pub fn iter_packed_polys(counts: &[usize]) -> (out: Vec<(usize, usize)>)
    ensures
        out@ == packed_polys(counts@),
        counts@.len() == 0 ==> out@.len() == 0,
        counts@.len() > 0 ==> out@.len() <= counts@[0],
        out@.len() > 0 ==> out@[0].0 == 2,
        forall|m: int|
            0 <= m < out@.len() ==> 1 <= (#[trigger] out@[m]).0 <= out@[m].1 <= counts@.len()
                && out@[m].1 == out@[m].0 + 2 * counts@[out@[m].0 - 1],
        forall|m: int| 0 <= m < out@.len() - 1 ==> #[trigger] out@[m + 1].0 == out@[m].1 + 1,
        counts@.len() > 0 && out@.len() < counts@[0] ==> {
            let e = if out@.len() == 0 { 1 } else { out@[out@.len() - 1].1 as int };
            e >= counts@.len() || e + 1 + 2 * counts@[e] > counts@.len()
        },
{
    let cl = counts.len();
    proof {
        if counts@.len() > 0 {
            lemma_decode_polys_shape(counts@, 1, counts@[0] as int);
        }
    }
    let mut out: Vec<(usize, usize)> = Vec::new();
    if counts.len() == 0 {
        return out;
    }
    let n = counts[0];
    let mut i: usize = 1;
    let mut done: usize = 0;
    let ghost c = counts@;
    loop
        invariant
            c == counts@,
            c.len() > 0,
            n == c[0],
            0 <= done <= n,
            1 <= i,
            i <= c.len(),
            out@ + decode_polys(c, i as int, n - done) == packed_polys(c),
        ensures
            out@ == packed_polys(c),
        decreases n - done,
    {
        if done >= n || i >= counts.len() {
            assert(out@ + decode_polys(c, i as int, n - done) =~= out@);
            break;
        }
        let len = counts[i];
        let start = i + 1;
        // `start + 2 * len` runs past the buffer exactly when `len` exceeds half of what is left.
        if len > (counts.len() - start) / 2 {
            assert(out@ + decode_polys(c, i as int, n - done) =~= out@);
            break;
        }
        let coord_count = len * 2;
        let ghost prev = out@;
        out.push((start, start + coord_count));
        proof {
            let tail = decode_polys(c, (start + coord_count) as int, n - done - 1);
            assert(decode_polys(c, i as int, n - done) == seq![(start, (start + coord_count) as usize)]
                + tail);
            assert(out@ + tail =~= prev + decode_polys(c, i as int, n - done));
        }
        i = start + coord_count;
        done = done + 1;
    }
    out
}

/// `pixel i` lies inside one of the first `k` exclusion rasters.
pub open spec fn excluded(excl: Seq<Vec<bool>>, i: int, k: int) -> bool
    decreases k,
{
    if k <= 0 {
        false
    } else {
        excluded(excl, i, k - 1) || excl[k - 1]@[i]
    }
}

/// Mask value before feathering: 0 outside the face or inside an exclusion,
/// 255 for skin-coloured face pixels, 160 for other face pixels.
pub open spec fn raw_mask(face: Seq<bool>, excl: Seq<Vec<bool>>, pixels: Seq<u8>) -> Seq<u8> {
    Seq::new(
        face.len(),
        |i: int|
            if excluded(excl, i, excl.len() as int) || !face[i] {
                0u8
            } else if is_skin(pixels[4 * i], pixels[4 * i + 1], pixels[4 * i + 2]) {
                INSIDE_BASE
            } else {
                INSIDE_NONSKIN_DIM
            },
    )
}

/// A pixel is excluded by the first `k` rasters exactly when one of them
/// covers it.
pub proof fn lemma_excluded_iff(excl: Seq<Vec<bool>>, i: int, k: int)
    ensures
        excluded(excl, i, k) <==> exists|j: int| 0 <= j < k && #[trigger] excl[j]@[i],
    decreases k,
{
    if k > 0 {
        lemma_excluded_iff(excl, i, k - 1);
        if excluded(excl, i, k) && !excl[k - 1]@[i] {
            let j = choose|j: int| 0 <= j < k - 1 && #[trigger] excl[j]@[i];
            assert(0 <= j < k && excl[j]@[i]);
        }
        if exists|j: int| 0 <= j < k && #[trigger] excl[j]@[i] {
            let j = choose|j: int| 0 <= j < k && #[trigger] excl[j]@[i];
            if j < k - 1 {
                assert(exists|j2: int| 0 <= j2 < k - 1 && #[trigger] excl[j2]@[i]);
            }
        }
    }
}

/// The unfeathered mask is 0 exactly where the face raster is off or some
/// exclusion raster (whichever, in whatever order) is on; every other pixel is
/// 255 if its colour passes the skin test and 160 if not.
pub proof fn lemma_raw_mask_laws(face: Seq<bool>, excl: Seq<Vec<bool>>, pixels: Seq<u8>)
    ensures
        raw_mask(face, excl, pixels).len() == face.len(),
        forall|k: int, i: int|
            0 <= k < excl.len() && 0 <= i < face.len() && #[trigger] excl[k]@[i] ==> raw_mask(
                face,
                excl,
                pixels,
            )[i] == 0,
        forall|i: int|
            0 <= i < face.len() ==> (#[trigger] raw_mask(face, excl, pixels)[i] == 0 <==> (!face[i]
                || exists|k: int| 0 <= k < excl.len() && #[trigger] excl[k]@[i])),
        forall|i: int|
            0 <= i < face.len() && #[trigger] raw_mask(face, excl, pixels)[i] != 0 ==> (raw_mask(
                face,
                excl,
                pixels,
            )[i] == 255 <==> is_skin(pixels[4 * i], pixels[4 * i + 1], pixels[4 * i + 2]))
                && (raw_mask(face, excl, pixels)[i] == 255 || raw_mask(face, excl, pixels)[i] == 160),
{
    let m = raw_mask(face, excl, pixels);
    assert forall|i: int| 0 <= i < face.len() implies (#[trigger] m[i] == 0 <==> (!face[i]
        || exists|k: int| 0 <= k < excl.len() && #[trigger] excl[k]@[i])) by {
        lemma_excluded_iff(excl, i, excl.len() as int);
    }
    assert forall|k: int, i: int|
        0 <= k < excl.len() && 0 <= i < face.len() && #[trigger] excl[k]@[i] implies m[i] == 0 by {
        lemma_excluded_iff(excl, i, excl.len() as int);
    }
}

/// The unfeathered mask does not depend on the order (or repetition) of the
/// exclusion rasters: two lists that hold the same rasters give the same mask.
pub proof fn lemma_raw_mask_order_free(
    face: Seq<bool>,
    e1: Seq<Vec<bool>>,
    e2: Seq<Vec<bool>>,
    pixels: Seq<u8>,
)
    requires
        forall|k: int| 0 <= k < e1.len() ==> exists|j: int| 0 <= j < e2.len() && #[trigger] e2[j]@ == #[trigger] e1[k]@,
        forall|j: int| 0 <= j < e2.len() ==> exists|k: int| 0 <= k < e1.len() && #[trigger] e1[k]@ == #[trigger] e2[j]@,
    ensures
        raw_mask(face, e1, pixels) == raw_mask(face, e2, pixels),
{
    lemma_raw_mask_laws(face, e1, pixels);
    lemma_raw_mask_laws(face, e2, pixels);
    let m1 = raw_mask(face, e1, pixels);
    let m2 = raw_mask(face, e2, pixels);
    assert forall|i: int| 0 <= i < face.len() implies m1[i] == m2[i] by {
        lemma_excluded_iff(e1, i, e1.len() as int);
        lemma_excluded_iff(e2, i, e2.len() as int);
        if exists|k: int| 0 <= k < e1.len() && #[trigger] e1[k]@[i] {
            let k = choose|k: int| 0 <= k < e1.len() && #[trigger] e1[k]@[i];
            let j = choose|j: int| 0 <= j < e2.len() && #[trigger] e2[j]@ == #[trigger] e1[k]@;
            assert(e2[j]@[i]);
        }
        if exists|j: int| 0 <= j < e2.len() && #[trigger] e2[j]@[i] {
            let j = choose|j: int| 0 <= j < e2.len() && #[trigger] e2[j]@[i];
            let k = choose|k: int| 0 <= k < e1.len() && #[trigger] e1[k]@ == #[trigger] e2[j]@;
            assert(e1[k]@[i]);
        }
    }
    assert(m1 =~= m2);
}

/// Builds the skin mask of a `width` x `height` image.
///
/// `face` is the rasterised face polygon (one flag per pixel), `exclusions` the
/// rasterised eye, brow, lip and nostril polygons, `pixels` the RGBA image whose
/// colours refine the mask, and `feather_radius` the half-width of the three
/// box-blur passes that soften its edges.
pub fn build_mask(
    width: usize,
    height: usize,
    face: &[bool],
    exclusions: &[Vec<bool>],
    pixels: &[u8],
    feather_radius: usize,
) -> (mask: Vec<u8>)
    requires
        face@.len() == width * height,
        forall|k: int| 0 <= k < exclusions@.len() ==> (#[trigger] exclusions@[k])@.len() == width * height,
        forall|i: int| 0 <= i < width * height && #[trigger] face@[i] ==> 4 * i + 2 < pixels@.len(),
        feather_radius <= MAX_RADIUS,
        feather_radius == 0 || (width == 0) == (height == 0),
        width + feather_radius + 1 <= usize::MAX,
        height + feather_radius + 1 <= usize::MAX,
    ensures
        mask@ == feathered(raw_mask(face@, exclusions@, pixels@), width as int, height as int, feather_radius as int),
        mask@.len() == width * height,
        feather_radius == 0 ==> forall|k: int, i: int|
            0 <= k < exclusions@.len() && 0 <= i < width * height && #[trigger] exclusions@[k]@[i]
                ==> mask@[i] == 0,
        feather_radius == 0 ==> forall|i: int|
            0 <= i < width * height ==> (#[trigger] mask@[i] == 0 <==> (!face@[i] || exists|k: int|
                0 <= k < exclusions@.len() && #[trigger] exclusions@[k]@[i])),
        feather_radius == 0 ==> forall|i: int|
            0 <= i < width * height && #[trigger] mask@[i] != 0 ==> (mask@[i] == 255 <==> is_skin(
                pixels@[4 * i],
                pixels@[4 * i + 1],
                pixels@[4 * i + 2],
            )) && (mask@[i] == 255 || mask@[i] == 160),
{
    let n = face.len();
    let ghost target = raw_mask(face@, exclusions@, pixels@);
    let plen = pixels.len();
    let mut mask = vec![0u8; n];
    let mut i: usize = 0;
    while i < n
        invariant
            plen == pixels@.len(),
            n == face@.len(),
            n == width * height,
            forall|q: int| 0 <= q < width * height && #[trigger] face@[q] ==> 4 * q + 2 < pixels@.len(),
            mask@.len() == n,
            0 <= i <= n,
            forall|j: int|
                0 <= j < n ==> #[trigger] mask@[j] == if j < i && face@[j] {
                    if is_skin(pixels@[4 * j], pixels@[4 * j + 1], pixels@[4 * j + 2]) {
                        INSIDE_BASE
                    } else {
                        INSIDE_NONSKIN_DIM
                    }
                } else {
                    0u8
                },
        decreases n - i,
    {
        if face[i] {
            let skin = is_skin_ycbcr(pixels[i * 4], pixels[i * 4 + 1], pixels[i * 4 + 2]);
            mask[i] = if skin {
                INSIDE_BASE
            } else {
                INSIDE_NONSKIN_DIM
            };
        }
        i = i + 1;
    }
    let mut k: usize = 0;
    while k < exclusions.len()
        invariant
            n == face@.len(),
            n == width * height,
            forall|q: int| 0 <= q < exclusions@.len() ==> (#[trigger] exclusions@[q])@.len() == width * height,
            mask@.len() == n,
            0 <= k <= exclusions@.len(),
            forall|j: int|
                0 <= j < n ==> #[trigger] mask@[j] == if excluded(exclusions@, j, k as int) || !face@[j] {
                    0u8
                } else if is_skin(pixels@[4 * j], pixels@[4 * j + 1], pixels@[4 * j + 2]) {
                    INSIDE_BASE
                } else {
                    INSIDE_NONSKIN_DIM
                },
        decreases exclusions@.len() - k,
    {
        let poly = &exclusions[k];
        let mut j: usize = 0;
        while j < n
            invariant
                n == face@.len(),
                poly@.len() == n,
                *poly == exclusions@[k as int],
                0 <= k < exclusions@.len(),
                mask@.len() == n,
                0 <= j <= n,
                forall|q: int|
                    0 <= q < n ==> #[trigger] mask@[q] == if excluded(exclusions@, q, k as int) || (q
                        < j && poly@[q]) || !face@[q] {
                        0u8
                    } else if is_skin(pixels@[4 * q], pixels@[4 * q + 1], pixels@[4 * q + 2]) {
                        INSIDE_BASE
                    } else {
                        INSIDE_NONSKIN_DIM
                    },
            decreases n - j,
        {
            if poly[j] {
                mask[j] = 0;
            }
            j = j + 1;
        }
        k = k + 1;
    }
    assert(mask@ =~= target);
    feather(mask.as_mut_slice(), width, height, feather_radius);
    proof {
        lemma_raw_mask_laws(face@, exclusions@, pixels@);
    }
    mask
}

} // verus!
