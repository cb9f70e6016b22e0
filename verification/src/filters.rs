//! Whole-image colour filters on RGBA buffers.
//!
//! Every filter rewrites the R, G and B bytes of each complete 4-byte pixel
//! and leaves the alpha byte (and any trailing partial pixel) untouched.
use crate::binary32::{
    byte_prod_exec, from_u8, from_u8_exec, lemma_prod_within, lemma_quot_within, one, prod,
    prod_exec, quot, quot_exec, sum, sum_exec, to_u8, to_u8_exec, ONE, lemma_byte_prod_close,
    lemma_sum_close, lemma_to_u8_near, lemma_quot_close, lemma_prod_close, diff,
};
use crate::text::str_equals;
use crate::hsl::{hsl_of, hsl_to_rgb, min, rgb_of_hsl, rgb_to_hsl};
use vstd::prelude::*;
use vstd::slice::slice_to_vec;

verus! {

/// Luma weight of red, 0.299 in single precision (grid units).
pub const LUMA_R: i128 = 84161016627200;

/// Luma weight of green, 0.587.
pub const LUMA_G: i128 = 165225814818816;

/// Luma weight of blue, 0.114.
pub const LUMA_B: i128 = 32088147361792;

/// Sepia matrix, row for red: 0.393, 0.769, 0.189.
pub const SEPIA_RR: i128 = 110619667726336;

pub const SEPIA_RG: i128 = 216454255345664;

pub const SEPIA_RB: i128 = 53198769356800;

/// Sepia matrix, row for green: 0.349, 0.686, 0.168.
pub const SEPIA_GR: i128 = 98234768818176;

pub const SEPIA_GG: i128 = 193091831070720;

pub const SEPIA_GB: i128 = 47287795449856;

/// Sepia matrix, row for blue: 0.272, 0.534, 0.131.
pub const SEPIA_BR: i128 = 76561197826048;

pub const SEPIA_BG: i128 = 150307631792128;

pub const SEPIA_BB: i128 = 36873221177344;

/// Soft filter: weight of the input channel, 0.85.
pub const SOFT_KEEP: i128 = 239253736914944;

/// Soft filter: weight of mid-grey, 0.15.
pub const SOFT_GREY: i128 = 42221248184320;

/// Saturation gain of the vivid filter, 1.4.
pub const SATURATION_BOOST: i128 = 394064960684032;

/// A channel byte as a fraction of 255.0.
pub open spec fn unit_level(c: u8) -> int {
    quot(from_u8(c), from_u8(255))
}

/// Vivid filter: saturation multiplied by 1.4 (capped at 1.0) in HSL space,
/// hue and lightness kept; channels scaled back by 255.0 and truncated.
pub open spec fn vivid_pixel(r: u8, g: u8, b: u8) -> (u8, u8, u8) {
    let hsl = hsl_of(unit_level(r), unit_level(g), unit_level(b));
    let s2 = min(prod(hsl.1, SATURATION_BOOST as int), one());
    let c = rgb_of_hsl(hsl.0, s2, hsl.2);
    (to_u8(prod(c.0, from_u8(255))), to_u8(prod(c.1, from_u8(255))), to_u8(prod(c.2, from_u8(255))))
}

/// Applies a colour transform to every complete RGBA pixel of `s`;
/// alpha bytes and a trailing partial pixel keep their value.
pub open spec fn recolor(s: Seq<u8>, f: spec_fn(u8, u8, u8) -> (u8, u8, u8)) -> Seq<u8> {
    Seq::new(
        s.len(),
        |i: int|
            {
                let p = i - i % 4;
                if p + 4 <= s.len() && i % 4 < 3 {
                    let c = f(s[p], s[p + 1], s[p + 2]);
                    if i % 4 == 0 {
                        c.0
                    } else if i % 4 == 1 {
                        c.1
                    } else {
                        c.2
                    }
                } else {
                    s[i]
                }
            },
    )
}

/// `wr * r + wg * g + wb * b`, each product and each sum rounded, summed left to right.
pub open spec fn weighted(r: u8, g: u8, b: u8, wr: int, wg: int, wb: int) -> int {
    sum(sum(prod(from_u8(r), wr), prod(from_u8(g), wg)), prod(from_u8(b), wb))
}

/// Luma of a pixel: `0.299 r + 0.587 g + 0.114 b`.
pub open spec fn luma(r: u8, g: u8, b: u8) -> int {
    weighted(r, g, b, LUMA_R as int, LUMA_G as int, LUMA_B as int)
}

/// Grey level of a pixel: its luma truncated to a byte.
pub open spec fn gray_level(r: u8, g: u8, b: u8) -> u8 {
    to_u8(luma(r, g, b))
}

pub open spec fn gray_pixel(r: u8, g: u8, b: u8) -> (u8, u8, u8) {
    (gray_level(r, g, b), gray_level(r, g, b), gray_level(r, g, b))
}

/// One sepia channel: the weighted sum capped at 255.0, truncated to a byte.
pub open spec fn sepia_level(r: u8, g: u8, b: u8, wr: int, wg: int, wb: int) -> u8 {
    let v = weighted(r, g, b, wr, wg, wb);
    to_u8(if v <= 255 * one() { v } else { 255 * one() })
}

pub open spec fn sepia_pixel(r: u8, g: u8, b: u8) -> (u8, u8, u8) {
    (
        sepia_level(r, g, b, SEPIA_RR as int, SEPIA_RG as int, SEPIA_RB as int),
        sepia_level(r, g, b, SEPIA_GR as int, SEPIA_GG as int, SEPIA_GB as int),
        sepia_level(r, g, b, SEPIA_BR as int, SEPIA_BG as int, SEPIA_BB as int),
    )
}

/// Soft channel: `0.85 c + 128.0 * 0.15` truncated to a byte, then raised by 8
/// (saturating).
pub open spec fn soft_level(c: u8) -> u8 {
    to_u8(sum(prod(from_u8(c), SOFT_KEEP as int), prod(from_u8(128), SOFT_GREY as int))).saturating_add(8)
}

pub open spec fn soft_pixel(r: u8, g: u8, b: u8) -> (u8, u8, u8) {
    (soft_level(r), soft_level(g), soft_level(b))
}

pub open spec fn warm_pixel(r: u8, g: u8, b: u8) -> (u8, u8, u8) {
    (r.saturating_add(15), g.saturating_add(5), b.saturating_sub(15))
}

pub open spec fn cool_pixel(r: u8, g: u8, b: u8) -> (u8, u8, u8) {
    (r.saturating_sub(15), g, b.saturating_add(20))
}

/// The soft filter never leaves a channel below 8.
pub proof fn lemma_soft_lifts_shadows(c: u8)
    ensures
        soft_level(c) >= 8,
{
}

/// Every whole pixel of `s` has equal R, G and B bytes.
pub open spec fn is_gray(s: Seq<u8>) -> bool {
    forall|k: int|
        0 <= k < s.len() / 4 ==> #[trigger] s[4 * k] == s[4 * k + 1] && s[4 * k + 1] == s[4 * k
            + 2]
}

/// `s` and `t` have the same length and the same alpha byte in every whole pixel.
pub open spec fn same_alpha(s: Seq<u8>, t: Seq<u8>) -> bool {
    &&& s.len() == t.len()
    &&& forall|k: int| 0 <= k < s.len() / 4 ==> #[trigger] s[4 * k + 3] == t[4 * k + 3]
}

/// Recolouring leaves the length and the alpha of every whole pixel unchanged.
pub proof fn lemma_recolor_keeps_alpha(s: Seq<u8>, f: spec_fn(u8, u8, u8) -> (u8, u8, u8))
    ensures
        same_alpha(s, recolor(s, f)),
{
    assert forall|k: int| 0 <= k < s.len() / 4 implies #[trigger] s[4 * k + 3] == recolor(s, f)[4
        * k + 3] by {
        assert((4 * k + 3) % 4 == 3);
    }
}

// ---------------------------------------------------------------------------
// Laws of the filters, in integer arithmetic on the input and output bytes.

/// `min(v + d, 255)`.
pub open spec fn capped_add(v: int, d: int) -> int {
    if v + d > 255 {
        255
    } else {
        v + d
    }
}

/// `max(v - d, 0)`.
pub open spec fn floored_sub(v: int, d: int) -> int {
    if v - d < 0 {
        0
    } else {
        v - d
    }
}

/// `t` has the length of `s`, the same alpha byte in every whole pixel, and the
/// same trailing partial pixel.
pub open spec fn keeps_alpha_and_tail(s: Seq<u8>, t: Seq<u8>) -> bool {
    &&& t.len() == s.len()
    &&& forall|k: int| 0 <= k < s.len() / 4 ==> #[trigger] t[4 * k + 3] == s[4 * k + 3]
    &&& forall|j: int| 4 * (s.len() / 4) <= j < s.len() ==> #[trigger] t[j] == s[j]
}

/// Warm tint: red + 15 and green + 5 (capped at 255), blue - 15 (floored at 0).
#[verifier::opaque]
pub open spec fn warm_law(s: Seq<u8>, t: Seq<u8>) -> bool {
    &&& keeps_alpha_and_tail(s, t)
    &&& forall|k: int|
        0 <= k < s.len() / 4 ==> #[trigger] t[4 * k] == capped_add(s[4 * k] as int, 15) && t[4 * k
            + 1] == capped_add(s[4 * k + 1] as int, 5) && t[4 * k + 2] == floored_sub(
            s[4 * k + 2] as int,
            15,
        )
}

/// Cool tint: red - 15 (floored at 0), green kept, blue + 20 (capped at 255).
#[verifier::opaque]
pub open spec fn cool_law(s: Seq<u8>, t: Seq<u8>) -> bool {
    &&& keeps_alpha_and_tail(s, t)
    &&& forall|k: int|
        0 <= k < s.len() / 4 ==> #[trigger] t[4 * k] == floored_sub(s[4 * k] as int, 15) && t[4 * k
            + 1] == s[4 * k + 1] && t[4 * k + 2] == capped_add(s[4 * k + 2] as int, 20)
}

/// Integer luma `(299 r + 587 g + 114 b) / 1000`.
pub open spec fn integer_luma(r: int, g: int, b: int) -> int {
    (299 * r + 587 * g + 114 * b) / 1000
}

/// Grayscale: every whole pixel becomes grey, at its integer luma or one below.
#[verifier::opaque]
pub open spec fn grayscale_law(s: Seq<u8>, t: Seq<u8>) -> bool {
    &&& keeps_alpha_and_tail(s, t)
    &&& forall|k: int|
        0 <= k < s.len() / 4 ==> #[trigger] t[4 * k] == t[4 * k + 1] && t[4 * k + 1] == t[4 * k
            + 2] && integer_luma(s[4 * k] as int, s[4 * k + 1] as int, s[4 * k + 2] as int) - 1
            <= t[4 * k] <= integer_luma(s[4 * k] as int, s[4 * k + 1] as int, s[4 * k + 2] as int)
}

/// One sepia channel in integers: `min((nr r + ng g + nb b) / 1000, 255)`.
pub open spec fn integer_sepia(r: int, g: int, b: int, nr: int, ng: int, nb: int) -> int {
    let q = (nr * r + ng * g + nb * b) / 1000;
    if q > 255 {
        255
    } else {
        q
    }
}

/// `m - 1 <= v <= m`.
pub open spec fn at_or_one_below(v: int, m: int) -> bool {
    m - 1 <= v <= m
}

/// Sepia: each channel is its row of the matrix (0.393 0.769 0.189 / 0.349 0.686
/// 0.168 / 0.272 0.534 0.131) applied in integers and capped at 255, or one below.
#[verifier::opaque]
pub open spec fn sepia_law(s: Seq<u8>, t: Seq<u8>) -> bool {
    &&& keeps_alpha_and_tail(s, t)
    &&& forall|k: int|
        0 <= k < s.len() / 4 ==> {
            let (r, g, b) = (s[4 * k] as int, s[4 * k + 1] as int, s[4 * k + 2] as int);
            &&& at_or_one_below(#[trigger] t[4 * k] as int, integer_sepia(r, g, b, 393, 769, 189))
            &&& at_or_one_below(t[4 * k + 1] as int, integer_sepia(r, g, b, 349, 686, 168))
            &&& at_or_one_below(t[4 * k + 2] as int, integer_sepia(r, g, b, 272, 534, 131))
        }
}

/// Soft: each channel `c` becomes `(85 c + 1920) / 100 + 8` (`0.85 c + 19.2`
/// truncated, lifted by 8), or one below.
#[verifier::opaque]
pub open spec fn soft_law(s: Seq<u8>, t: Seq<u8>) -> bool {
    &&& keeps_alpha_and_tail(s, t)
    &&& forall|k: int|
        0 <= k < s.len() / 4 ==> at_or_one_below(
            #[trigger] t[4 * k] as int,
            (85 * s[4 * k] + 1920) / 100 + 8,
        ) && at_or_one_below(t[4 * k + 1] as int, (85 * s[4 * k + 1] + 1920) / 100 + 8)
            && at_or_one_below(t[4 * k + 2] as int, (85 * s[4 * k + 2] + 1920) / 100 + 8)
}

/// Vivid: a grey pixel stays grey, at its level or one below.
#[verifier::opaque]
pub open spec fn vivid_law(s: Seq<u8>, t: Seq<u8>) -> bool {
    &&& keeps_alpha_and_tail(s, t)
    &&& forall|k: int|
        0 <= k < s.len() / 4 && s[4 * k] == s[4 * k + 1] && s[4 * k + 1] == s[4 * k + 2] ==> #[trigger] t[4
            * k] == t[4 * k + 1] && t[4 * k + 1] == t[4 * k + 2] && at_or_one_below(
            t[4 * k] as int,
            s[4 * k] as int,
        )
}

/// The bytes of pixel `k` of a recoloured image.
pub proof fn lemma_recolor_at(s: Seq<u8>, f: spec_fn(u8, u8, u8) -> (u8, u8, u8), k: int)
    requires
        0 <= k < s.len() / 4,
    ensures
        recolor(s, f)[4 * k] == f(s[4 * k], s[4 * k + 1], s[4 * k + 2]).0,
        recolor(s, f)[4 * k + 1] == f(s[4 * k], s[4 * k + 1], s[4 * k + 2]).1,
        recolor(s, f)[4 * k + 2] == f(s[4 * k], s[4 * k + 1], s[4 * k + 2]).2,
        recolor(s, f)[4 * k + 3] == s[4 * k + 3],
{
    assert((4 * k) % 4 == 0 && (4 * k + 1) % 4 == 1 && (4 * k + 2) % 4 == 2 && (4 * k + 3) % 4 == 3);
    assert((4 * k + 1) - (4 * k + 1) % 4 == 4 * k);
    assert((4 * k + 2) - (4 * k + 2) % 4 == 4 * k);
    assert((4 * k + 3) - (4 * k + 3) % 4 == 4 * k);
}

/// Recolouring keeps the length, the alpha bytes and the trailing partial pixel.
pub proof fn lemma_recolor_frame(s: Seq<u8>, f: spec_fn(u8, u8, u8) -> (u8, u8, u8))
    ensures
        keeps_alpha_and_tail(s, recolor(s, f)),
{
    assert forall|k: int| 0 <= k < s.len() / 4 implies #[trigger] recolor(s, f)[4 * k + 3] == s[4 * k
        + 3] by {
        lemma_recolor_at(s, f, k);
    }
    assert forall|j: int| 4 * (s.len() / 4) <= j < s.len() implies #[trigger] recolor(s, f)[j]
        == s[j] by {
        assert(j - j % 4 + 4 > s.len());
    }
}

/// `weighted` at three byte channels, scaled by 1000, is within one unit of the
/// integer combination when each weight is within 2^33 grid units of `n / 1000`.
proof fn lemma_weighted_near(r: u8, g: u8, b: u8, wr: int, wg: int, wb: int, nr: int, ng: int, nb: int)
    requires
        0 <= wr <= one(),
        0 <= wg <= one(),
        0 <= wb <= one(),
        -0x2_0000_0000 <= 1000 * wr - nr * one() <= 0x2_0000_0000,
        -0x2_0000_0000 <= 1000 * wg - ng * one() <= 0x2_0000_0000,
        -0x2_0000_0000 <= 1000 * wb - nb * one() <= 0x2_0000_0000,
    ensures
        -one() < 1000 * weighted(r, g, b, wr, wg, wb) - (nr * r + ng * g + nb * b) * one() < one(),
{
    let u = one();
    let pr = prod(from_u8(r), wr);
    let pg = prod(from_u8(g), wg);
    let pb = prod(from_u8(b), wb);
    lemma_byte_prod_close(r, wr);
    lemma_byte_prod_close(g, wg);
    lemma_byte_prod_close(b, wb);
    assert(0 <= r * wr <= 255 * u) by (nonlinear_arith)
        requires 0 <= r <= 255, 0 <= wr <= u;
    assert(0 <= g * wg <= 255 * u) by (nonlinear_arith)
        requires 0 <= g <= 255, 0 <= wg <= u;
    assert(0 <= b * wb <= 255 * u) by (nonlinear_arith)
        requires 0 <= b <= 255, 0 <= wb <= u;
    let s1 = sum(pr, pg);
    lemma_sum_close(pr, pg);
    let x = sum(s1, pb);
    lemma_sum_close(s1, pb);
    let e: int = 0x8_0000_0002;
    let exact = r * wr + g * wg + b * wb;
    assert(-5 * e <= x - exact <= 5 * e);
    let dev: int = 0x2_0000_0000;
    assert(-(255 * dev) <= r * (1000 * wr - nr * u) <= 255 * dev) by (nonlinear_arith)
        requires 0 <= r <= 255, -dev <= 1000 * wr - nr * u <= dev;
    assert(-(255 * dev) <= g * (1000 * wg - ng * u) <= 255 * dev) by (nonlinear_arith)
        requires 0 <= g <= 255, -dev <= 1000 * wg - ng * u <= dev;
    assert(-(255 * dev) <= b * (1000 * wb - nb * u) <= 255 * dev) by (nonlinear_arith)
        requires 0 <= b <= 255, -dev <= 1000 * wb - nb * u <= dev;
    assert(r * (1000 * wr - nr * u) == 1000 * (r * wr) - (nr * r) * u) by (nonlinear_arith);
    assert(g * (1000 * wg - ng * u) == 1000 * (g * wg) - (ng * g) * u) by (nonlinear_arith);
    assert(b * (1000 * wb - nb * u) == 1000 * (b * wb) - (nb * b) * u) by (nonlinear_arith);
    assert((nr * r + ng * g + nb * b) * u == (nr * r) * u + (ng * g) * u + (nb * b) * u)
        by (nonlinear_arith);
}

/// A sepia channel is its integer matrix row, capped at 255, or one below.
pub proof fn lemma_sepia_level_near(r: u8, g: u8, b: u8, wr: int, wg: int, wb: int, nr: int, ng: int, nb: int)
    requires
        0 <= wr <= one(),
        0 <= wg <= one(),
        0 <= wb <= one(),
        0 <= nr <= 1000,
        0 <= ng <= 1000,
        0 <= nb <= 1000,
        -0x2_0000_0000 <= 1000 * wr - nr * one() <= 0x2_0000_0000,
        -0x2_0000_0000 <= 1000 * wg - ng * one() <= 0x2_0000_0000,
        -0x2_0000_0000 <= 1000 * wb - nb * one() <= 0x2_0000_0000,
    ensures
        at_or_one_below(sepia_level(r, g, b, wr, wg, wb) as int, integer_sepia(r as int, g as int, b as int, nr, ng, nb)),
{
    let u = one();
    lemma_weighted_near(r, g, b, wr, wg, wb, nr, ng, nb);
    let v = weighted(r, g, b, wr, wg, wb);
    let n = nr * r + ng * g + nb * b;
    assert(0 <= n) by (nonlinear_arith)
        requires 0 <= nr, 0 <= ng, 0 <= nb, 0 <= r, 0 <= g, 0 <= b, n == nr * r + ng * g + nb * b;
    let q = n / 1000;
    if n <= 255 * 1000 {
        if v <= 255 * u {
            lemma_to_u8_near(v, n, 1000);
        } else {
            // v above 255.0 forces the integer row to 255
            assert(q == 255) by {
                assert(1000 * v > 255000 * u);
                assert(n * u > 255000 * u - u);
                assert(n > 254999) by (nonlinear_arith)
                    requires n * u > 255000 * u - u, u > 0;
            }
            assert(to_u8(255 * u) == 255) by {
                vstd::arithmetic::div_mod::lemma_div_by_multiple(255, u);
            }
        }
    } else {
        assert(q >= 255);
        if v <= 255 * u {
            // v is above 254.0: truncation gives 254 or 255
            assert(1000 * v > n * u - u);
            assert(1000 * v > 254000 * u) by (nonlinear_arith)
                requires 1000 * v > n * u - u, n >= 255001, u > 0;
            assert(v > 254 * u);
            vstd::arithmetic::div_mod::lemma_fundamental_div_mod(v, u);
            vstd::arithmetic::div_mod::lemma_mod_pos_bound(v, u);
            assert(254 <= v / u <= 255) by (nonlinear_arith)
                requires v > 254 * u, v <= 255 * u, v == u * (v / u) + v % u, 0 <= v % u < u, u > 0;
        } else {
            assert(to_u8(255 * u) == 255) by {
                vstd::arithmetic::div_mod::lemma_div_by_multiple(255, u);
            }
        }
    }
}

/// A soft channel is `(85 c + 1920) / 100 + 8` or one below.
pub proof fn lemma_soft_level_near(c: u8)
    ensures
        at_or_one_below(soft_level(c) as int, (85 * c + 1920) / 100 + 8),
{
    let u = one();
    let e: int = 0x8_0000_0002;
    lemma_byte_prod_close(c, SOFT_KEEP as int);
    lemma_byte_prod_close(128, SOFT_GREY as int);
    let a = prod(from_u8(c), SOFT_KEEP as int);
    let m = prod(from_u8(128), SOFT_GREY as int);
    assert(0 <= c * SOFT_KEEP <= 255 * u) by (nonlinear_arith)
        requires 0 <= c <= 255, SOFT_KEEP <= u;
    lemma_sum_close(a, m);
    let x = sum(a, m);
    assert(-3 * e <= x - (c * SOFT_KEEP + 128 * SOFT_GREY) <= 3 * e);
    assert(100 * SOFT_KEEP - 85 * u == 671088640);
    assert(100 * SOFT_GREY - 15 * u == 167772160);
    assert(100 * (c * SOFT_KEEP + 128 * SOFT_GREY) - (85 * c + 1920) * u == c * 671088640 + 128
        * 167772160) by (nonlinear_arith)
        requires 100 * SOFT_KEEP - 85 * u == 671088640, 100 * SOFT_GREY - 15 * u == 167772160;
    assert(0 <= c * 671088640 <= 255 * 671088640) by (nonlinear_arith)
        requires 0 <= c <= 255;
    lemma_to_u8_near(x, 85 * c + 1920, 100);
    assert((85 * c + 1920) / 100 <= 236);
}

/// The grey level is the integer luma `(299 r + 587 g + 114 b) / 1000`, or one
/// below it.
pub proof fn lemma_gray_level_near(r: u8, g: u8, b: u8)
    ensures
        (299 * r + 587 * g + 114 * b) / 1000 - 1 <= gray_level(r, g, b) <= (299 * r + 587 * g + 114
            * b) / 1000,
{
    let u = one();
    let pr = prod(from_u8(r), LUMA_R as int);
    let pg = prod(from_u8(g), LUMA_G as int);
    let pb = prod(from_u8(b), LUMA_B as int);
    lemma_byte_prod_close(r, LUMA_R as int);
    lemma_byte_prod_close(g, LUMA_G as int);
    lemma_byte_prod_close(b, LUMA_B as int);
    assert(0 <= r * LUMA_R <= 255 * LUMA_R) by (nonlinear_arith)
        requires 0 <= r <= 255;
    assert(0 <= g * LUMA_G <= 255 * LUMA_G) by (nonlinear_arith)
        requires 0 <= g <= 255;
    assert(0 <= b * LUMA_B <= 255 * LUMA_B) by (nonlinear_arith)
        requires 0 <= b <= 255;
    let s1 = sum(pr, pg);
    lemma_sum_close(pr, pg);
    let x = sum(s1, pb);
    lemma_sum_close(s1, pb);
    let e: int = 0x8_0000_0002;
    let exact = r * LUMA_R + g * LUMA_G + b * LUMA_B;
    assert(-5 * e <= x - exact <= 5 * e);
    let n = 299 * r + 587 * g + 114 * b;
    // the weights differ from 0.299, 0.587, 0.114 by a few parts in 2^28
    assert(1000 * LUMA_R - 299 * u == -1409286144);
    assert(1000 * LUMA_G - 587 * u == 3489660928);
    assert(1000 * LUMA_B - 114 * u == 16777216);
    assert(1000 * exact - n * u == r * -1409286144 + g * 3489660928 + b * 16777216);
    assert(-0x200_0000_0000 <= 1000 * exact - n * u <= 0x200_0000_0000);
    lemma_to_u8_near(x, n, 1000);
}

/// The vivid filter keeps a grey pixel grey, at its level or one below.
pub proof fn lemma_vivid_keeps_grey(c: u8)
    ensures
        vivid_pixel(c, c, c).0 == vivid_pixel(c, c, c).1,
        vivid_pixel(c, c, c).1 == vivid_pixel(c, c, c).2,
        c - 1 <= vivid_pixel(c, c, c).0 <= c,
{
    let g = one();
    let e: int = 0x8_0000_0002;
    let u = unit_level(c);
    assert(from_u8(255) == 255 * g);
    assert(-0x400_0000_0000_0000 * (255 * g) <= from_u8(c) * g <= 0x400_0000_0000_0000 * (255 * g))
        by (nonlinear_arith)
        requires from_u8(c) == c * g, 0 <= c <= 255, g == 0x1_0000_0000_0000;
    lemma_quot_close(from_u8(c), 255 * g);
    assert(-(255 * e) <= 255 * u - c * g <= 255 * e) by (nonlinear_arith)
        requires
            -((255 * g) * e) <= (255 * g) * u - from_u8(c) * g <= (255 * g) * e,
            from_u8(c) == c * g,
            g > 0;
    // grey: no chroma, no saturation
    crate::binary32::lemma_round_div_bounds(0, 1);
    crate::binary32::lemma_round_div_bounds(0, g as nat);
    assert(diff(u, u) == 0);
    assert(prod(0, SATURATION_BOOST as int) == 0);
    let s = sum(u, u);
    lemma_sum_close(u, u);
    let l = quot(s, 2 * g);
    assert(-0x400_0000_0000_0000 * (2 * g) <= s * g <= 0x400_0000_0000_0000 * (2 * g)) by (nonlinear_arith)
        requires -4 * g <= s <= 4 * g, g == 0x1_0000_0000_0000;
    lemma_quot_close(s, 2 * g);
    assert(-(2 * e) <= 2 * l - s <= 2 * e) by (nonlinear_arith)
        requires -((2 * g) * e) <= (2 * g) * l - s * g <= (2 * g) * e, g > 0;
    assert(hsl_of(u, u, u) == (0int, 0int, l));
    assert(rgb_of_hsl(0, 0, l) == (l, l, l));
    let x = prod(l, from_u8(255));
    assert(-0x400_0000_0000_0000 * g <= l * (255 * g) <= 0x400_0000_0000_0000 * g) by (nonlinear_arith)
        requires -4 * g <= l <= 4 * g, g == 0x1_0000_0000_0000;
    lemma_prod_close(l, 255 * g);
    assert(-e <= x - 255 * l <= e) by (nonlinear_arith)
        requires -(g * e) <= g * x - l * (255 * g) <= g * e, g > 0;
    assert(-g < x - c * g < g);
    lemma_to_u8_near(x, c as int, 1);
}

/// Warm obeys its law on every image.
pub proof fn lemma_warm_law(s: Seq<u8>)
    ensures
        warm_law(s, recolor(s, |r: u8, g: u8, b: u8| warm_pixel(r, g, b))),
{
    reveal(warm_law);
    let f = |r: u8, g: u8, b: u8| warm_pixel(r, g, b);
    let t = recolor(s, f);
    lemma_recolor_frame(s, f);
    assert forall|k: int| 0 <= k < s.len() / 4 implies #[trigger] t[4 * k] == capped_add(s[4 * k] as int, 15) && t[4 * k
        + 1] == capped_add(s[4 * k + 1] as int, 5) && t[4 * k + 2] == floored_sub(s[4 * k + 2] as int, 15) by {
        lemma_recolor_at(s, f, k);
    }
}

/// Cool obeys its law on every image.
pub proof fn lemma_cool_law(s: Seq<u8>)
    ensures
        cool_law(s, recolor(s, |r: u8, g: u8, b: u8| cool_pixel(r, g, b))),
{
    reveal(cool_law);
    let f = |r: u8, g: u8, b: u8| cool_pixel(r, g, b);
    let t = recolor(s, f);
    lemma_recolor_frame(s, f);
    assert forall|k: int| 0 <= k < s.len() / 4 implies #[trigger] t[4 * k] == floored_sub(s[4 * k] as int, 15) && t[4 * k
        + 1] == s[4 * k + 1] && t[4 * k + 2] == capped_add(s[4 * k + 2] as int, 20) by {
        lemma_recolor_at(s, f, k);
    }
}

/// Grayscale obeys its law on every image.
pub proof fn lemma_grayscale_law(s: Seq<u8>)
    ensures
        grayscale_law(s, recolor(s, |r: u8, g: u8, b: u8| gray_pixel(r, g, b))),
{
    reveal(grayscale_law);
    let f = |r: u8, g: u8, b: u8| gray_pixel(r, g, b);
    let t = recolor(s, f);
    lemma_recolor_frame(s, f);
    assert forall|k: int| 0 <= k < s.len() / 4 implies #[trigger] t[4 * k] == t[4 * k + 1] && t[4
        * k + 1] == t[4 * k + 2] && integer_luma(s[4 * k] as int, s[4 * k + 1] as int, s[4 * k
        + 2] as int) - 1 <= t[4 * k] <= integer_luma(
        s[4 * k] as int,
        s[4 * k + 1] as int,
        s[4 * k + 2] as int,
    ) by {
        lemma_recolor_at(s, f, k);
        lemma_gray_level_near(s[4 * k], s[4 * k + 1], s[4 * k + 2]);
    }
}

/// Sepia obeys its law on every image.
pub proof fn lemma_sepia_law(s: Seq<u8>)
    ensures
        sepia_law(s, recolor(s, |r: u8, g: u8, b: u8| sepia_pixel(r, g, b))),
{
    reveal(sepia_law);
    let f = |r: u8, g: u8, b: u8| sepia_pixel(r, g, b);
    let t = recolor(s, f);
    lemma_recolor_frame(s, f);
    assert forall|k: int| 0 <= k < s.len() / 4 implies {
        let (r, g, b) = (s[4 * k] as int, s[4 * k + 1] as int, s[4 * k + 2] as int);
        &&& at_or_one_below(#[trigger] t[4 * k] as int, integer_sepia(r, g, b, 393, 769, 189))
        &&& at_or_one_below(t[4 * k + 1] as int, integer_sepia(r, g, b, 349, 686, 168))
        &&& at_or_one_below(t[4 * k + 2] as int, integer_sepia(r, g, b, 272, 534, 131))
    } by {
        lemma_recolor_at(s, f, k);
        let (r, g, b) = (s[4 * k], s[4 * k + 1], s[4 * k + 2]);
        lemma_sepia_level_near(r, g, b, SEPIA_RR as int, SEPIA_RG as int, SEPIA_RB as int, 393, 769, 189);
        lemma_sepia_level_near(r, g, b, SEPIA_GR as int, SEPIA_GG as int, SEPIA_GB as int, 349, 686, 168);
        lemma_sepia_level_near(r, g, b, SEPIA_BR as int, SEPIA_BG as int, SEPIA_BB as int, 272, 534, 131);
    }
}

/// Soft obeys its law on every image.
pub proof fn lemma_soft_law(s: Seq<u8>)
    ensures
        soft_law(s, recolor(s, |r: u8, g: u8, b: u8| soft_pixel(r, g, b))),
{
    reveal(soft_law);
    let f = |r: u8, g: u8, b: u8| soft_pixel(r, g, b);
    let t = recolor(s, f);
    lemma_recolor_frame(s, f);
    assert forall|k: int| 0 <= k < s.len() / 4 implies at_or_one_below(
        #[trigger] t[4 * k] as int,
        (85 * s[4 * k] + 1920) / 100 + 8,
    ) && at_or_one_below(t[4 * k + 1] as int, (85 * s[4 * k + 1] + 1920) / 100 + 8)
        && at_or_one_below(t[4 * k + 2] as int, (85 * s[4 * k + 2] + 1920) / 100 + 8) by {
        lemma_recolor_at(s, f, k);
        lemma_soft_level_near(s[4 * k]);
        lemma_soft_level_near(s[4 * k + 1]);
        lemma_soft_level_near(s[4 * k + 2]);
    }
}

/// Vivid obeys its law on every image.
pub proof fn lemma_vivid_law(s: Seq<u8>)
    ensures
        vivid_law(s, recolor(s, |r: u8, g: u8, b: u8| vivid_pixel(r, g, b))),
{
    reveal(vivid_law);
    let f = |r: u8, g: u8, b: u8| vivid_pixel(r, g, b);
    let t = recolor(s, f);
    lemma_recolor_frame(s, f);
    assert forall|k: int|
        0 <= k < s.len() / 4 && s[4 * k] == s[4 * k + 1] && s[4 * k + 1] == s[4 * k + 2] implies #[trigger] t[4
        * k] == t[4 * k + 1] && t[4 * k + 1] == t[4 * k + 2] && at_or_one_below(
        t[4 * k] as int,
        s[4 * k] as int,
    ) by {
        lemma_recolor_at(s, f, k);
        lemma_vivid_keeps_grey(s[4 * k]);
    }
}

/// Rewrites every whole pixel with `f`, whose results are those of `spec_f`.
fn recolor_in_place<F: Fn(u8, u8, u8) -> (u8, u8, u8)>(
    pixels: &mut [u8],
    f: F,
    Ghost(spec_f): Ghost<spec_fn(u8, u8, u8) -> (u8, u8, u8)>,
)
    requires
        forall|r: u8, g: u8, b: u8| f.requires((r, g, b)),
        forall|r: u8, g: u8, b: u8, c: (u8, u8, u8)|
            f.ensures((r, g, b), c) ==> c == spec_f(r, g, b),
    ensures
        final(pixels)@ == recolor(old(pixels)@, spec_f),
{
    let ghost s = pixels@;
    let ghost target = recolor(s, spec_f);
    let len = pixels.len();
    let n = len / 4;
    let mut k: usize = 0;
    while k < n
        invariant
            s == old(pixels)@,
            target == recolor(s, spec_f),
            len == s.len(),
            n == len / 4,
            pixels@.len() == s.len(),
            0 <= k <= n,
            forall|r: u8, g: u8, b: u8| f.requires((r, g, b)),
            forall|r: u8, g: u8, b: u8, c: (u8, u8, u8)|
                f.ensures((r, g, b), c) ==> c == spec_f(r, g, b),
            forall|j: int|
                0 <= j < s.len() ==> #[trigger] pixels@[j] == if j < 4 * k {
                    target[j]
                } else {
                    s[j]
                },
        decreases n - k,
    {
        proof {
            assert(4 * k + 4 <= s.len());
        }
        let i = 4 * k;
        let c = f(pixels[i], pixels[i + 1], pixels[i + 2]);
        pixels[i] = c.0;
        pixels[i + 1] = c.1;
        pixels[i + 2] = c.2;
        proof {
            assert forall|j: int| 0 <= j < s.len() implies #[trigger] pixels@[j] == if j < 4 * (k
                + 1) {
                target[j]
            } else {
                s[j]
            } by {
                if 4 * k <= j < 4 * k + 4 {
                    assert(j - j % 4 == 4 * k);
                }
            }
        }
        k = k + 1;
    }
    proof {
        assert forall|j: int| 0 <= j < s.len() implies #[trigger] pixels@[j] == target[j] by {
            if j >= 4 * n {
                assert(j - j % 4 + 4 > s.len());
            }
        }
        assert(pixels@ =~= target);
    }
}

/// Luma of a pixel, computed as the spec says.
fn weighted_exec(r: u8, g: u8, b: u8, wr: i128, wg: i128, wb: i128) -> (res: i128)
    requires
        0 <= wr <= one(),
        0 <= wg <= one(),
        0 <= wb <= one(),
    ensures
        res == weighted(r, g, b, wr as int, wg as int, wb as int),
        0 <= res <= 1024 * one(),
{
    let pr = byte_prod_exec(r, wr);
    let pg = byte_prod_exec(g, wg);
    let s = sum_exec(pr, pg);
    let pb = byte_prod_exec(b, wb);
    sum_exec(s, pb)
}

/// Luma of a pixel.
pub fn luma_exec(r: u8, g: u8, b: u8) -> (res: i128)
    ensures
        res == luma(r, g, b),
        0 <= res <= 1024 * one(),
{
    weighted_exec(r, g, b, LUMA_R, LUMA_G, LUMA_B)
}

fn gray_level_exec(r: u8, g: u8, b: u8) -> (res: u8)
    ensures
        res == gray_level(r, g, b),
{
    to_u8_exec(luma_exec(r, g, b))
}

fn sepia_level_exec(r: u8, g: u8, b: u8, wr: i128, wg: i128, wb: i128) -> (res: u8)
    requires
        0 <= wr <= one(),
        0 <= wg <= one(),
        0 <= wb <= one(),
    ensures
        res == sepia_level(r, g, b, wr as int, wg as int, wb as int),
{
    let v = weighted_exec(r, g, b, wr, wg, wb);
    let cap: i128 = 255 * ONE;
    to_u8_exec(if v <= cap { v } else { cap })
}

fn soft_level_exec(c: u8) -> (res: u8)
    ensures
        res == soft_level(c),
{
    let a = byte_prod_exec(c, SOFT_KEEP);
    let m = byte_prod_exec(128, SOFT_GREY);
    to_u8_exec(sum_exec(a, m)).saturating_add(8)
}

fn unit_level_exec(c: u8) -> (v: i128)
    ensures
        v == unit_level(c),
        0 <= v <= one(),
{
    let x = from_u8_exec(c);
    proof {
        lemma_quot_within(x as int, 255 * one(), 1);
    }
    quot_exec(x, 255 * ONE)
}

fn vivid_pixel_exec(r: u8, g: u8, b: u8) -> (c: (u8, u8, u8))
    ensures
        c == vivid_pixel(r, g, b),
{
    let (h, s, l) = rgb_to_hsl(unit_level_exec(r), unit_level_exec(g), unit_level_exec(b));
    proof {
        lemma_prod_within(s as int, SATURATION_BOOST as int, 1, 2);
    }
    let boosted = prod_exec(s, SATURATION_BOOST);
    let s2 = if boosted <= ONE {
        boosted
    } else {
        ONE
    };
    let (r2, g2, b2) = hsl_to_rgb(h, s2, l);
    (
        to_u8_exec(prod_exec(r2, 255 * ONE)),
        to_u8_exec(prod_exec(g2, 255 * ONE)),
        to_u8_exec(prod_exec(b2, 255 * ONE)),
    )
}

fn gray_pixel_exec(r: u8, g: u8, b: u8) -> (c: (u8, u8, u8))
    ensures
        c == gray_pixel(r, g, b),
{
    let l = gray_level_exec(r, g, b);
    (l, l, l)
}

fn sepia_pixel_exec(r: u8, g: u8, b: u8) -> (c: (u8, u8, u8))
    ensures
        c == sepia_pixel(r, g, b),
{
    (
        sepia_level_exec(r, g, b, SEPIA_RR, SEPIA_RG, SEPIA_RB),
        sepia_level_exec(r, g, b, SEPIA_GR, SEPIA_GG, SEPIA_GB),
        sepia_level_exec(r, g, b, SEPIA_BR, SEPIA_BG, SEPIA_BB),
    )
}

fn soft_pixel_exec(r: u8, g: u8, b: u8) -> (c: (u8, u8, u8))
    ensures
        c == soft_pixel(r, g, b),
{
    (soft_level_exec(r), soft_level_exec(g), soft_level_exec(b))
}

fn warm_pixel_exec(r: u8, g: u8, b: u8) -> (c: (u8, u8, u8))
    ensures
        c == warm_pixel(r, g, b),
{
    (r.saturating_add(15), g.saturating_add(5), b.saturating_sub(15))
}

fn cool_pixel_exec(r: u8, g: u8, b: u8) -> (c: (u8, u8, u8))
    ensures
        c == cool_pixel(r, g, b),
{
    (r.saturating_sub(15), g, b.saturating_add(20))
}

/// Replaces each pixel by its grey level (`0.299 R + 0.587 G + 0.114 B`, truncated).
pub fn apply_grayscale(pixels: &mut [u8])
    ensures
        final(pixels)@ == recolor(old(pixels)@, |r: u8, g: u8, b: u8| gray_pixel(r, g, b)),
        is_gray(final(pixels)@),
        same_alpha(old(pixels)@, final(pixels)@),
        grayscale_law(old(pixels)@, final(pixels)@),
{
    recolor_in_place(
        pixels,
        gray_pixel_exec,
        Ghost(|r: u8, g: u8, b: u8| gray_pixel(r, g, b)),
    );
    proof {
        let s = old(pixels)@;
        let t = pixels@;
        assert forall|k: int| 0 <= k < t.len() / 4 implies #[trigger] t[4 * k] == t[4 * k + 1]
            && t[4 * k + 1] == t[4 * k + 2] by {
            assert((4 * k + 1) % 4 == 1 && (4 * k + 2) % 4 == 2 && (4 * k) % 4 == 0);
        }
        assert forall|k: int| 0 <= k < s.len() / 4 implies #[trigger] s[4 * k + 3] == t[4 * k
            + 3] by {
            assert((4 * k + 3) % 4 == 3);
        }
    }
    proof {
        lemma_grayscale_law(old(pixels)@);
    }
}

/// Applies the sepia colour matrix; each channel is capped at 255.
pub fn apply_sepia(pixels: &mut [u8])
    ensures
        final(pixels)@ == recolor(old(pixels)@, |r: u8, g: u8, b: u8| sepia_pixel(r, g, b)),
        same_alpha(old(pixels)@, final(pixels)@),
        sepia_law(old(pixels)@, final(pixels)@),
{
    recolor_in_place(
        pixels,
        sepia_pixel_exec,
        Ghost(|r: u8, g: u8, b: u8| sepia_pixel(r, g, b)),
    );
    proof {
        let s = old(pixels)@;
        let t = pixels@;
        assert forall|k: int| 0 <= k < s.len() / 4 implies #[trigger] s[4 * k + 3] == t[4 * k
            + 3] by {
            assert((4 * k + 3) % 4 == 3);
        }
    }
    proof {
        lemma_sepia_law(old(pixels)@);
    }
}

/// Boosts colour saturation by 1.4 in HSL space (capped), keeping hue and lightness.
pub fn apply_vivid(pixels: &mut [u8])
    ensures
        final(pixels)@ == recolor(old(pixels)@, |r: u8, g: u8, b: u8| vivid_pixel(r, g, b)),
        same_alpha(old(pixels)@, final(pixels)@),
        vivid_law(old(pixels)@, final(pixels)@),
{
    recolor_in_place(pixels, vivid_pixel_exec, Ghost(|r: u8, g: u8, b: u8| vivid_pixel(r, g, b)));
    proof {
        let s = old(pixels)@;
        let t = pixels@;
        assert forall|k: int| 0 <= k < s.len() / 4 implies #[trigger] s[4 * k + 3] == t[4 * k
            + 3] by {
            assert((4 * k + 3) % 4 == 3);
        }
    }
    proof {
        lemma_vivid_law(old(pixels)@);
    }
}

/// Pulls every channel toward mid-grey (`0.85 c + 0.15 * 128`) and lifts it by 8.
pub fn apply_soft(pixels: &mut [u8])
    ensures
        final(pixels)@ == recolor(old(pixels)@, |r: u8, g: u8, b: u8| soft_pixel(r, g, b)),
        same_alpha(old(pixels)@, final(pixels)@),
        soft_law(old(pixels)@, final(pixels)@),
{
    recolor_in_place(
        pixels,
        soft_pixel_exec,
        Ghost(|r: u8, g: u8, b: u8| soft_pixel(r, g, b)),
    );
    proof {
        let s = old(pixels)@;
        let t = pixels@;
        assert forall|k: int| 0 <= k < s.len() / 4 implies #[trigger] s[4 * k + 3] == t[4 * k
            + 3] by {
            assert((4 * k + 3) % 4 == 3);
        }
    }
    proof {
        lemma_soft_law(old(pixels)@);
    }
}

/// Warm tint: red +15, green +5, blue -15, all saturating.
pub fn apply_warm(pixels: &mut [u8])
    ensures
        final(pixels)@ == recolor(old(pixels)@, |r: u8, g: u8, b: u8| warm_pixel(r, g, b)),
        same_alpha(old(pixels)@, final(pixels)@),
        warm_law(old(pixels)@, final(pixels)@),
{
    recolor_in_place(
        pixels,
        warm_pixel_exec,
        Ghost(|r: u8, g: u8, b: u8| warm_pixel(r, g, b)),
    );
    proof {
        let s = old(pixels)@;
        let t = pixels@;
        assert forall|k: int| 0 <= k < s.len() / 4 implies #[trigger] s[4 * k + 3] == t[4 * k
            + 3] by {
            assert((4 * k + 3) % 4 == 3);
        }
    }
    proof {
        lemma_warm_law(old(pixels)@);
    }
}

/// Cool tint: red -15, blue +20, both saturating; green unchanged.
pub fn apply_cool(pixels: &mut [u8])
    ensures
        final(pixels)@ == recolor(old(pixels)@, |r: u8, g: u8, b: u8| cool_pixel(r, g, b)),
        same_alpha(old(pixels)@, final(pixels)@),
        cool_law(old(pixels)@, final(pixels)@),
{
    recolor_in_place(
        pixels,
        cool_pixel_exec,
        Ghost(|r: u8, g: u8, b: u8| cool_pixel(r, g, b)),
    );
    proof {
        let s = old(pixels)@;
        let t = pixels@;
        assert forall|k: int| 0 <= k < s.len() / 4 implies #[trigger] s[4 * k + 3] == t[4 * k
            + 3] by {
            assert((4 * k + 3) % 4 == 3);
        }
    }
    proof {
        lemma_cool_law(old(pixels)@);
    }
}

/// The image after the filter named `name`; unknown names leave it unchanged.
pub open spec fn filtered(s: Seq<u8>, name: Seq<char>) -> Seq<u8> {
    if name == "grayscale"@ {
        recolor(s, |r: u8, g: u8, b: u8| gray_pixel(r, g, b))
    } else if name == "sepia"@ {
        recolor(s, |r: u8, g: u8, b: u8| sepia_pixel(r, g, b))
    } else if name == "vivid"@ {
        recolor(s, |r: u8, g: u8, b: u8| vivid_pixel(r, g, b))
    } else if name == "soft"@ {
        recolor(s, |r: u8, g: u8, b: u8| soft_pixel(r, g, b))
    } else if name == "warm"@ {
        recolor(s, |r: u8, g: u8, b: u8| warm_pixel(r, g, b))
    } else if name == "cool"@ {
        recolor(s, |r: u8, g: u8, b: u8| cool_pixel(r, g, b))
    } else {
        s
    }
}

/// Every named filter obeys its own law, and any other name leaves the image as
/// it is: `"cool"` lowers red by 15 and raises blue by 20, `"warm"` raises red by
/// 15 and green by 5 and lowers blue by 15 (all saturating), and so on.
#[verifier::rlimit(50)]
pub proof fn lemma_filtered_laws(s: Seq<u8>)
    ensures
        grayscale_law(s, filtered(s, "grayscale"@)),
        sepia_law(s, filtered(s, "sepia"@)),
        vivid_law(s, filtered(s, "vivid"@)),
        soft_law(s, filtered(s, "soft"@)),
        warm_law(s, filtered(s, "warm"@)),
        cool_law(s, filtered(s, "cool"@)),
        forall|name: Seq<char>|
            name != "grayscale"@ && name != "sepia"@ && name != "vivid"@ && name != "soft"@
                && name != "warm"@ && name != "cool"@ ==> #[trigger] filtered(s, name) == s,
{
    reveal_strlit("grayscale");
    reveal_strlit("sepia");
    reveal_strlit("vivid");
    reveal_strlit("soft");
    reveal_strlit("warm");
    reveal_strlit("cool");
    let names = seq!["grayscale"@, "sepia"@, "vivid"@, "soft"@, "warm"@, "cool"@];
    assert("grayscale"@[0] == 'g' && "vivid"@[0] == 'v' && "warm"@[0] == 'w' && "cool"@[0] == 'c');
    assert("sepia"@[1] == 'e' && "soft"@[1] == 'o');
    assert forall|i: int, j: int| 0 <= i < j < 6 implies #[trigger] names[i] != #[trigger] names[j] by {
        if names[i] == names[j] {
            assert(names[i][0] == names[j][0] && names[i][1] == names[j][1]);
        }
    }
    lemma_grayscale_law(s);
    lemma_sepia_law(s);
    lemma_vivid_law(s);
    lemma_soft_law(s);
    lemma_warm_law(s);
    lemma_cool_law(s);
}

/// Returns a filtered copy of `pixels`: `"grayscale"`, `"sepia"`, `"vivid"`,
/// `"soft"`, `"warm"` or `"cool"`; any other name gives an unchanged copy.
/// The image size is not needed: every whole pixel is processed.
#[verifier::rlimit(50)]
pub fn apply_filter(pixels: &[u8], _width: u32, _height: u32, filter: &str) -> (out: Vec<u8>)
    ensures
        out@ == filtered(pixels@, filter@),
        same_alpha(pixels@, out@),
        filter@ == "grayscale"@ ==> grayscale_law(pixels@, out@),
        filter@ == "sepia"@ ==> sepia_law(pixels@, out@),
        filter@ == "vivid"@ ==> vivid_law(pixels@, out@),
        filter@ == "soft"@ ==> soft_law(pixels@, out@),
        filter@ == "warm"@ ==> warm_law(pixels@, out@),
        filter@ == "cool"@ ==> cool_law(pixels@, out@),
        filter@ != "grayscale"@ && filter@ != "sepia"@ && filter@ != "vivid"@ && filter@
            != "soft"@ && filter@ != "warm"@ && filter@ != "cool"@ ==> out@ == pixels@,
{
    proof {
        reveal_strlit("grayscale");
        reveal_strlit("sepia");
        reveal_strlit("vivid");
        reveal_strlit("soft");
        reveal_strlit("warm");
        reveal_strlit("cool");
        let names = seq!["grayscale"@, "sepia"@, "vivid"@, "soft"@, "warm"@, "cool"@];
        assert("grayscale"@[0] == 'g' && "vivid"@[0] == 'v' && "warm"@[0] == 'w' && "cool"@[0] == 'c');
        assert("sepia"@[1] == 'e' && "soft"@[1] == 'o');
        assert forall|i: int, j: int| 0 <= i < j < 6 implies #[trigger] names[i] != #[trigger] names[j] by {
            if names[i] == names[j] {
                assert(names[i][0] == names[j][0] && names[i][1] == names[j][1]);
            }
        }
    }
    let mut buf = slice_to_vec(pixels);
    if str_equals(filter, "grayscale") {
        apply_grayscale(buf.as_mut_slice());
    } else if str_equals(filter, "sepia") {
        apply_sepia(buf.as_mut_slice());
    } else if str_equals(filter, "vivid") {
        apply_vivid(buf.as_mut_slice());
    } else if str_equals(filter, "soft") {
        apply_soft(buf.as_mut_slice());
    } else if str_equals(filter, "warm") {
        apply_warm(buf.as_mut_slice());
    } else if str_equals(filter, "cool") {
        apply_cool(buf.as_mut_slice());
    }
    buf
}

} // verus!
