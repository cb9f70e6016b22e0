//! Laws of trilinear grading.
//!
//! A graded channel lies between its eight corner bytes (the smallest less
//! one, and the largest): every interpolation step stays within its two
//! inputs up to rounding far below one level.
//!
//! Grading through the identity table stays within one level of the input.
//! The identity table stores, for grid index `k`, the byte `(255 k + 8) / 16`
//! (the level `k / 16` scaled by 255 and rounded half up).  Trilinear
//! interpolation between these bytes follows the line `255 x / 16` to within
//! half a level, and the rounding of every single-precision step stays far
//! below the remaining half level, so truncation lands on the input byte or
//! the one below it.
use crate::filters::recolor;
use crate::binary32::{
    diff, from_u8, lemma_diff_close, lemma_exact, lemma_prod_close, lemma_sum_close, lemma_one_is_pow2, lemma_round_close, lemma_round_div_bounds, one,
    prod, quot,
    round_div, round_signed, sum, to_u8,
};
use crate::lut3d::{
    axis, clamp, grading, grid_level, lemma_lut_index, lerp, lut_byte, lut_index, lut_pixel,
    lut_table, pick, sample, trilinear, Preset,
};
use vstd::arithmetic::div_mod::{lemma_div_by_multiple, lemma_div_denominator};
use vstd::arithmetic::power2::{lemma2_to64, lemma_pow2_adds, pow2};
use vstd::prelude::*;

verus! {

/// Byte of the identity table at grid index `k`.
pub open spec fn identity_byte(k: int) -> int {
    (255 * k + 8) / 16
}

proof fn lemma_pow2_44()
    ensures
        pow2(44) == 0x1000_0000_0000,
        pow2(48) == one(),
{
    lemma2_to64();
    lemma_pow2_adds(12, 32);
    lemma_one_is_pow2();
}

/// The identity table holds `identity_byte` of the channel's grid index.
pub proof fn lemma_identity_entry(ri: int, gi: int, bi: int, ch: int)
    requires
        0 <= ri <= 16,
        0 <= gi <= 16,
        0 <= bi <= 16,
        0 <= ch < 3,
    ensures
        lut_table(Preset::Identity)[lut_index(ri, gi, bi, ch)] as int == identity_byte(
            pick((ri, gi, bi), ch),
        ),
{
    lemma_lut_index(ri, gi, bi, ch);
    let j = lut_index(ri, gi, bi, ch);
    assert(lut_table(Preset::Identity)[j] == lut_byte(Preset::Identity, ri, gi, bi, ch));
    let k = pick((ri, gi, bi), ch);
    assert(0 <= k <= 16);
    lemma_pow2_44();
    let p44: int = 0x1000_0000_0000;
    // k / 16 is exact.
    lemma_exact(k as nat, 44, 0x10_0000_0000_0000);
    assert(k * one() * one() == k * p44 * 0x10_0000_0000_0000);
    assert(grid_level(k) == k * p44);
    assert(pick((grid_level(ri), grid_level(gi), grid_level(bi)), ch) == k * p44);
    // times 255 is exact.
    lemma_exact((255 * k) as nat, 44, one() as nat);
    assert((k * p44) * (255 * one()) == (255 * k) * p44 * one()) by (nonlinear_arith);
    assert(prod(k * p44, 255 * one()) == (255 * k) * p44);
    // plus one half is exact.
    lemma_exact((255 * k + 8) as nat, 44, 1);
    assert(sum((255 * k) * p44, 0x8000_0000_0000) == (255 * k + 8) * p44);
    // truncation.
    let v = (255 * k + 8) * p44;
    assert(v / one() == (255 * k + 8) / 16) by {
        lemma_div_denominator(v, p44, 16);
        lemma_div_by_multiple(255 * k + 8, p44);
    }
    assert(to_u8(v) as int == identity_byte(k));
}

/// `lerp(a, a, f)` stays within `2^35` of `a`.
proof fn lemma_lerp_same(a: int, f: int)
    requires
        -0x200_0000_0000_0000 <= a <= 0x200_0000_0000_0000,
        0 <= f <= one(),
    ensures
        -0x8_0000_0000 <= lerp(a, a, f) - a <= 0x8_0000_0000,
{
    lemma_round_div_bounds(0, 1);
    assert(diff(a, a) == 0);
    lemma_round_div_bounds(0, one() as nat);
    assert(f * 0 == 0);
    assert(prod(f, 0) == 0);
    lemma_round_close(a, 1, 0x200_0000_0000_0000);
}

/// Interpolating between values within `delta` of the table levels `ta`, `tb`
/// (bytes, in units of one level) by a fraction `f` stays within
/// `3 delta + 2^37` of `ta + f (tb - ta)`.
proof fn lemma_lerp_close(a: int, b: int, f: int, ta: int, tb: int, delta: int)
    requires
        0 <= f <= one(),
        0 <= ta <= 255,
        0 <= tb <= 255,
        0 <= delta <= 0x200_0000_0000,
        -delta <= a - ta * one() <= delta,
        -delta <= b - tb * one() <= delta,
    ensures
        -(3 * delta + 0x20_0000_0000) <= lerp(a, b, f) - (ta * one() + f * (tb - ta)) <= 3
            * delta + 0x20_0000_0000,
{
    let g = one();
    let k1: int = 0x200_0000_0000_0000;
    // The difference.
    let d = diff(b, a);
    assert(-k1 <= b - a <= k1);
    lemma_round_close(b - a, 1, k1);
    assert(-(k1 / 0x80_0000 + 2) <= d - (b - a) <= k1 / 0x80_0000 + 2);
    let ed = 2 * delta + 0x4_0000_0002;
    assert(-ed <= d - (tb - ta) * g <= ed);
    assert(-k1 <= d <= k1);
    // The product.
    let p = prod(f, d);
    assert(-k1 * g <= f * d <= k1 * g) by (nonlinear_arith)
        requires 0 <= f <= g, -k1 <= d <= k1, g > 0;
    lemma_round_close(f * d, g as nat, k1);
    assert(-(g * 0x4_0000_0002) <= g * p - f * d <= g * 0x4_0000_0002);
    assert(-(g * ed) <= f * d - f * ((tb - ta) * g) <= g * ed) by (nonlinear_arith)
        requires 0 <= f <= g, -ed <= d - (tb - ta) * g <= ed, ed >= 0;
    let ep = ed + 0x4_0000_0002;
    assert(-(g * ep) <= g * (p - f * (tb - ta)) <= g * ep) by (nonlinear_arith)
        requires
            -(g * 0x4_0000_0002) <= g * p - f * d <= g * 0x4_0000_0002,
            -(g * ed) <= f * d - f * ((tb - ta) * g) <= g * ed,
            ep == ed + 0x4_0000_0002;
    assert(-ep <= p - f * (tb - ta) <= ep) by (nonlinear_arith)
        requires -(g * ep) <= g * (p - f * (tb - ta)) <= g * ep, g > 0;
    // The sum.
    assert(-256 * g <= f * (tb - ta) <= 256 * g) by (nonlinear_arith)
        requires 0 <= f <= g, -255 <= tb - ta <= 255;
    let k2: int = 0x400_0000_0000_0000;
    assert(-k2 <= a + p <= k2);
    lemma_round_close(a + p, 1, k2);
    assert(-(k2 / 0x80_0000 + 2) <= sum(a, p) - (a + p) <= k2 / 0x80_0000 + 2);
}

/// `16 identity_byte(k) - 255 k` lies in `-7 ..= 8`.
proof fn lemma_identity_byte_near(k: int)
    requires
        0 <= k <= 16,
    ensures
        -7 <= 16 * identity_byte(k) - 255 * k <= 8,
        0 <= identity_byte(k) <= 255,
{
    vstd::arithmetic::div_mod::lemma_fundamental_div_mod(255 * k + 8, 16);
    vstd::arithmetic::div_mod::lemma_mod_pos_bound(255 * k + 8, 16);
}

/// Where a byte level falls on a table axis: the interpolated identity level at
/// the computed position is within half a level (plus a small rounding margin)
/// of the byte, scaled by 16.
proof fn lemma_axis_identity(v: u8)
    ensures
        ({
            let ax = axis(v);
            let g = one();
            let t0 = identity_byte(ax.0);
            let t1 = identity_byte(ax.1);
            &&& 0 <= ax.0 <= 16
            &&& ax.1 == (if ax.0 < 16 { ax.0 + 1 } else { 16 })
            &&& 0 <= ax.2 <= g
            &&& -(7 * g + 0x100_0000_0000) <= 16 * (t0 * g + ax.2 * (t1 - t0)) - 16 * v * g
            &&& 16 * (t0 * g + ax.2 * (t1 - t0)) - 16 * v * g <= 8 * g + 0x100_0000_0000
        }),
{
    let g = one();
    let ax = axis(v);
    // t = v / 255
    let t = quot(from_u8(v), 255 * g);
    assert(from_u8(v) * g == v * g * g);
    assert(0 <= v * g * g <= g * (255 * g)) by (nonlinear_arith)
        requires 0 <= v <= 255, g > 0;
    lemma_round_close(v * g * g, (255 * g) as nat, g);
    let et: int = 0x200_0002;
    assert(g / 0x80_0000 + 2 == et);
    assert(-(255 * g * et) <= 255 * g * t - v * g * g <= 255 * g * et);
    assert(-(255 * et) <= 255 * t - v * g <= 255 * et) by (nonlinear_arith)
        requires -(255 * g * et) <= 255 * g * t - v * g * g <= 255 * g * et, g > 0;
    assert(0 <= t <= 2 * g) by {
        crate::binary32::lemma_quot_within(from_u8(v), 255 * g, 1);
    }
    // y = 16 t
    let y = prod(t, 16 * g);
    assert(-(32 * g) * g <= t * (16 * g) <= 32 * g * g) by (nonlinear_arith)
        requires 0 <= t <= 2 * g, g > 0;
    lemma_round_close(t * (16 * g), g as nat, 32 * g);
    assert((32 * g) / 0x80_0000 + 2 == 0x4000_0002);
    assert(-(g * 0x4000_0002) <= g * y - t * (16 * g) <= g * 0x4000_0002);
    assert(-0x4000_0002 <= y - 16 * t <= 0x4000_0002) by (nonlinear_arith)
        requires -(g * 0x4000_0002) <= g * y - t * (16 * g) <= g * 0x4000_0002, g > 0;
    let ey: int = 0x80_0000_0000;
    assert(-ey <= 255 * y - 16 * v * g <= ey);
    // x = clamp(y)
    let x = clamp(y, 0, 16 * g);
    assert(0 <= x <= 16 * g);
    assert(-ey <= 255 * x - 16 * v * g <= ey);
    // grid index and fraction
    let i0 = x / g;
    let fe = x - i0 * g;
    assert(0 <= fe < g && 0 <= i0 <= 16) by {
        vstd::arithmetic::div_mod::lemma_fundamental_div_mod(x, g);
        vstd::arithmetic::div_mod::lemma_mod_pos_bound(x, g);
        vstd::arithmetic::div_mod::lemma_div_is_ordered(x, 16 * g, g);
        lemma_div_by_multiple(16, g);
    }
    assert(ax.0 == i0);
    assert(i0 == 16 ==> fe == 0);
    let rf = diff(x, i0 * g);
    assert(ax.2 == rf);
    crate::binary32::lemma_diff_within(x, i0 * g, 1);
    lemma_round_close(fe, 1, g);
    assert(-et <= rf - fe <= et);
    // the identity levels around the position
    let i1 = ax.1;
    let t0 = identity_byte(i0);
    let t1 = identity_byte(i1);
    lemma_identity_byte_near(i0);
    lemma_identity_byte_near(i1);
    let a = 16 * t0 - 255 * i0;
    let b = 16 * t1 - 255 * i1;
    if i0 < 16 {
        assert(16 * (t0 * g + fe * (t1 - t0)) - 255 * x == a * (g - fe) + b * fe) by (nonlinear_arith)
            requires
                a == 16 * t0 - 255 * i0,
                b == 16 * t1 - 255 * (i0 + 1),
                x == i0 * g + fe;
        assert(-7 * g <= a * (g - fe) + b * fe <= 8 * g) by (nonlinear_arith)
            requires -7 <= a <= 8, -7 <= b <= 8, 0 <= fe <= g;
        assert(0 <= t1 - t0 <= 16) by {
            vstd::arithmetic::div_mod::lemma_div_is_ordered(255 * i0 + 8, 255 * (i0 + 1) + 8, 16);
        }
    } else {
        assert(t0 == 255 && t1 == 255);
        assert(16 * (t0 * g + fe * (t1 - t0)) - 255 * x == 0) by (nonlinear_arith)
            requires fe == 0, t0 == 255, t1 == 255, x == 16 * g;
    }
    assert(-(16 * 16 * et) <= 16 * (t1 - t0) * (rf - fe) <= 16 * 16 * et) by (nonlinear_arith)
        requires 0 <= t1 - t0 <= 16, -et <= rf - fe <= et;
    assert(16 * (t0 * g + rf * (t1 - t0)) == 16 * (t0 * g + fe * (t1 - t0)) + 16 * (t1 - t0) * (
    rf - fe)) by (nonlinear_arith);
}

/// A value within `2^40` of the interpolated identity level at the axis
/// position of `v` truncates to `v` or the level below it.
proof fn lemma_level_within_one(v: u8, s: int)
    requires
        ({
            let ax = axis(v);
            let t0 = identity_byte(ax.0);
            let t1 = identity_byte(ax.1);
            -0x100_0000_0000 <= s - (t0 * one() + ax.2 * (t1 - t0)) <= 0x100_0000_0000
        }),
    ensures
        -1 <= to_u8(clamp(s, 0, 255 * one())) - v <= 1,
{
    let g = one();
    lemma_axis_identity(v);
    assert((v - 1) * g < s < (v + 1) * g);
    let c = clamp(s, 0, 255 * g);
    if c <= 0 {
        assert(v < 1) by (nonlinear_arith)
            requires (v - 1) * g < s, s <= 0, g > 0;
    } else if c / g >= 255 {
        assert(c <= 255 * g);
        assert(c / g <= 255) by {
            vstd::arithmetic::div_mod::lemma_div_is_ordered(c, 255 * g, g);
            lemma_div_by_multiple(255, g);
        }
        assert(s >= 255 * g) by {
            if s < 255 * g {
                vstd::arithmetic::div_mod::lemma_div_is_ordered(s, 255 * g - 1, g);
                vstd::arithmetic::div_mod::lemma_div_multiples_vanish_fancy(254, g - 1, g);
            }
        }
        assert(v > 254) by (nonlinear_arith)
            requires s < (v + 1) * g, s >= 255 * g, g > 0;
    } else {
        assert(c == s);
        assert(v - 1 <= s / g <= v) by {
            vstd::arithmetic::div_mod::lemma_fundamental_div_mod(s, g);
            vstd::arithmetic::div_mod::lemma_mod_pos_bound(s, g);
            assert(v - 1 <= s / g <= v) by (nonlinear_arith)
                requires
                    (v - 1) * g < s < (v + 1) * g,
                    s == g * (s / g) + s % g,
                    0 <= s % g < g,
                    g > 0;
        }
    }
}

/// Every corner sample of the identity table is `identity_byte` of the
/// channel's grid index, in whole levels.
pub open spec fn identity_samples(lut: Seq<u8>, ch: int) -> bool {
    forall|x: int, y: int, z: int|
        0 <= x <= 16 && 0 <= y <= 16 && 0 <= z <= 16 ==> #[trigger] sample(lut, x, y, z, ch)
            == identity_byte(pick((x, y, z), ch)) * one()
}

proof fn lemma_identity_samples(ch: int)
    requires
        0 <= ch < 3,
    ensures
        identity_samples(lut_table(Preset::Identity), ch),
{
    assert forall|x: int, y: int, z: int|
        0 <= x <= 16 && 0 <= y <= 16 && 0 <= z <= 16 implies #[trigger] sample(
        lut_table(Preset::Identity),
        x,
        y,
        z,
        ch,
    ) == identity_byte(pick((x, y, z), ch)) * one() by {
        lemma_identity_entry(x, y, z, ch);
    }
}

/// The trilinear value of `(r, g, b)` in channel `ch`, before clamping.
pub open spec fn interpolated(lut: Seq<u8>, r: u8, g: u8, b: u8, ch: int) -> int {
    let ra = axis(r);
    let ga = axis(g);
    let ba = axis(b);
    let r_lo = lerp(sample(lut, ra.0, ga.0, ba.0, ch), sample(lut, ra.1, ga.0, ba.0, ch), ra.2);
    let r_hi = lerp(sample(lut, ra.0, ga.1, ba.0, ch), sample(lut, ra.1, ga.1, ba.0, ch), ra.2);
    let rr_lo = lerp(r_lo, r_hi, ga.2);
    let r_lo2 = lerp(sample(lut, ra.0, ga.0, ba.1, ch), sample(lut, ra.1, ga.0, ba.1, ch), ra.2);
    let r_hi2 = lerp(sample(lut, ra.0, ga.1, ba.1, ch), sample(lut, ra.1, ga.1, ba.1, ch), ra.2);
    let rr_hi = lerp(r_lo2, r_hi2, ga.2);
    lerp(rr_lo, rr_hi, ba.2)
}

proof fn lemma_trilinear_is_interpolated(lut: Seq<u8>, r: u8, g: u8, b: u8, ch: int)
    ensures
        trilinear(lut, r, g, b, ch) == to_u8(clamp(interpolated(lut, r, g, b, ch), 0, 255 * one())),
{
    reveal(trilinear);
}

proof fn lemma_red_channel(lut: Seq<u8>, r: u8, g: u8, b: u8)
    requires
        identity_samples(lut, 0),
    ensures
        -1 <= to_u8(clamp(interpolated(lut, r, g, b, 0), 0, 255 * one())) - r <= 1,
{
    let u = one();
    let ra = axis(r);
    let ga = axis(g);
    let ba = axis(b);
    lemma_axis_identity(r);
    lemma_axis_identity(g);
    lemma_axis_identity(b);
    let t0 = identity_byte(ra.0);
    let t1 = identity_byte(ra.1);
    let c0 = sample(lut, ra.0, ga.0, ba.0, 0);
    let c1 = sample(lut, ra.1, ga.0, ba.0, 0);
    assert(c0 == t0 * u && c1 == t1 * u);
    assert(sample(lut, ra.0, ga.1, ba.0, 0) == c0 && sample(lut, ra.1, ga.1, ba.0, 0) == c1);
    assert(sample(lut, ra.0, ga.0, ba.1, 0) == c0 && sample(lut, ra.1, ga.0, ba.1, 0) == c1);
    assert(sample(lut, ra.0, ga.1, ba.1, 0) == c0 && sample(lut, ra.1, ga.1, ba.1, 0) == c1);
    lemma_identity_byte_near(ra.0);
    lemma_identity_byte_near(ra.1);
    let r_lo = lerp(c0, c1, ra.2);
    lemma_lerp_close(c0, c1, ra.2, t0, t1, 0);
    assert(-256 * u <= ra.2 * (t1 - t0) <= 256 * u) by (nonlinear_arith)
        requires 0 <= ra.2 <= u, -255 <= t1 - t0 <= 255;
    let rr = lerp(r_lo, r_lo, ga.2);
    lemma_lerp_same(r_lo, ga.2);
    lemma_lerp_same(rr, ba.2);
    assert(interpolated(lut, r, g, b, 0) == lerp(rr, rr, ba.2));
    lemma_level_within_one(r, lerp(rr, rr, ba.2));
}

proof fn lemma_green_channel(lut: Seq<u8>, r: u8, g: u8, b: u8)
    requires
        identity_samples(lut, 1),
    ensures
        -1 <= to_u8(clamp(interpolated(lut, r, g, b, 1), 0, 255 * one())) - g <= 1,
{
    let u = one();
    let ra = axis(r);
    let ga = axis(g);
    let ba = axis(b);
    lemma_axis_identity(r);
    lemma_axis_identity(g);
    lemma_axis_identity(b);
    let t0 = identity_byte(ga.0);
    let t1 = identity_byte(ga.1);
    let c0 = sample(lut, ra.0, ga.0, ba.0, 1);
    let c1 = sample(lut, ra.0, ga.1, ba.0, 1);
    assert(c0 == t0 * u && c1 == t1 * u);
    assert(sample(lut, ra.1, ga.0, ba.0, 1) == c0 && sample(lut, ra.1, ga.1, ba.0, 1) == c1);
    assert(sample(lut, ra.0, ga.0, ba.1, 1) == c0 && sample(lut, ra.1, ga.0, ba.1, 1) == c0);
    assert(sample(lut, ra.0, ga.1, ba.1, 1) == c1 && sample(lut, ra.1, ga.1, ba.1, 1) == c1);
    lemma_identity_byte_near(ga.0);
    lemma_identity_byte_near(ga.1);
    let r_lo = lerp(c0, c0, ra.2);
    let r_hi = lerp(c1, c1, ra.2);
    lemma_lerp_close(c0, c0, ra.2, t0, t0, 0);
    lemma_lerp_close(c1, c1, ra.2, t1, t1, 0);
    assert(ra.2 * (t0 - t0) == 0 && ra.2 * (t1 - t1) == 0);
    let rr = lerp(r_lo, r_hi, ga.2);
    lemma_lerp_close(r_lo, r_hi, ga.2, t0, t1, 0x20_0000_0000);
    assert(-256 * u <= ga.2 * (t1 - t0) <= 256 * u) by (nonlinear_arith)
        requires 0 <= ga.2 <= u, -255 <= t1 - t0 <= 255;
    lemma_lerp_same(rr, ba.2);
    assert(interpolated(lut, r, g, b, 1) == lerp(rr, rr, ba.2));
    lemma_level_within_one(g, lerp(rr, rr, ba.2));
}

proof fn lemma_blue_channel(lut: Seq<u8>, r: u8, g: u8, b: u8)
    requires
        identity_samples(lut, 2),
    ensures
        -1 <= to_u8(clamp(interpolated(lut, r, g, b, 2), 0, 255 * one())) - b <= 1,
{
    let u = one();
    let ra = axis(r);
    let ga = axis(g);
    let ba = axis(b);
    lemma_axis_identity(r);
    lemma_axis_identity(g);
    lemma_axis_identity(b);
    let t0 = identity_byte(ba.0);
    let t1 = identity_byte(ba.1);
    let c0 = sample(lut, ra.0, ga.0, ba.0, 2);
    let c1 = sample(lut, ra.0, ga.0, ba.1, 2);
    assert(c0 == t0 * u && c1 == t1 * u);
    assert(sample(lut, ra.1, ga.0, ba.0, 2) == c0 && sample(lut, ra.0, ga.1, ba.0, 2) == c0);
    assert(sample(lut, ra.1, ga.1, ba.0, 2) == c0 && sample(lut, ra.1, ga.0, ba.1, 2) == c1);
    assert(sample(lut, ra.0, ga.1, ba.1, 2) == c1 && sample(lut, ra.1, ga.1, ba.1, 2) == c1);
    lemma_identity_byte_near(ba.0);
    lemma_identity_byte_near(ba.1);
    let r_lo = lerp(c0, c0, ra.2);
    let r_lo2 = lerp(c1, c1, ra.2);
    lemma_lerp_close(c0, c0, ra.2, t0, t0, 0);
    lemma_lerp_close(c1, c1, ra.2, t1, t1, 0);
    assert(ra.2 * (t0 - t0) == 0 && ra.2 * (t1 - t1) == 0);
    let rr_lo = lerp(r_lo, r_lo, ga.2);
    let rr_hi = lerp(r_lo2, r_lo2, ga.2);
    lemma_lerp_same(r_lo, ga.2);
    lemma_lerp_same(r_lo2, ga.2);
    lemma_lerp_close(rr_lo, rr_hi, ba.2, t0, t1, 0x28_0000_0000);
    assert(interpolated(lut, r, g, b, 2) == lerp(rr_lo, rr_hi, ba.2));
    lemma_level_within_one(b, lerp(rr_lo, rr_hi, ba.2));
}

/// Grading through the identity table moves no colour channel by more than one
/// level.
pub proof fn lemma_identity_grading_within_one(r: u8, g: u8, b: u8)
    ensures
        -1 <= lut_pixel(lut_table(Preset::Identity), r, g, b).0 - r <= 1,
        -1 <= lut_pixel(lut_table(Preset::Identity), r, g, b).1 - g <= 1,
        -1 <= lut_pixel(lut_table(Preset::Identity), r, g, b).2 - b <= 1,
{
    let lut = lut_table(Preset::Identity);
    lemma_identity_samples(0);
    lemma_identity_samples(1);
    lemma_identity_samples(2);
    lemma_trilinear_is_interpolated(lut, r, g, b, 0);
    lemma_trilinear_is_interpolated(lut, r, g, b, 1);
    lemma_trilinear_is_interpolated(lut, r, g, b, 2);
    lemma_red_channel(lut, r, g, b);
    lemma_green_channel(lut, r, g, b);
    lemma_blue_channel(lut, r, g, b);
}

/// Grading a buffer through the identity table, the table of every preset
/// name that is not recognised, keeps every byte within one level of the input.
pub proof fn lemma_identity_grading_keeps_buffer(pixels: Seq<u8>)
    ensures
        recolor(pixels, grading(lut_table(Preset::Identity))).len() == pixels.len(),
        forall|k: int|
            0 <= k < pixels.len() ==> -1 <= #[trigger] recolor(
                pixels,
                grading(lut_table(Preset::Identity)),
            )[k] - pixels[k] <= 1,
{
    let out = recolor(pixels, grading(lut_table(Preset::Identity)));
    assert forall|k: int| 0 <= k < pixels.len() implies -1 <= #[trigger] out[k] - pixels[k]
        <= 1 by {
        let p = k - k % 4;
        if p + 4 <= pixels.len() && k % 4 < 3 {
            lemma_identity_grading_within_one(pixels[p], pixels[p + 1], pixels[p + 2]);
            assert(k == p + k % 4);
        }
    }
}

/// Interpolating between two values within `[lo - e, hi + e]` stays within
/// `[lo - e - 2^37, hi + e + 2^37]`.
proof fn lemma_lerp_between(a: int, b: int, f: int, lo: int, hi: int, e: int)
    requires
        0 <= f <= one(),
        0 <= lo <= hi <= 255 * one(),
        0 <= e <= 0x100_0000_0000,
        lo - e <= a <= hi + e,
        lo - e <= b <= hi + e,
    ensures
        lo - e - 0x20_0000_0000 <= lerp(a, b, f) <= hi + e + 0x20_0000_0000,
{
    let g = one();
    let d = diff(b, a);
    lemma_diff_close(b, a);
    let e1: int = 0x8_0000_0002;
    assert(-(0x200 * g) <= d <= 0x200 * g);
    let p = prod(f, d);
    assert(-0x400_0000_0000_0000 * g <= f * d <= 0x400_0000_0000_0000 * g) by (nonlinear_arith)
        requires 0 <= f <= g, -(0x200 * g) <= d <= 0x200 * g, g == 0x1_0000_0000_0000;
    lemma_prod_close(f, d);
    // g (a + p) is within g * (e1 + e1) of the convex combination (g - f) a + f b
    assert(g * a + f * d == (g - f) * a + f * b + f * (d - (b - a))) by (nonlinear_arith);
    assert(g * (lo - e) <= (g - f) * a + f * b <= g * (hi + e)) by (nonlinear_arith)
        requires 0 <= f <= g, lo - e <= a <= hi + e, lo - e <= b <= hi + e;
    assert(-(g * e1) <= f * (d - (b - a)) <= g * e1) by (nonlinear_arith)
        requires 0 <= f <= g, -e1 <= d - (b - a) <= e1;
    assert(g * (lo - e - 2 * e1) <= g * (a + p) <= g * (hi + e + 2 * e1));
    assert(lo - e - 2 * e1 <= a + p <= hi + e + 2 * e1) by (nonlinear_arith)
        requires g * (lo - e - 2 * e1) <= g * (a + p) <= g * (hi + e + 2 * e1), g > 0;
    lemma_sum_close(a, p);
}

/// The corner bytes of the trilinear cell of `(r, g, b)` in channel `ch` all
/// lie in `lo ..= hi`.
pub open spec fn corners_within(lut: Seq<u8>, r: u8, g: u8, b: u8, ch: int, lo: int, hi: int) -> bool {
    let ra = axis(r);
    let ga = axis(g);
    let ba = axis(b);
    forall|x: int, y: int, z: int|
        (x == ra.0 || x == ra.1) && (y == ga.0 || y == ga.1) && (z == ba.0 || z == ba.1) ==> lo
            <= #[trigger] lut[lut_index(x, y, z, ch)] <= hi
}

/// A trilinear result lies between the smallest of its eight corner bytes,
/// less one, and the largest.
pub proof fn lemma_trilinear_within_corners(
    lut: Seq<u8>,
    r: u8,
    g: u8,
    b: u8,
    ch: int,
    lo: int,
    hi: int,
)
    requires
        0 <= lo <= hi,
        corners_within(lut, r, g, b, ch, lo, hi),
    ensures
        lo - 1 <= trilinear(lut, r, g, b, ch) <= hi,
{
    let u = one();
    let ra = axis(r);
    let ga = axis(g);
    let ba = axis(b);
    lemma_axis_identity(r);
    lemma_axis_identity(g);
    lemma_axis_identity(b);
    lemma_trilinear_is_interpolated(lut, r, g, b, ch);
    let hi2 = if hi <= 255 { hi } else { 255 };
    let l = lo * u;
    let h = hi2 * u;
    assert forall|x: int, y: int, z: int|
        (x == ra.0 || x == ra.1) && (y == ga.0 || y == ga.1) && (z == ba.0 || z == ba.1) implies l
        <= #[trigger] sample(lut, x, y, z, ch) <= h by {
        let v = lut[lut_index(x, y, z, ch)];
        assert(lo <= v <= hi2);
        assert(lo * u <= v * u <= hi2 * u) by (nonlinear_arith)
            requires lo <= v <= hi2, u > 0;
    }
    if lo <= hi2 {
        let c000 = sample(lut, ra.0, ga.0, ba.0, ch);
        let c100 = sample(lut, ra.1, ga.0, ba.0, ch);
        let c010 = sample(lut, ra.0, ga.1, ba.0, ch);
        let c110 = sample(lut, ra.1, ga.1, ba.0, ch);
        let c001 = sample(lut, ra.0, ga.0, ba.1, ch);
        let c101 = sample(lut, ra.1, ga.0, ba.1, ch);
        let c011 = sample(lut, ra.0, ga.1, ba.1, ch);
        let c111 = sample(lut, ra.1, ga.1, ba.1, ch);
        let e1: int = 0x20_0000_0000;
        lemma_lerp_between(c000, c100, ra.2, l, h, 0);
        lemma_lerp_between(c010, c110, ra.2, l, h, 0);
        lemma_lerp_between(c001, c101, ra.2, l, h, 0);
        lemma_lerp_between(c011, c111, ra.2, l, h, 0);
        let r_lo = lerp(c000, c100, ra.2);
        let r_hi = lerp(c010, c110, ra.2);
        let r_lo2 = lerp(c001, c101, ra.2);
        let r_hi2 = lerp(c011, c111, ra.2);
        lemma_lerp_between(r_lo, r_hi, ga.2, l, h, e1);
        lemma_lerp_between(r_lo2, r_hi2, ga.2, l, h, e1);
        let rr_lo = lerp(r_lo, r_hi, ga.2);
        let rr_hi = lerp(r_lo2, r_hi2, ga.2);
        lemma_lerp_between(rr_lo, rr_hi, ba.2, l, h, 2 * e1);
        let x = lerp(rr_lo, rr_hi, ba.2);
        assert(interpolated(lut, r, g, b, ch) == x);
        assert((lo - 1) * u < x < (hi2 + 1) * u);
        lemma_to_u8_between(x, lo, hi2);
    } else {
        // no byte lies in lo ..= hi: the corner condition cannot hold
        let v = lut[lut_index(ra.0, ga.0, ba.0, ch)];
        assert(lo <= v <= hi);
    }
}

/// A value strictly between `(lo - 1) * 1.0` and `(hi + 1) * 1.0` clamps to
/// `0.0 ..= 255.0` and truncates to a byte in `lo - 1 ..= hi`.
proof fn lemma_to_u8_between(x: int, lo: int, hi: int)
    requires
        0 <= lo <= hi <= 255,
        (lo - 1) * one() < x < (hi + 1) * one(),
    ensures
        lo - 1 <= to_u8(clamp(x, 0, 255 * one())) <= hi,
{
    let g = one();
    let c = clamp(x, 0, 255 * g);
    assert((lo - 1) * g < c < (hi + 1) * g || c == 0 || c == 255 * g);
    if c <= 0 {
        assert(lo - 1 < 0) by (nonlinear_arith)
            requires (lo - 1) * g < x, x <= 0, g > 0;
    } else {
        vstd::arithmetic::div_mod::lemma_fundamental_div_mod(c, g);
        vstd::arithmetic::div_mod::lemma_mod_pos_bound(c, g);
        if c < x {
            assert(c == 255 * g);
            lemma_div_by_multiple(255, g);
            assert(hi >= 255) by (nonlinear_arith)
                requires 255 * g < x, x < (hi + 1) * g, g > 0;
        } else if c / g >= 255 {
            assert(hi >= 255) by (nonlinear_arith)
                requires c == g * (c / g) + c % g, 0 <= c % g < g, c / g >= 255, c < (hi + 1) * g, g > 0;
        } else {
            assert(c == x);
            assert(lo - 1 <= c / g <= hi) by (nonlinear_arith)
                requires (lo - 1) * g < c < (hi + 1) * g, c == g * (c / g) + c % g, 0 <= c % g < g, g > 0;
        }
    }
}

} // verus!
