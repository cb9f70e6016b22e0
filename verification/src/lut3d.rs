//! 3D look-up-table colour grading with built-in presets.
//!
//! A table holds 17 x 17 x 17 grid points (R outermost, B innermost), three
//! bytes each.  Grid point `(ri, gi, bi)` stores the preset transform of the
//! colour `(ri / 16.0, gi / 16.0, bi / 16.0)`, scaled by 255.0 and rounded
//! half up.  Pixels are graded by trilinear interpolation between the eight
//! surrounding grid points.  All arithmetic follows the single-precision model
//! of `binary32`.
use crate::binary32::{
    abs, diff, diff_exec, from_u8, from_u8_exec, lemma_diff_within, lemma_prod_within,
    lemma_quot_within, lemma_sum_within, one, prod, prod_exec, quot, quot_exec, sum, sum_exec,
    to_u8, to_u8_exec, ONE,
};
use crate::filters::{recolor, same_alpha};
use crate::hsl::{
    hsl_to_rgb_parts, hue_step, max, min, rgb_of_hsl_parts, saturation, HALF,
};
use crate::text::str_equals;
use crate::lut_laws::lemma_identity_grading_keeps_buffer;
use vstd::arithmetic::div_mod::{lemma_fundamental_div_mod_converse};
use vstd::prelude::*;
use vstd::slice::slice_to_vec;

verus! {

/// Grid points per axis.
pub const LUT_DIM: usize = 17;

/// Grid points in a table.
pub const LUT_SIZE: usize = 4913;

/// Threshold below which two levels count as equal, 1e-7.
pub const TINY: i128 = 28147498;

// Preset coefficients in grid units: `K_abc` is the single-precision number
// nearest to a.bc (so `K_190` is 1.90 and `K_007` is 0.07).

/// 0.01.
pub const K_001: i128 = 2814749704192;

pub const K_002: i128 = 5629499408384;

pub const K_003: i128 = 8444249112576;

pub const K_004: i128 = 11258998816768;

pub const K_006: i128 = 16888498225152;

pub const K_007: i128 = 19703248453632;

pub const K_008: i128 = 22517997633536;

pub const K_010: i128 = 28147498090496;

pub const K_014: i128 = 39406496907264;

pub const K_018: i128 = 50665497821184;

pub const K_028: i128 = 78812993814528;

pub const K_030: i128 = 84442496368640;

pub const K_055: i128 = 154811240546304;

pub const K_082: i128 = 230809478889472;

pub const K_088: i128 = 247697978163200;

pub const K_090: i128 = 253327472328704;

pub const K_093: i128 = 261771730354176;

pub const K_101: i128 = 284289723793408;

pub const K_103: i128 = 289919217958912;

pub const K_106: i128 = 298363459207168;

pub const K_108: i128 = 303992986927104;

pub const K_110: i128 = 309622481092608;

pub const K_115: i128 = 323696216506368;

pub const K_190: i128 = 534802449039360;

/// Luma weights 0.299, 0.587, 0.114.
pub const LUM_R: i128 = 84161016627200;

pub const LUM_G: i128 = 165225814818816;

pub const LUM_B: i128 = 32088147361792;

/// The built-in presets; `Identity` is used for unknown names.
pub enum Preset {
    Natural,
    Pop,
    Soft,
    Film,
    Vintage,
    Cool,
    Peach,
    Identity,
}

pub open spec fn clamp(v: int, lo: int, hi: int) -> int {
    if v < lo {
        lo
    } else if v > hi {
        hi
    } else {
        v
    }
}

pub open spec fn clamp_unit(v: int) -> int {
    clamp(v, 0, one())
}

/// The two levels differ by less than 1e-7.
pub open spec fn near(a: int, b: int) -> bool {
    abs(diff(a, b)) < TINY
}

/// `(h, s, l)` of a colour, with equality of levels tested up to 1e-7.
pub open spec fn lut_hsl(r: int, g: int, b: int) -> (int, int, int) {
    let mx = max(max(r, g), b);
    let mn = min(min(r, g), b);
    let l = quot(sum(mx, mn), 2 * one());
    if near(mx, mn) {
        (0, 0, l)
    } else {
        let d = diff(mx, mn);
        let s = if l > HALF {
            quot(d, diff(diff(2 * one(), mx), mn))
        } else {
            quot(d, sum(mx, mn))
        };
        let h = if near(mx, r) {
            quot(sum(quot(diff(g, b), d), if g < b { 6 * one() } else { 0 }), 6 * one())
        } else if near(mx, g) {
            quot(sum(quot(diff(b, r), d), 2 * one()), 6 * one())
        } else {
            quot(sum(quot(diff(r, g), d), 4 * one()), 6 * one())
        };
        (h, s, l)
    }
}

/// `(r, g, b)` of an HSL colour; grey when the saturation is below 1e-7.
pub open spec fn lut_rgb(h: int, s: int, l: int) -> (int, int, int) {
    if s < TINY {
        (l, l, l)
    } else {
        rgb_of_hsl_parts(h, s, l)
    }
}

/// Saturation scaled by `f` (clamped to `0.0 ..= 1.0`), hue and lightness kept.
pub open spec fn adjust_saturation(r: int, g: int, b: int, f: int) -> (int, int, int) {
    let t = lut_hsl(r, g, b);
    lut_rgb(t.0, clamp_unit(prod(t.1, f)), t.2)
}

/// Contrast curve: `v (1 - k) + smoothstep(v) k` with `smoothstep(v) = v v (3 - 2 v)`.
pub open spec fn s_curve(v: int, k: int) -> int {
    sum(prod(v, diff(one(), k)), prod(prod(prod(v, v), diff(3 * one(), prod(2 * one(), v))), k))
}

pub open spec fn luminance(r: int, g: int, b: int) -> int {
    sum(sum(prod(r, LUM_R as int), prod(g, LUM_G as int)), prod(b, LUM_B as int))
}

pub open spec fn natural(r: int, g: int, b: int) -> (int, int, int) {
    let r1 = clamp_unit(sum(prod(r, K_110 as int), K_003 as int));
    let g1 = clamp_unit(sum(prod(g, K_103 as int), K_001 as int));
    let b1 = clamp_unit(prod(b, K_090 as int));
    (
        clamp_unit(s_curve(r1, K_018 as int)),
        clamp_unit(s_curve(g1, K_014 as int)),
        clamp_unit(s_curve(b1, K_010 as int)),
    )
}

pub open spec fn pop(r: int, g: int, b: int) -> (int, int, int) {
    let a = adjust_saturation(r, g, b, K_190 as int);
    let r1 = clamp_unit(sum(prod(a.0, K_110 as int), K_002 as int));
    let g1 = clamp_unit(sum(prod(a.1, K_110 as int), K_002 as int));
    let b1 = clamp_unit(sum(prod(a.2, K_108 as int), K_002 as int));
    (
        clamp_unit(s_curve(r1, K_030 as int)),
        clamp_unit(s_curve(g1, K_030 as int)),
        clamp_unit(s_curve(b1, K_028 as int)),
    )
}

pub open spec fn soft(r: int, g: int, b: int) -> (int, int, int) {
    let a = adjust_saturation(r, g, b, K_082 as int);
    (
        clamp_unit(sum(prod(a.0, K_088 as int), K_006 as int)),
        clamp_unit(sum(prod(a.1, K_088 as int), K_006 as int)),
        clamp_unit(sum(prod(a.2, K_088 as int), K_006 as int)),
    )
}

pub open spec fn film(r: int, g: int, b: int) -> (int, int, int) {
    let warm = luminance(r, g, b);
    let cool = diff(one(), warm);
    let a = adjust_saturation(r, g, b, K_088 as int);
    let r1 = clamp_unit(diff(sum(a.0, prod(warm, K_007 as int)), prod(cool, K_002 as int)));
    let g1 = clamp_unit(diff(sum(a.1, prod(warm, K_002 as int)), prod(cool, K_001 as int)));
    let b1 = clamp_unit(sum(diff(a.2, prod(warm, K_006 as int)), prod(cool, K_007 as int)));
    (
        clamp_unit(s_curve(r1, K_010 as int)),
        clamp_unit(s_curve(g1, K_008 as int)),
        clamp_unit(s_curve(b1, K_006 as int)),
    )
}

/// `v * 0.82 + 0.06`.
pub open spec fn fade(v: int) -> int {
    sum(prod(v, K_082 as int), K_006 as int)
}

pub open spec fn vintage(r: int, g: int, b: int) -> (int, int, int) {
    let a = adjust_saturation(r, g, b, K_055 as int);
    (
        clamp_unit(sum(fade(a.0), K_004 as int)),
        clamp_unit(sum(fade(a.1), K_001 as int)),
        clamp_unit(diff(fade(a.2), K_003 as int)),
    )
}

pub open spec fn cool(r: int, g: int, b: int) -> (int, int, int) {
    let lum = luminance(r, g, b);
    let a = adjust_saturation(r, g, b, K_115 as int);
    (
        clamp_unit(sum(diff(a.0, K_008 as int), prod(lum, K_003 as int))),
        clamp_unit(diff(a.1, K_002 as int)),
        clamp_unit(diff(sum(a.2, K_010 as int), prod(lum, K_003 as int))),
    )
}

pub open spec fn peach(r: int, g: int, b: int) -> (int, int, int) {
    let lum = luminance(r, g, b);
    let r1 = clamp_unit(sum(prod(r, K_106 as int), K_002 as int));
    let g1 = clamp_unit(sum(prod(g, K_101 as int), K_001 as int));
    let b1 = clamp_unit(prod(b, K_093 as int));
    (
        clamp_unit(sum(r1, prod(lum, K_003 as int))),
        clamp_unit(sum(g1, prod(lum, K_001 as int))),
        clamp_unit(diff(b1, prod(lum, K_004 as int))),
    )
}

/// The colour transform of a preset, on levels in `0.0 ..= 1.0`.
pub open spec fn transform(p: Preset, r: int, g: int, b: int) -> (int, int, int) {
    match p {
        Preset::Natural => natural(r, g, b),
        Preset::Pop => pop(r, g, b),
        Preset::Soft => soft(r, g, b),
        Preset::Film => film(r, g, b),
        Preset::Vintage => vintage(r, g, b),
        Preset::Cool => cool(r, g, b),
        Preset::Peach => peach(r, g, b),
        Preset::Identity => (r, g, b),
    }
}

/// The preset named `name`.
pub open spec fn preset_named(name: Seq<char>) -> Preset {
    if name == "natural"@ {
        Preset::Natural
    } else if name == "pop"@ {
        Preset::Pop
    } else if name == "soft"@ {
        Preset::Soft
    } else if name == "film"@ {
        Preset::Film
    } else if name == "vintage"@ {
        Preset::Vintage
    } else if name == "cool"@ {
        Preset::Cool
    } else if name == "peach"@ {
        Preset::Peach
    } else {
        Preset::Identity
    }
}

/// Level of grid index `k`: `k / 16.0`.
pub open spec fn grid_level(k: int) -> int {
    quot(k * one(), 16 * one())
}

pub open spec fn pick(c: (int, int, int), ch: int) -> int {
    if ch == 0 {
        c.0
    } else if ch == 1 {
        c.1
    } else {
        c.2
    }
}

/// Byte `ch` of grid point `(ri, gi, bi)`: the transformed level times 255.0
/// plus 0.5, truncated.
pub open spec fn lut_byte(p: Preset, ri: int, gi: int, bi: int, ch: int) -> u8 {
    let c = transform(p, grid_level(ri), grid_level(gi), grid_level(bi));
    to_u8(sum(prod(pick(c, ch), 255 * one()), HALF as int))
}

/// The whole table of a preset.
pub open spec fn lut_table(p: Preset) -> Seq<u8> {
    Seq::new(
        (3 * LUT_SIZE) as nat,
        |j: int| lut_byte(p, j / 3 / 289, (j / 3 / 17) % 17, (j / 3) % 17, j % 3),
    )
}

// ---------------------------------------------------------------------------
// Executable transforms.
fn clamp_unit_exec(v: i128) -> (res: i128)
    ensures
        res == clamp_unit(v as int),
        0 <= res <= one(),
{
    if v < 0 {
        0
    } else if v > ONE {
        ONE
    } else {
        v
    }
}

#[verifier::rlimit(40)]
fn lut_hsl_exec(r: i128, g: i128, b: i128) -> (res: (i128, i128, i128))
    requires
        0 <= r <= one(),
        0 <= g <= one(),
        0 <= b <= one(),
    ensures
        (res.0 as int, res.1 as int, res.2 as int) == lut_hsl(r as int, g as int, b as int),
        -2 * one() <= res.0 <= 2 * one(),
        0 <= res.1 <= one(),
        0 <= res.2 <= one(),
{
    let mx0 = if r >= g {
        r
    } else {
        g
    };
    let mx = if mx0 >= b {
        mx0
    } else {
        b
    };
    let mn0 = if r <= g {
        r
    } else {
        g
    };
    let mn = if mn0 <= b {
        mn0
    } else {
        b
    };
    proof {
        lemma_sum_within(mx as int, mn as int, 2);
    }
    let sm = sum_exec(mx, mn);
    proof {
        lemma_quot_within(sm as int, 2 * one(), 1);
        lemma_diff_within(mx as int, mn as int, 1);
    }
    let l = quot_exec(sm, 2 * ONE);
    let d = diff_exec(mx, mn);
    if d < TINY {
        return (0, 0, l);
    }
    let s = saturation(mx, mn, l, d);
    proof {
        lemma_diff_within(mx as int, r as int, 1);
        lemma_diff_within(mx as int, g as int, 1);
    }
    let near_r = diff_exec(mx, r) < TINY;
    let near_g = diff_exec(mx, g) < TINY;
    let hh = if near_r {
        let q = hue_step(g, b, d, Ghost(mx as int), Ghost(mn as int));
        let off: i128 = if g < b {
            6 * ONE
        } else {
            0
        };
        proof {
            lemma_sum_within(q as int, off as int, 8);
        }
        sum_exec(q, off)
    } else if near_g {
        let q = hue_step(b, r, d, Ghost(mx as int), Ghost(mn as int));
        proof {
            lemma_sum_within(q as int, 2 * one(), 8);
        }
        sum_exec(q, 2 * ONE)
    } else {
        let q = hue_step(r, g, d, Ghost(mx as int), Ghost(mn as int));
        proof {
            lemma_sum_within(q as int, 4 * one(), 8);
        }
        sum_exec(q, 4 * ONE)
    };
    proof {
        lemma_quot_within(hh as int, 6 * one(), 2);
    }
    let h = quot_exec(hh, 6 * ONE);
    (h, s, l)
}

fn adjust_saturation_exec(r: i128, g: i128, b: i128, f: i128) -> (res: (i128, i128, i128))
    requires
        0 <= r <= one(),
        0 <= g <= one(),
        0 <= b <= one(),
        0 <= f <= 2 * one(),
    ensures
        (res.0 as int, res.1 as int, res.2 as int) == adjust_saturation(r as int, g as int, b as int, f as int),
        -512 * one() <= res.0 <= 512 * one(),
        -512 * one() <= res.1 <= 512 * one(),
        -512 * one() <= res.2 <= 512 * one(),
{
    let (h, s, l) = lut_hsl_exec(r, g, b);
    proof {
        lemma_prod_within(s as int, f as int, 1, 2);
    }
    let s2 = clamp_unit_exec(prod_exec(s, f));
    if s2 < TINY {
        return (l, l, l);
    }
    hsl_to_rgb_parts(h, s2, l)
}

fn s_curve_exec(v: i128, k: i128) -> (res: i128)
    requires
        0 <= v <= one(),
        0 <= k <= one(),
    ensures
        res == s_curve(v as int, k as int),
        -8 * one() <= res <= 8 * one(),
{
    proof {
        lemma_prod_within(v as int, v as int, 1, 1);
        lemma_prod_within(2 * one(), v as int, 2, 1);
    }
    let vv = prod_exec(v, v);
    let tv = prod_exec(2 * ONE, v);
    proof {
        lemma_diff_within(3 * one(), tv as int, 3);
    }
    let w = diff_exec(3 * ONE, tv);
    proof {
        lemma_prod_within(vv as int, w as int, 1, 3);
    }
    let smooth = prod_exec(vv, w);
    proof {
        lemma_diff_within(one(), k as int, 1);
    }
    let keep = diff_exec(ONE, k);
    proof {
        lemma_prod_within(v as int, keep as int, 1, 1);
        lemma_prod_within(smooth as int, k as int, 3, 1);
    }
    let a = prod_exec(v, keep);
    let c = prod_exec(smooth, k);
    proof {
        lemma_sum_within(a as int, c as int, 4);
    }
    sum_exec(a, c)
}

/// `v * w + c` clamped to the unit range, for `|v| <= 512`, `0 <= w <= 2`, `|c| <= 1`.
fn scale_shift_unit(v: i128, w: i128, c: i128) -> (res: i128)
    requires
        -512 * one() <= v <= 512 * one(),
        0 <= w <= 2 * one(),
        -one() <= c <= one(),
    ensures
        res == clamp_unit(sum(prod(v as int, w as int), c as int)),
        0 <= res <= one(),
{
    proof {
        lemma_prod_within(v as int, w as int, 512, 2);
    }
    let a = prod_exec(v, w);
    proof {
        lemma_sum_within(a as int, c as int, 1025);
    }
    clamp_unit_exec(sum_exec(a, c))
}

fn luminance_exec(r: i128, g: i128, b: i128) -> (res: i128)
    requires
        0 <= r <= one(),
        0 <= g <= one(),
        0 <= b <= one(),
    ensures
        res == luminance(r as int, g as int, b as int),
        -4 * one() <= res <= 4 * one(),
{
    proof {
        lemma_prod_within(r as int, LUM_R as int, 1, 1);
        lemma_prod_within(g as int, LUM_G as int, 1, 1);
        lemma_prod_within(b as int, LUM_B as int, 1, 1);
    }
    let a = prod_exec(r, LUM_R);
    let c = prod_exec(g, LUM_G);
    proof {
        lemma_sum_within(a as int, c as int, 2);
    }
    let s = sum_exec(a, c);
    let e = prod_exec(b, LUM_B);
    proof {
        lemma_sum_within(s as int, e as int, 3);
    }
    sum_exec(s, e)
}

/// `prod(v, w)` for `|v| <= 4` and `0 <= w <= 1`.
fn small_prod(v: i128, w: i128) -> (res: i128)
    requires
        -4 * one() <= v <= 4 * one(),
        0 <= w <= one(),
    ensures
        res == prod(v as int, w as int),
        -4 * one() <= res <= 4 * one(),
{
    proof {
        lemma_prod_within(v as int, w as int, 4, 1);
    }
    prod_exec(v, w)
}

fn natural_exec(r: i128, g: i128, b: i128) -> (res: (i128, i128, i128))
    requires
        0 <= r <= one(),
        0 <= g <= one(),
        0 <= b <= one(),
    ensures
        (res.0 as int, res.1 as int, res.2 as int) == natural(r as int, g as int, b as int),
        0 <= res.0 <= one(),
        0 <= res.1 <= one(),
        0 <= res.2 <= one(),
{
    let r1 = scale_shift_unit(r, K_110, K_003);
    let g1 = scale_shift_unit(g, K_103, K_001);
    proof {
        lemma_prod_within(b as int, K_090 as int, 1, 1);
    }
    let b1 = clamp_unit_exec(prod_exec(b, K_090));
    (
        clamp_unit_exec(s_curve_exec(r1, K_018)),
        clamp_unit_exec(s_curve_exec(g1, K_014)),
        clamp_unit_exec(s_curve_exec(b1, K_010)),
    )
}

fn pop_exec(r: i128, g: i128, b: i128) -> (res: (i128, i128, i128))
    requires
        0 <= r <= one(),
        0 <= g <= one(),
        0 <= b <= one(),
    ensures
        (res.0 as int, res.1 as int, res.2 as int) == pop(r as int, g as int, b as int),
        0 <= res.0 <= one(),
        0 <= res.1 <= one(),
        0 <= res.2 <= one(),
{
    let a = adjust_saturation_exec(r, g, b, K_190);
    let r1 = scale_shift_unit(a.0, K_110, K_002);
    let g1 = scale_shift_unit(a.1, K_110, K_002);
    let b1 = scale_shift_unit(a.2, K_108, K_002);
    (
        clamp_unit_exec(s_curve_exec(r1, K_030)),
        clamp_unit_exec(s_curve_exec(g1, K_030)),
        clamp_unit_exec(s_curve_exec(b1, K_028)),
    )
}

fn soft_exec(r: i128, g: i128, b: i128) -> (res: (i128, i128, i128))
    requires
        0 <= r <= one(),
        0 <= g <= one(),
        0 <= b <= one(),
    ensures
        (res.0 as int, res.1 as int, res.2 as int) == soft(r as int, g as int, b as int),
        0 <= res.0 <= one(),
        0 <= res.1 <= one(),
        0 <= res.2 <= one(),
{
    let a = adjust_saturation_exec(r, g, b, K_082);
    (
        scale_shift_unit(a.0, K_088, K_006),
        scale_shift_unit(a.1, K_088, K_006),
        scale_shift_unit(a.2, K_088, K_006),
    )
}

/// `clamp_unit((a + x * wx) - y * wy)` style step of the film transform:
/// `a + s1 * p1 + s2 * p2` where each sign `s` is +1 or -1, evaluated left to right.
fn tint_exec(a: i128, p1: i128, add1: bool, p2: i128, add2: bool) -> (res: i128)
    requires
        -512 * one() <= a <= 512 * one(),
        -4 * one() <= p1 <= 4 * one(),
        -4 * one() <= p2 <= 4 * one(),
    ensures
        res == clamp_unit(
            {
                let t = if add1 {
                    sum(a as int, p1 as int)
                } else {
                    diff(a as int, p1 as int)
                };
                if add2 {
                    sum(t, p2 as int)
                } else {
                    diff(t, p2 as int)
                }
            },
        ),
        0 <= res <= one(),
{
    proof {
        lemma_sum_within(a as int, p1 as int, 516);
        lemma_diff_within(a as int, p1 as int, 516);
    }
    let t = if add1 {
        sum_exec(a, p1)
    } else {
        diff_exec(a, p1)
    };
    proof {
        lemma_sum_within(t as int, p2 as int, 520);
        lemma_diff_within(t as int, p2 as int, 520);
    }
    let u = if add2 {
        sum_exec(t, p2)
    } else {
        diff_exec(t, p2)
    };
    clamp_unit_exec(u)
}

fn film_exec(r: i128, g: i128, b: i128) -> (res: (i128, i128, i128))
    requires
        0 <= r <= one(),
        0 <= g <= one(),
        0 <= b <= one(),
    ensures
        (res.0 as int, res.1 as int, res.2 as int) == film(r as int, g as int, b as int),
        0 <= res.0 <= one(),
        0 <= res.1 <= one(),
        0 <= res.2 <= one(),
{
    let warm = luminance_exec(r, g, b);
    proof {
        lemma_diff_within(one(), warm as int, 5);
    }
    let cool = diff_exec(ONE, warm);
    let a = adjust_saturation_exec(r, g, b, K_088);
    proof {
        lemma_prod_within(cool as int, K_002 as int, 5, 1);
        lemma_prod_within(cool as int, K_001 as int, 5, 1);
        lemma_prod_within(cool as int, K_007 as int, 5, 1);
    }
    let r1 = tint_exec(a.0, small_prod(warm, K_007), true, prod_exec(cool, K_002), false);
    let g1 = tint_exec(a.1, small_prod(warm, K_002), true, prod_exec(cool, K_001), false);
    let b1 = tint_exec(a.2, small_prod(warm, K_006), false, prod_exec(cool, K_007), true);
    (
        clamp_unit_exec(s_curve_exec(r1, K_010)),
        clamp_unit_exec(s_curve_exec(g1, K_008)),
        clamp_unit_exec(s_curve_exec(b1, K_006)),
    )
}

fn vintage_exec(r: i128, g: i128, b: i128) -> (res: (i128, i128, i128))
    requires
        0 <= r <= one(),
        0 <= g <= one(),
        0 <= b <= one(),
    ensures
        (res.0 as int, res.1 as int, res.2 as int) == vintage(r as int, g as int, b as int),
        0 <= res.0 <= one(),
        0 <= res.1 <= one(),
        0 <= res.2 <= one(),
{
    let a = adjust_saturation_exec(r, g, b, K_055);
    proof {
        lemma_prod_within(a.0 as int, K_082 as int, 512, 1);
        lemma_prod_within(a.1 as int, K_082 as int, 512, 1);
        lemma_prod_within(a.2 as int, K_082 as int, 512, 1);
    }
    let x0 = prod_exec(a.0, K_082);
    let x1 = prod_exec(a.1, K_082);
    let x2 = prod_exec(a.2, K_082);
    proof {
        lemma_sum_within(x0 as int, K_006 as int, 513);
        lemma_sum_within(x1 as int, K_006 as int, 513);
        lemma_sum_within(x2 as int, K_006 as int, 513);
    }
    let f0 = sum_exec(x0, K_006);
    let f1 = sum_exec(x1, K_006);
    let f2 = sum_exec(x2, K_006);
    proof {
        lemma_sum_within(f0 as int, K_004 as int, 514);
        lemma_sum_within(f1 as int, K_001 as int, 514);
        lemma_diff_within(f2 as int, K_003 as int, 514);
    }
    (
        clamp_unit_exec(sum_exec(f0, K_004)),
        clamp_unit_exec(sum_exec(f1, K_001)),
        clamp_unit_exec(diff_exec(f2, K_003)),
    )
}

fn cool_exec(r: i128, g: i128, b: i128) -> (res: (i128, i128, i128))
    requires
        0 <= r <= one(),
        0 <= g <= one(),
        0 <= b <= one(),
    ensures
        (res.0 as int, res.1 as int, res.2 as int) == cool(r as int, g as int, b as int),
        0 <= res.0 <= one(),
        0 <= res.1 <= one(),
        0 <= res.2 <= one(),
{
    let lum = luminance_exec(r, g, b);
    let a = adjust_saturation_exec(r, g, b, K_115);
    let shift = small_prod(lum, K_003);
    proof {
        lemma_diff_within(a.1 as int, K_002 as int, 513);
    }
    (
        tint_exec(a.0, K_008, false, shift, true),
        clamp_unit_exec(diff_exec(a.1, K_002)),
        tint_exec(a.2, K_010, true, shift, false),
    )
}

fn peach_exec(r: i128, g: i128, b: i128) -> (res: (i128, i128, i128))
    requires
        0 <= r <= one(),
        0 <= g <= one(),
        0 <= b <= one(),
    ensures
        (res.0 as int, res.1 as int, res.2 as int) == peach(r as int, g as int, b as int),
        0 <= res.0 <= one(),
        0 <= res.1 <= one(),
        0 <= res.2 <= one(),
{
    let lum = luminance_exec(r, g, b);
    let r1 = scale_shift_unit(r, K_106, K_002);
    let g1 = scale_shift_unit(g, K_101, K_001);
    proof {
        lemma_prod_within(b as int, K_093 as int, 1, 1);
    }
    let b1 = clamp_unit_exec(prod_exec(b, K_093));
    let pr = small_prod(lum, K_003);
    let pg = small_prod(lum, K_001);
    let pb = small_prod(lum, K_004);
    proof {
        lemma_sum_within(r1 as int, pr as int, 5);
        lemma_sum_within(g1 as int, pg as int, 5);
        lemma_diff_within(b1 as int, pb as int, 5);
    }
    (
        clamp_unit_exec(sum_exec(r1, pr)),
        clamp_unit_exec(sum_exec(g1, pg)),
        clamp_unit_exec(diff_exec(b1, pb)),
    )
}

fn transform_exec(p: &Preset, r: i128, g: i128, b: i128) -> (res: (i128, i128, i128))
    requires
        0 <= r <= one(),
        0 <= g <= one(),
        0 <= b <= one(),
    ensures
        (res.0 as int, res.1 as int, res.2 as int) == transform(*p, r as int, g as int, b as int),
        0 <= res.0 <= one(),
        0 <= res.1 <= one(),
        0 <= res.2 <= one(),
{
    match p {
        Preset::Natural => natural_exec(r, g, b),
        Preset::Pop => pop_exec(r, g, b),
        Preset::Soft => soft_exec(r, g, b),
        Preset::Film => film_exec(r, g, b),
        Preset::Vintage => vintage_exec(r, g, b),
        Preset::Cool => cool_exec(r, g, b),
        Preset::Peach => peach_exec(r, g, b),
        Preset::Identity => (r, g, b),
    }
}

fn grid_level_exec(k: usize) -> (res: i128)
    requires
        k <= 16,
    ensures
        res == grid_level(k as int),
        0 <= res <= one(),
{
    proof {
        lemma_quot_within(k * one(), 16 * one(), 1);
    }
    quot_exec(k as i128 * ONE, 16 * ONE)
}

fn lut_byte_exec(v: i128) -> (res: u8)
    requires
        0 <= v <= one(),
    ensures
        res == to_u8(sum(prod(v as int, 255 * one()), HALF as int)),
{
    proof {
        lemma_prod_within(v as int, 255 * one(), 1, 255);
    }
    let a = prod_exec(v, 255 * ONE);
    proof {
        lemma_sum_within(a as int, HALF as int, 256);
    }
    to_u8_exec(sum_exec(a, HALF))
}

pub(crate) proof fn lemma_lut_index(ri: int, gi: int, bi: int, ch: int)
    requires
        0 <= ri < 17,
        0 <= gi < 17,
        0 <= bi < 17,
        0 <= ch < 3,
    ensures
        ({
            let j = ((ri * 17 + gi) * 17 + bi) * 3 + ch;
            &&& 0 <= j < 3 * LUT_SIZE
            &&& j / 3 / 289 == ri
            &&& (j / 3 / 17) % 17 == gi
            &&& (j / 3) % 17 == bi
            &&& j % 3 == ch
        }),
{
    let m = (ri * 17 + gi) * 17 + bi;
    let j = m * 3 + ch;
    lemma_fundamental_div_mod_converse(j, 3, m, ch);
    lemma_fundamental_div_mod_converse(m, 17, ri * 17 + gi, bi);
    lemma_fundamental_div_mod_converse(ri * 17 + gi, 17, ri, gi);
    lemma_fundamental_div_mod_converse(m, 289, ri, gi * 17 + bi);
}

/// Builds the table of a preset.
pub fn build_lut(p: &Preset) -> (lut: Vec<u8>)
    ensures
        lut@ == lut_table(*p),
{
    let mut lut: Vec<u8> = Vec::new();
    let mut ri: usize = 0;
    while ri < LUT_DIM
        invariant
            0 <= ri <= 17,
            lut@.len() == ri * 17 * 17 * 3,
            forall|j: int| 0 <= j < lut@.len() ==> #[trigger] lut@[j] == lut_table(*p)[j],
        decreases 17 - ri,
    {
        let r = grid_level_exec(ri);
        let mut gi: usize = 0;
        while gi < LUT_DIM
            invariant
                0 <= ri < 17,
                0 <= gi <= 17,
                r == grid_level(ri as int),
                0 <= r <= one(),
                lut@.len() == (ri * 17 + gi) * 17 * 3,
                forall|j: int| 0 <= j < lut@.len() ==> #[trigger] lut@[j] == lut_table(*p)[j],
            decreases 17 - gi,
        {
            let g = grid_level_exec(gi);
            let mut bi: usize = 0;
            while bi < LUT_DIM
                invariant
                    0 <= ri < 17,
                    0 <= gi < 17,
                    0 <= bi <= 17,
                    r == grid_level(ri as int),
                    g == grid_level(gi as int),
                    0 <= r <= one(),
                    0 <= g <= one(),
                    lut@.len() == ((ri * 17 + gi) * 17 + bi) * 3,
                    forall|j: int| 0 <= j < lut@.len() ==> #[trigger] lut@[j] == lut_table(*p)[j],
                decreases 17 - bi,
            {
                let b = grid_level_exec(bi);
                let c = transform_exec(p, r, g, b);
                let ghost start = lut@.len();
                lut.push(lut_byte_exec(c.0));
                lut.push(lut_byte_exec(c.1));
                lut.push(lut_byte_exec(c.2));
                proof {
                    lemma_lut_index(ri as int, gi as int, bi as int, 0);
                    lemma_lut_index(ri as int, gi as int, bi as int, 1);
                    lemma_lut_index(ri as int, gi as int, bi as int, 2);
                    assert forall|j: int| 0 <= j < lut@.len() implies #[trigger] lut@[j]
                        == lut_table(*p)[j] by {
                        if j >= start {
                            assert(j == start + (j - start));
                        }
                    }
                }
                bi = bi + 1;
            }
            gi = gi + 1;
        }
        ri = ri + 1;
    }
    assert(lut@ =~= lut_table(*p));
    lut
}

/// The preset for a name: `"natural"`, `"pop"`, `"soft"`, `"film"`,
/// `"vintage"`, `"cool"`, `"peach"`; anything else is the identity.
pub fn preset_from_name(name: &str) -> (p: Preset)
    ensures
        p == preset_named(name@),
{
    if str_equals(name, "natural") {
        Preset::Natural
    } else if str_equals(name, "pop") {
        Preset::Pop
    } else if str_equals(name, "soft") {
        Preset::Soft
    } else if str_equals(name, "film") {
        Preset::Film
    } else if str_equals(name, "vintage") {
        Preset::Vintage
    } else if str_equals(name, "cool") {
        Preset::Cool
    } else if str_equals(name, "peach") {
        Preset::Peach
    } else {
        Preset::Identity
    }
}

/// The table of the preset named `name` (the identity table for unknown names).
pub fn get_lut(preset: &str) -> (lut: Vec<u8>)
    ensures
        lut@ == lut_table(preset_named(preset@)),
{
    let p = preset_from_name(preset);
    build_lut(&p)
}


// ---------------------------------------------------------------------------
// Trilinear grading of pixels.

/// Position of a byte level on a table axis: the lower grid index, the upper
/// grid index and the fraction between them.  The level is `v / 255.0`,
/// scaled by 16.0 and clamped to `0.0 ..= 16.0`.
pub open spec fn axis(v: u8) -> (int, int, int) {
    let x = clamp(prod(quot(from_u8(v), 255 * one()), 16 * one()), 0, 16 * one());
    let i0 = x / one();
    (i0, if i0 + 1 <= 16 { i0 + 1 } else { 16 }, diff(x, i0 * one()))
}

/// Offset of byte `ch` of grid point `(ri, gi, bi)` in a table.
pub open spec fn lut_index(ri: int, gi: int, bi: int, ch: int) -> int {
    ((ri * 17 + gi) * 17 + bi) * 3 + ch
}

pub open spec fn sample(lut: Seq<u8>, ri: int, gi: int, bi: int, ch: int) -> int {
    from_u8(lut[lut_index(ri, gi, bi, ch)])
}

/// `a + f (b - a)`.
pub open spec fn lerp(a: int, b: int, f: int) -> int {
    sum(a, prod(f, diff(b, a)))
}

/// Channel `ch` of the colour `(r, g, b)` graded through `lut`: trilinear
/// interpolation along R, then G, then B, clamped to `0.0 ..= 255.0` and
/// truncated.
#[verifier::opaque]
pub open spec fn trilinear(lut: Seq<u8>, r: u8, g: u8, b: u8, ch: int) -> u8 {
    let ra = axis(r);
    let ga = axis(g);
    let ba = axis(b);
    let r_lo = lerp(sample(lut, ra.0, ga.0, ba.0, ch), sample(lut, ra.1, ga.0, ba.0, ch), ra.2);
    let r_hi = lerp(sample(lut, ra.0, ga.1, ba.0, ch), sample(lut, ra.1, ga.1, ba.0, ch), ra.2);
    let rr_lo = lerp(r_lo, r_hi, ga.2);
    let r_lo2 = lerp(sample(lut, ra.0, ga.0, ba.1, ch), sample(lut, ra.1, ga.0, ba.1, ch), ra.2);
    let r_hi2 = lerp(sample(lut, ra.0, ga.1, ba.1, ch), sample(lut, ra.1, ga.1, ba.1, ch), ra.2);
    let rr_hi = lerp(r_lo2, r_hi2, ga.2);
    to_u8(clamp(lerp(rr_lo, rr_hi, ba.2), 0, 255 * one()))
}

/// The graded colour of a pixel.
pub open spec fn lut_pixel(lut: Seq<u8>, r: u8, g: u8, b: u8) -> (u8, u8, u8) {
    (trilinear(lut, r, g, b, 0), trilinear(lut, r, g, b, 1), trilinear(lut, r, g, b, 2))
}

fn axis_exec(v: u8) -> (res: (usize, usize, i128))
    ensures
        (res.0 as int, res.1 as int, res.2 as int) == axis(v),
        res.0 <= 16,
        res.1 <= 16,
        0 <= res.2 <= one(),
{
    let lv = from_u8_exec(v);
    proof {
        lemma_quot_within(lv as int, 255 * one(), 1);
    }
    let t = quot_exec(lv, 255 * ONE);
    proof {
        lemma_prod_within(t as int, 16 * one(), 1, 16);
    }
    let y = prod_exec(t, 16 * ONE);
    let x: i128 = if y < 0 {
        0
    } else if y > 16 * ONE {
        16 * ONE
    } else {
        y
    };
    let i0 = x / ONE;
    proof {
        assert(0 <= i0 <= 16);
        assert(0 <= x - i0 * one() < one());
        lemma_diff_within(x as int, i0 * one(), 1);
    }
    let f = diff_exec(x, i0 * ONE);
    let i1: i128 = if i0 + 1 <= 16 {
        i0 + 1
    } else {
        16
    };
    (i0 as usize, i1 as usize, f)
}

fn lerp_exec(a: i128, b: i128, f: i128, Ghost(c): Ghost<int>) -> (res: i128)
    requires
        0 <= c <= 2295,
        -c * one() <= a <= c * one(),
        -c * one() <= b <= c * one(),
        0 <= f <= one(),
    ensures
        res == lerp(a as int, b as int, f as int),
        -(3 * c) * one() <= res <= (3 * c) * one(),
{
    proof {
        lemma_diff_within(b as int, a as int, 2 * c);
    }
    let d = diff_exec(b, a);
    proof {
        lemma_prod_within(f as int, d as int, 1, 2 * c);
    }
    let m = prod_exec(f, d);
    proof {
        lemma_sum_within(a as int, m as int, 3 * c);
    }
    sum_exec(a, m)
}

fn sample_exec(lut: &[u8], ri: usize, gi: usize, bi: usize, ch: usize) -> (res: i128)
    requires
        lut@.len() >= 3 * LUT_SIZE,
        ri <= 16,
        gi <= 16,
        bi <= 16,
        ch < 3,
    ensures
        res == sample(lut@, ri as int, gi as int, bi as int, ch as int),
        0 <= res <= 255 * one(),
{
    from_u8_exec(lut[((ri * 17 + gi) * 17 + bi) * 3 + ch])
}

fn trilinear_exec(
    lut: &[u8],
    r: u8,
    g: u8,
    b: u8,
    ra: (usize, usize, i128),
    ga: (usize, usize, i128),
    ba: (usize, usize, i128),
    ch: usize,
) -> (res: u8)
    requires
        lut@.len() >= 3 * LUT_SIZE,
        (ra.0 as int, ra.1 as int, ra.2 as int) == axis(r),
        (ga.0 as int, ga.1 as int, ga.2 as int) == axis(g),
        (ba.0 as int, ba.1 as int, ba.2 as int) == axis(b),
        ra.0 <= 16 && ra.1 <= 16 && 0 <= ra.2 <= one(),
        ga.0 <= 16 && ga.1 <= 16 && 0 <= ga.2 <= one(),
        ba.0 <= 16 && ba.1 <= 16 && 0 <= ba.2 <= one(),
        ch < 3,
    ensures
        res == trilinear(lut@, r, g, b, ch as int),
{
    reveal(trilinear);
    let c000 = sample_exec(lut, ra.0, ga.0, ba.0, ch);
    let c100 = sample_exec(lut, ra.1, ga.0, ba.0, ch);
    let c010 = sample_exec(lut, ra.0, ga.1, ba.0, ch);
    let c110 = sample_exec(lut, ra.1, ga.1, ba.0, ch);
    let c001 = sample_exec(lut, ra.0, ga.0, ba.1, ch);
    let c101 = sample_exec(lut, ra.1, ga.0, ba.1, ch);
    let c011 = sample_exec(lut, ra.0, ga.1, ba.1, ch);
    let c111 = sample_exec(lut, ra.1, ga.1, ba.1, ch);
    let r_lo = lerp_exec(c000, c100, ra.2, Ghost(255));
    let r_hi = lerp_exec(c010, c110, ra.2, Ghost(255));
    let r_lo2 = lerp_exec(c001, c101, ra.2, Ghost(255));
    let r_hi2 = lerp_exec(c011, c111, ra.2, Ghost(255));
    let rr_lo = lerp_exec(r_lo, r_hi, ga.2, Ghost(765));
    let rr_hi = lerp_exec(r_lo2, r_hi2, ga.2, Ghost(765));
    let v = lerp_exec(rr_lo, rr_hi, ba.2, Ghost(2295));
    let cl: i128 = if v < 0 {
        0
    } else if v > 255 * ONE {
        255 * ONE
    } else {
        v
    };
    to_u8_exec(cl)
}

fn lut_pixel_exec(lut: &[u8], r: u8, g: u8, b: u8) -> (res: (u8, u8, u8))
    requires
        lut@.len() >= 3 * LUT_SIZE,
    ensures
        res == lut_pixel(lut@, r, g, b),
{
    let ra = axis_exec(r);
    let ga = axis_exec(g);
    let ba = axis_exec(b);
    (
        trilinear_exec(lut, r, g, b, ra, ga, ba, 0),
        trilinear_exec(lut, r, g, b, ra, ga, ba, 1),
        trilinear_exec(lut, r, g, b, ra, ga, ba, 2),
    )
}

/// The grading of a pixel through `lut`, as a function.
pub open spec fn grading(lut: Seq<u8>) -> spec_fn(u8, u8, u8) -> (u8, u8, u8) {
    |r: u8, g: u8, b: u8| lut_pixel(lut, r, g, b)
}

/// Grades the colour channels of every whole pixel through `lut` by trilinear
/// interpolation; alpha and any trailing partial pixel are kept.
pub fn apply_lut_cpu(pixels: &[u8], lut: &[u8]) -> (out: Vec<u8>)
    requires
        lut@.len() >= 3 * LUT_SIZE,
    ensures
        out@ == recolor(pixels@, grading(lut@)),
        same_alpha(pixels@, out@),
{
    let ghost s = pixels@;
    let ghost target = recolor(s, grading(lut@));
    let mut out = slice_to_vec(pixels);
    let len = pixels.len();
    let n = len / 4;
    let mut k: usize = 0;
    while k < n
        invariant
            s == pixels@,
            len == s.len(),
            target == recolor(s, grading(lut@)),
            lut@.len() >= 3 * LUT_SIZE,
            n == s.len() / 4,
            4 * n <= s.len(),
            out@.len() == s.len(),
            0 <= k <= n,
            forall|j: int|
                0 <= j < s.len() ==> #[trigger] out@[j] == if j < 4 * k {
                    target[j]
                } else {
                    s[j]
                },
        decreases n - k,
    {
        proof {
            assert(4 * k + 4 <= s.len());
        }
        let i = 4 * k;
        let c = lut_pixel_exec(lut, pixels[i], pixels[i + 1], pixels[i + 2]);
        out.set(i, c.0);
        out.set(i + 1, c.1);
        out.set(i + 2, c.2);
        proof {
            assert forall|j: int| 0 <= j < s.len() implies #[trigger] out@[j] == if j < 4 * (k
                + 1) {
                target[j]
            } else {
                s[j]
            } by {
                if 4 * k <= j < 4 * k + 4 {
                    assert(j - j % 4 == 4 * k);
                }
            }
        }
        k = k + 1;
    }
    proof {
        assert forall|j: int| 0 <= j < s.len() implies #[trigger] out@[j] == target[j] by {
            if j >= 4 * n {
                assert(j - j % 4 >= 4 * n);
            }
        }
    }
    assert(out@ =~= target);
    proof {
        assert forall|k: int| 0 <= k < s.len() / 4 implies #[trigger] s[4 * k + 3] == out@[4 * k
            + 3] by {
            assert((4 * k + 3) % 4 == 3);
        }
    }
    out
}

/// The table needed to grade with the preset named `preset`; `None` for
/// `"none"`, which leaves pixels as they are.
pub fn lut_for_preset(preset: &str) -> (res: Option<Vec<u8>>)
    ensures
        preset@ == "none"@ ==> res is None,
        preset@ != "none"@ ==> (res matches Some(lut) && lut@ == lut_table(preset_named(preset@))),
{
    if str_equals(preset, "none") {
        None
    } else {
        Some(get_lut(preset))
    }
}

/// The graded buffer: the GPU's output when there is one, else the CPU
/// trilinear grading of `pixels` through `lut`.
pub fn finish_grading(pixels: &[u8], lut: &[u8], gpu: Option<Vec<u8>>) -> (out: Vec<u8>)
    requires
        lut@.len() >= 3 * LUT_SIZE,
    ensures
        gpu matches Some(v) ==> out@ == v@,
        gpu is None ==> out@ == recolor(pixels@, grading(lut@)),
{
    match gpu {
        Some(v) => v,
        None => apply_lut_cpu(pixels, lut),
    }
}

/// Grades `pixels` with the preset named `preset` on the CPU: `"none"` gives
/// an unchanged copy.
pub fn apply_lut3d_cpu(pixels: &[u8], preset: &str) -> (out: Vec<u8>)
    ensures
        preset@ == "none"@ ==> out@ == pixels@,
        preset@ != "none"@ ==> out@ == recolor(pixels@, grading(lut_table(preset_named(preset@)))),
        same_alpha(pixels@, out@),
        out@.len() == pixels@.len(),
        preset@ != "natural"@ && preset@ != "pop"@ && preset@ != "soft"@ && preset@ != "film"@
            && preset@ != "vintage"@ && preset@ != "cool"@ && preset@ != "peach"@ ==> forall|k: int|
            0 <= k < pixels@.len() ==> -1 <= #[trigger] out@[k] - pixels@[k] <= 1,
{
    let out = match lut_for_preset(preset) {
        None => slice_to_vec(pixels),
        Some(lut) => apply_lut_cpu(pixels, lut.as_slice()),
    };
    proof {
        lemma_identity_grading_keeps_buffer(pixels@);
    }
    out
}

/// The table as RGBA texels for a 3D texture: each grid point's three bytes
/// followed by an opaque alpha of 255.
pub fn lut_texels(lut: &[u8]) -> (tex: Vec<u8>)
    requires
        lut@.len() >= 3 * LUT_SIZE,
    ensures
        tex@.len() == 4 * LUT_SIZE,
        forall|i: int, c: int|
            0 <= i < LUT_SIZE && 0 <= c < 3 ==> #[trigger] tex@[4 * i + c] == lut@[3 * i + c],
        forall|i: int| 0 <= i < LUT_SIZE ==> #[trigger] tex@[4 * i + 3] == 255,
{
    let mut tex: Vec<u8> = Vec::new();
    let mut i: usize = 0;
    while i < LUT_SIZE
        invariant
            0 <= i <= LUT_SIZE,
            lut@.len() >= 3 * LUT_SIZE,
            tex@.len() == 4 * i,
            forall|k: int, c: int|
                0 <= k < i && 0 <= c < 3 ==> #[trigger] tex@[4 * k + c] == lut@[3 * k + c],
            forall|k: int| 0 <= k < i ==> #[trigger] tex@[4 * k + 3] == 255,
        decreases LUT_SIZE - i,
    {
        tex.push(lut[3 * i]);
        tex.push(lut[3 * i + 1]);
        tex.push(lut[3 * i + 2]);
        tex.push(255);
        proof {
            assert forall|k: int, c: int| 0 <= k < i + 1 && 0 <= c < 3 implies #[trigger] tex@[4
                * k + c] == lut@[3 * k + c] by {
                if k == i {
                    assert(4 * k + c == 4 * i + c);
                }
            }
        }
        i = i + 1;
    }
    tex
}

} // verus!
