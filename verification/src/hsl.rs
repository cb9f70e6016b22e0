//! Conversion between RGB and HSL (hue, saturation, lightness), all components
//! in `0.0 ..= 1.0`, in the single-precision model of `binary32`.
use crate::binary32::{
    abs, diff, diff_exec, lemma_diff_within, lemma_prod_within, lemma_quot_within,
    lemma_round_signed_mono, lemma_round_signed_within, lemma_sum_within, one, prod, prod_exec,
    quot, quot_exec, sum, sum_exec, ONE,
};
use vstd::prelude::*;

verus! {

/// Machine epsilon of single precision, 2^-23.
pub const EPSILON: i128 = 33554432;

/// 0.5.
pub const HALF: i128 = 140737488355328;

/// `1.0 / 3.0` rounded.
pub const THIRD: i128 = 93824995033088;

/// `1.0 / 6.0` rounded.
pub const SIXTH: i128 = 46912497516544;

/// `2.0 / 3.0` rounded.
pub const TWO_THIRDS: i128 = 187649990066176;

pub open spec fn max(a: int, b: int) -> int {
    if a >= b {
        a
    } else {
        b
    }
}

pub open spec fn min(a: int, b: int) -> int {
    if a <= b {
        a
    } else {
        b
    }
}

/// Hue before the final division by 6: the position of the dominant channel
/// (0 for red, 2 for green, 4 for blue) plus the normalised difference of the
/// other two.
pub open spec fn hue_sixths(r: int, g: int, b: int, mx: int, d: int) -> int {
    if mx == r {
        sum(quot(diff(g, b), d), if g < b { 6 * one() } else { 0 })
    } else if mx == g {
        sum(quot(diff(b, r), d), 2 * one())
    } else {
        sum(quot(diff(r, g), d), 4 * one())
    }
}

/// `(h, s, l)` of an RGB colour.
pub open spec fn hsl_of(r: int, g: int, b: int) -> (int, int, int) {
    let mx = max(max(r, g), b);
    let mn = min(min(r, g), b);
    let l = quot(sum(mx, mn), 2 * one());
    if abs(diff(mx, mn)) < EPSILON {
        (0, 0, l)
    } else {
        let d = diff(mx, mn);
        let s = if l > HALF {
            quot(d, diff(diff(2 * one(), mx), mn))
        } else {
            quot(d, sum(mx, mn))
        };
        (quot(hue_sixths(r, g, b, mx, d), 6 * one()), s, l)
    }
}

/// One channel of an HSL colour, from the helper values `p`, `q` and the
/// channel's hue offset `t0`.
pub open spec fn hue_channel(p: int, q: int, t0: int) -> int {
    let t1 = if t0 < 0 {
        sum(t0, one())
    } else {
        t0
    };
    let t = if t1 > one() {
        diff(t1, one())
    } else {
        t1
    };
    if t < SIXTH {
        sum(p, prod(prod(diff(q, p), 6 * one()), t))
    } else if t < HALF {
        q
    } else if t < TWO_THIRDS {
        sum(p, prod(prod(diff(q, p), diff(TWO_THIRDS as int, t)), 6 * one()))
    } else {
        p
    }
}

/// `(r, g, b)` of an HSL colour with a saturation that is not negligible.
pub open spec fn rgb_of_hsl_parts(h: int, s: int, l: int) -> (int, int, int) {
    let q = if l < HALF {
        prod(l, sum(one(), s))
    } else {
        diff(sum(l, s), prod(l, s))
    };
    let p = diff(prod(2 * one(), l), q);
    (
        hue_channel(p, q, sum(h, THIRD as int)),
        hue_channel(p, q, h),
        hue_channel(p, q, diff(h, THIRD as int)),
    )
}

/// `(r, g, b)` of an HSL colour; grey when the saturation is below epsilon.
pub open spec fn rgb_of_hsl(h: int, s: int, l: int) -> (int, int, int) {
    if abs(s) < EPSILON {
        (l, l, l)
    } else {
        rgb_of_hsl_parts(h, s, l)
    }
}

/// A grey level survives the trip to HSL and back: all three channels come
/// back within 2^-21 of it.
pub proof fn lemma_grey_hsl_round_trip(v: int)
    requires
        0 <= v <= one(),
    ensures
        ({
            let t = hsl_of(v, v, v);
            let c = rgb_of_hsl(t.0, t.1, t.2);
            &&& c.0 == c.1
            &&& c.1 == c.2
            &&& -0x800_0000 <= c.0 - v <= 0x800_0000
        }),
{
    let g = one();
    crate::binary32::lemma_round_div_bounds(0, 1);
    assert(diff(v, v) == 0);
    let s = sum(v, v);
    crate::binary32::lemma_round_close(v + v, 1, 2 * g);
    assert((2 * g) / 0x80_0000 + 2 == 0x400_0002);
    let l = quot(s, 2 * g);
    assert(-(2 * g) * (2 * g) <= s * g <= (2 * g) * (2 * g)) by (nonlinear_arith)
        requires -(3 * g) <= s <= 3 * g, g == 0x1_0000_0000_0000;
    crate::binary32::lemma_round_close(s * g, (2 * g) as nat, 2 * g);
    let e: int = 0x400_0002;
    assert(-((2 * g) * e) <= (2 * g) * l - s * g <= (2 * g) * e);
    assert(-(2 * e) <= 2 * l - s <= 2 * e) by (nonlinear_arith)
        requires -((2 * g) * e) <= (2 * g) * l - s * g <= (2 * g) * e, g > 0;
    assert(hsl_of(v, v, v) == (0int, 0int, l));
}

proof fn lemma_diff_neg(a: int, b: int)
    ensures
        diff(b, a) == -diff(a, b),
{
    if a - b == 0 {
        crate::binary32::lemma_round_div_bounds(0, 1);
    }
}

/// Normalised difference `(x - y) / d` of two channels between `mn` and `mx`.
pub(crate) fn hue_step(x: i128, y: i128, d: i128, Ghost(mx): Ghost<int>, Ghost(mn): Ghost<int>) -> (res: i128)
    requires
        0 <= mn <= x <= mx <= one(),
        0 <= mn <= y <= mx <= one(),
        d == diff(mx, mn),
        d >= 1,
    ensures
        res == quot(diff(x as int, y as int), d as int),
        -one() <= res <= one(),
{
    let n = diff_exec(x, y);
    proof {
        lemma_diff_within(mx, mn, 1);
        lemma_round_signed_mono(x - y, mx - mn, 1);
        lemma_round_signed_mono(mn - mx, x - y, 1);
        lemma_diff_neg(mx, mn);
        assert(-d <= n <= d);
        lemma_quot_within(n as int, d as int, 1);
    }
    quot_exec(n, d)
}

/// Saturation of a colour with extremes `mx >= mn`, lightness `l` and
/// chroma `d = mx - mn` (rounded).
pub(crate) fn saturation(mx: i128, mn: i128, l: i128, d: i128) -> (s: i128)
    requires
        0 <= mn <= mx <= one(),
        d == diff(mx as int, mn as int),
        d >= 1,
    ensures
        s == (if l > HALF {
            quot(d as int, diff(diff(2 * one(), mx as int), mn as int))
        } else {
            quot(d as int, sum(mx as int, mn as int))
        }),
        0 <= s <= one(),
{
    let den = if l > HALF {
        let t = diff_exec(2 * ONE, mx);
        proof {
            lemma_diff_within(2 * one(), mx as int, 2);
            lemma_round_signed_within(2 * one() - mx, 1, 1);
        }
        let den = diff_exec(t, mn);
        proof {
            lemma_round_signed_mono(mx - mn, t - mn, 1);
            lemma_diff_within(t as int, mn as int, 2);
        }
        den
    } else {
        proof {
            lemma_round_signed_mono(mx - mn, mx + mn, 1);
            lemma_sum_within(mx as int, mn as int, 2);
        }
        sum_exec(mx, mn)
    };
    proof {
        lemma_diff_within(mx as int, mn as int, 1);
        lemma_quot_within(d as int, den as int, 1);
    }
    quot_exec(d, den)
}

/// Hue of a colour whose largest channel is `mx`, smallest `mn`, chroma `d`.
fn hue(r: i128, g: i128, b: i128, mx: i128, mn: i128, d: i128) -> (h: i128)
    requires
        0 <= r <= one(),
        0 <= g <= one(),
        0 <= b <= one(),
        mx == max(max(r as int, g as int), b as int),
        mn == min(min(r as int, g as int), b as int),
        d == diff(mx as int, mn as int),
        d >= EPSILON,
    ensures
        h == quot(hue_sixths(r as int, g as int, b as int, mx as int, d as int), 6 * one()),
        -2 * one() <= h <= 2 * one(),
{
    let hh = if mx == r {
        let q = hue_step(g, b, d, Ghost(mx as int), Ghost(mn as int));
        let off: i128 = if g < b {
            6 * ONE
        } else {
            0
        };
        proof {
            lemma_sum_within(q as int, off as int, 8);
        }
        sum_exec(q, off)
    } else if mx == g {
        let q = hue_step(b, r, d, Ghost(mx as int), Ghost(mn as int));
        proof {
            lemma_sum_within(q as int, 2 * one(), 8);
        }
        sum_exec(q, 2 * ONE)
    } else {
        let q = hue_step(r, g, d, Ghost(mx as int), Ghost(mn as int));
        proof {
            lemma_sum_within(q as int, 4 * one(), 8);
        }
        sum_exec(q, 4 * ONE)
    };
    proof {
        lemma_quot_within(hh as int, 6 * one(), 2);
    }
    quot_exec(hh, 6 * ONE)
}

/// Converts RGB to HSL.
pub fn rgb_to_hsl(r: i128, g: i128, b: i128) -> (res: (i128, i128, i128))
    requires
        0 <= r <= one(),
        0 <= g <= one(),
        0 <= b <= one(),
    ensures
        (res.0 as int, res.1 as int, res.2 as int) == hsl_of(r as int, g as int, b as int),
        -2 * one() <= res.0 <= 2 * one(),
        0 <= res.1 <= one(),
        0 <= res.2 <= one(),
{
    let mx0 = if r >= g {
        r
    } else {
        g
    };
    let mx = if mx0 >= b {
        mx0
    } else {
        b
    };
    let mn0 = if r <= g {
        r
    } else {
        g
    };
    let mn = if mn0 <= b {
        mn0
    } else {
        b
    };
    let sm = sum_exec(mx, mn);
    proof {
        lemma_sum_within(mx as int, mn as int, 2);
        lemma_quot_within(sm as int, 2 * one(), 1);
    }
    let l = quot_exec(sm, 2 * ONE);
    let d = diff_exec(mx, mn);
    proof {
        lemma_diff_within(mx as int, mn as int, 1);
    }
    if d < EPSILON {
        return (0, 0, l);
    }
    let s = saturation(mx, mn, l, d);
    let h = hue(r, g, b, mx, mn, d);
    (h, s, l)
}

/// Computes `hue_channel(p, q, t0)`.
fn hue_to_rgb(p: i128, q: i128, t0: i128) -> (res: i128)
    requires
        -4 * one() <= p <= 4 * one(),
        -4 * one() <= q <= 4 * one(),
        -4 * one() <= t0 <= 4 * one(),
    ensures
        res == hue_channel(p as int, q as int, t0 as int),
        -512 * one() <= res <= 512 * one(),
{
    let t1 = if t0 < 0 {
        proof {
            lemma_sum_within(t0 as int, one(), 4);
        }
        sum_exec(t0, ONE)
    } else {
        t0
    };
    let t = if t1 > ONE {
        proof {
            lemma_diff_within(t1 as int, one(), 4);
        }
        diff_exec(t1, ONE)
    } else {
        t1
    };
    proof {
        lemma_diff_within(q as int, p as int, 8);
    }
    if t < SIXTH {
        let qp = diff_exec(q, p);
        proof {
            lemma_prod_within(qp as int, 6 * one(), 8, 6);
        }
        let a = prod_exec(qp, 6 * ONE);
        proof {
            lemma_prod_within(a as int, t as int, 48, 4);
        }
        let b = prod_exec(a, t);
        proof {
            lemma_sum_within(p as int, b as int, 512);
        }
        sum_exec(p, b)
    } else if t < HALF {
        q
    } else if t < TWO_THIRDS {
        let qp = diff_exec(q, p);
        proof {
            lemma_diff_within(TWO_THIRDS as int, t as int, 8);
        }
        let w = diff_exec(TWO_THIRDS, t);
        proof {
            lemma_prod_within(qp as int, w as int, 8, 8);
        }
        let a = prod_exec(qp, w);
        proof {
            lemma_prod_within(a as int, 6 * one(), 64, 6);
        }
        let b = prod_exec(a, 6 * ONE);
        proof {
            lemma_sum_within(p as int, b as int, 512);
        }
        sum_exec(p, b)
    } else {
        p
    }
}

/// Computes `rgb_of_hsl_parts(h, s, l)`.
pub fn hsl_to_rgb_parts(h: i128, s: i128, l: i128) -> (res: (i128, i128, i128))
    requires
        -2 * one() <= h <= 2 * one(),
        0 <= s <= one(),
        0 <= l <= one(),
    ensures
        (res.0 as int, res.1 as int, res.2 as int) == rgb_of_hsl_parts(h as int, s as int, l as int),
        -512 * one() <= res.0 <= 512 * one(),
        -512 * one() <= res.1 <= 512 * one(),
        -512 * one() <= res.2 <= 512 * one(),
{
    let q = if l < HALF {
        proof {
            lemma_sum_within(one(), s as int, 2);
        }
        let x = sum_exec(ONE, s);
        proof {
            lemma_prod_within(l as int, x as int, 1, 2);
        }
        prod_exec(l, x)
    } else {
        proof {
            lemma_sum_within(l as int, s as int, 2);
            lemma_prod_within(l as int, s as int, 1, 1);
        }
        let a = sum_exec(l, s);
        let b = prod_exec(l, s);
        proof {
            lemma_diff_within(a as int, b as int, 3);
        }
        diff_exec(a, b)
    };
    proof {
        lemma_prod_within(2 * one(), l as int, 2, 1);
    }
    let twice_l = prod_exec(2 * ONE, l);
    proof {
        lemma_diff_within(twice_l as int, q as int, 4);
        lemma_sum_within(h as int, THIRD as int, 3);
        lemma_diff_within(h as int, THIRD as int, 3);
    }
    let p = diff_exec(twice_l, q);
    let c0 = hue_to_rgb(p, q, sum_exec(h, THIRD));
    let c1 = hue_to_rgb(p, q, h);
    let c2 = hue_to_rgb(p, q, diff_exec(h, THIRD));
    (c0, c1, c2)
}

/// Converts HSL to RGB.
pub fn hsl_to_rgb(h: i128, s: i128, l: i128) -> (res: (i128, i128, i128))
    requires
        -2 * one() <= h <= 2 * one(),
        0 <= s <= one(),
        0 <= l <= one(),
    ensures
        (res.0 as int, res.1 as int, res.2 as int) == rgb_of_hsl(h as int, s as int, l as int),
        -512 * one() <= res.0 <= 512 * one(),
        -512 * one() <= res.1 <= 512 * one(),
        -512 * one() <= res.2 <= 512 * one(),
{
    if s < EPSILON {
        return (l, l, l);
    }
    hsl_to_rgb_parts(h, s, l)
}

} // verus!
