//! Alpha compositing of a decorative frame over a photo.
use crate::binary32::{
    byte_prod_exec, diff, diff_exec, from_u8, from_u8_exec, one, prod, quot, quot_exec, sum,
    sum_exec, to_u8, to_u8_exec, lemma_exact, lemma_one_is_pow2, lemma_round_close, lemma_sum_close,
    lemma_to_u8_near, lemma_unit_is_pow2, ONE,
};
use vstd::arithmetic::div_mod::{lemma_div_by_multiple, lemma_div_is_ordered};
use vstd::arithmetic::power2::pow2;
use vstd::prelude::*;
use vstd::slice::slice_to_vec;

verus! {

/// Opacity of a frame pixel: its alpha byte divided by 255.0.
pub open spec fn frame_opacity(a: u8) -> int {
    quot(from_u8(a), from_u8(255))
}

/// One colour channel of a frame pixel `f` with opacity from alpha `a`, laid over
/// the photo channel `p`: `f * opacity + p * (1.0 - opacity)`, truncated to a byte.
pub open spec fn blend_channel(f: u8, p: u8, a: u8) -> u8 {
    let fa = frame_opacity(a);
    to_u8(sum(prod(from_u8(f), fa), prod(from_u8(p), diff(one(), fa))))
}

/// The composite of `frame` over `photo`: where the frame pixel has a positive
/// opacity, its colour is blended over the photo and the alpha becomes 255;
/// elsewhere the photo byte stays.
pub open spec fn composite(photo: Seq<u8>, frame: Seq<u8>) -> Seq<u8> {
    Seq::new(
        photo.len(),
        |i: int|
            {
                let p = i - i % 4;
                if p + 4 <= photo.len() && frame_opacity(frame[p + 3]) > 0 {
                    if i % 4 == 3 {
                        255u8
                    } else {
                        blend_channel(frame[i], photo[i], frame[p + 3])
                    }
                } else {
                    photo[i]
                }
            },
    )
}

fn frame_opacity_exec(a: u8) -> (fa: i128)
    ensures
        fa == frame_opacity(a),
        0 <= fa <= 2 * one(),
{
    let x = from_u8_exec(a);
    let fa = quot_exec(x, 255 * ONE);
    proof {
        let n = x * one();
        assert(n <= (255 * one()) * one()) by (nonlinear_arith)
            requires x <= 255 * one(), x >= 0, n == x * one();
        lemma_div_is_ordered(n, (255 * one()) * one(), 255 * one());
        assert((255 * one()) * one() == one() * (255 * one())) by (nonlinear_arith);
        lemma_div_by_multiple(one(), 255 * one());
        assert(x * one() >= 0) by (nonlinear_arith)
            requires x >= 0;
    }
    fa
}

fn blend_channel_exec(f: u8, p: u8, fa: i128) -> (res: u8)
    requires
        0 <= fa <= 2 * one(),
    ensures
        res == to_u8(sum(prod(from_u8(f), fa as int), prod(from_u8(p), diff(one(), fa as int)))),
{
    let pf = byte_prod_exec(f, fa);
    let pa = diff_exec(ONE, fa);
    let pp = byte_prod_exec(p, pa);
    to_u8_exec(sum_exec(pf, pp))
}

/// Lays `frame` over `photo`, both `width * height` RGBA pixels.
///
/// Pixels whose frame alpha is 0 keep the photo's bytes; all others take the
/// blend of frame and photo colour with alpha 255.
pub fn alpha_composite(photo: &[u8], frame: &[u8], width: u32, height: u32) -> (out: Vec<u8>)
    requires
        width * height * 4 <= u32::MAX,
        photo@.len() == width * height * 4,
        frame@.len() == width * height * 4,
    ensures
        out@ == composite(photo@, frame@),
        forall|k: int|
            0 <= k < width * height && #[trigger] frame@[4 * k + 3] == 0 ==> out@[4 * k]
                == photo@[4 * k] && out@[4 * k + 1] == photo@[4 * k + 1] && out@[4 * k + 2]
                == photo@[4 * k + 2] && out@[4 * k + 3] == photo@[4 * k + 3],
        out@.len() == photo@.len(),
        forall|k: int, c: int|
            0 <= k < width * height && 0 <= c < 3 && frame@[4 * k + 3] > 0 ==> integer_mix(
                frame@[4 * k + c] as int,
                photo@[4 * k + c] as int,
                frame@[4 * k + 3] as int,
            ) - 1 <= #[trigger] out@[4 * k + c] <= integer_mix(
                frame@[4 * k + c] as int,
                photo@[4 * k + c] as int,
                frame@[4 * k + 3] as int,
            ),
        forall|k: int| 0 <= k < width * height && frame@[4 * k + 3] > 0 ==> #[trigger] out@[4 * k + 3] == 255,
{
    proof {
        assert(width * height <= u32::MAX) by (nonlinear_arith)
            requires width * height * 4 <= u32::MAX;
    }
    let len = (width * height * 4) as usize;
    let ghost target = composite(photo@, frame@);
    let mut out = slice_to_vec(photo);
    let n = len / 4;
    let mut k: usize = 0;
    while k < n
        invariant
            len == photo@.len(),
            len == frame@.len(),
            n == len / 4,
            target == composite(photo@, frame@),
            out@.len() == len,
            0 <= k <= n,
            forall|j: int|
                0 <= j < len ==> #[trigger] out@[j] == if j < 4 * k {
                    target[j]
                } else {
                    photo@[j]
                },
        decreases n - k,
    {
        proof {
            assert(4 * k + 4 <= len);
        }
        let i = 4 * k;
        let fa = frame_opacity_exec(frame[i + 3]);
        if fa > 0 {
            let v0 = blend_channel_exec(frame[i], photo[i], fa);
            let v1 = blend_channel_exec(frame[i + 1], photo[i + 1], fa);
            let v2 = blend_channel_exec(frame[i + 2], photo[i + 2], fa);
            out[i] = v0;
            out[i + 1] = v1;
            out[i + 2] = v2;
            out[i + 3] = 255;
        }
        proof {
            assert forall|j: int| 0 <= j < len implies #[trigger] out@[j] == if j < 4 * (k + 1) {
                target[j]
            } else {
                photo@[j]
            } by {
                if 4 * k <= j < 4 * k + 4 {
                    assert(j - j % 4 == 4 * k);
                }
            }
        }
        k = k + 1;
    }
    proof {
        assert(len % 4 == 0);
        assert(out@ =~= target);
        assert forall|k: int|
            0 <= k < width * height && #[trigger] frame@[4 * k + 3] == 0 implies out@[4 * k]
                == photo@[4 * k] && out@[4 * k + 1] == photo@[4 * k + 1] && out@[4 * k + 2]
                == photo@[4 * k + 2] && out@[4 * k + 3] == photo@[4 * k + 3] by {
            lemma_transparent_weight();
            assert((4 * k + 1) % 4 == 1 && (4 * k + 2) % 4 == 2 && (4 * k + 3) % 4 == 3 && (4 * k)
                % 4 == 0);
        }
        lemma_composite_laws(photo@, frame@);
        assert(len / 4 == width * height);
    }
    out
}

/// Each blended colour channel is `(f a + p (255 - a)) / 255` truncated, or one
/// below it; and a frame pixel blends exactly when its alpha is positive.
pub proof fn lemma_blend_channel_near(f: u8, p: u8, a: u8)
    ensures
        frame_opacity(a) > 0 <==> a > 0,
        (f * a + p * (255 - a)) / 255 - 1 <= blend_channel(f, p, a) <= (f * a + p * (255 - a))
            / 255,
{
    let g = one();
    let fa = frame_opacity(a);
    // opacity a / 255
    assert(from_u8(255) == 255 * g);
    assert(0 <= from_u8(a) * g <= g * (255 * g)) by (nonlinear_arith)
        requires from_u8(a) == a * g, 0 <= a <= 255, g > 0;
    lemma_round_close(from_u8(a) * g, (255 * g) as nat, g);
    let ea: int = 0x200_0002;
    assert(g / 0x80_0000 + 2 == ea);
    assert(-(255 * ea) <= 255 * fa - a * g <= 255 * ea) by (nonlinear_arith)
        requires
            -((255 * g) * ea) <= (255 * g) * fa - from_u8(a) * g <= (255 * g) * ea,
            from_u8(a) == a * g,
            g > 0;
    assert(-ea <= fa <= g + ea) by (nonlinear_arith)
        requires -(255 * ea) <= 255 * fa - a * g <= 255 * ea, 0 <= a <= 255, g > 0;
    assert(-g <= fa <= 2 * g);
    if a > 0 {
        assert(fa > 0) by (nonlinear_arith)
            requires -(255 * ea) <= 255 * fa - a * g, a >= 1, g == 0x1_0000_0000_0000, ea == 0x200_0002;
    } else {
        lemma_transparent_weight();
    }
    // 1 - opacity
    let d1 = diff(g, fa);
    lemma_round_close(g - fa, 1, 2 * g);
    let ed: int = 0x400_0002;
    assert((2 * g) / 0x80_0000 + 2 == ed);
    assert(-ed <= d1 - (g - fa) <= ed);
    // the two products
    let pf = prod(from_u8(f), fa);
    assert(-(512 * g) * g <= from_u8(f) * fa <= (512 * g) * g) by (nonlinear_arith)
        requires from_u8(f) == f * g, 0 <= f <= 255, -g <= fa <= 2 * g, g > 0;
    lemma_round_close(from_u8(f) * fa, g as nat, 512 * g);
    let ep: int = 0x4_0000_0002;
    assert((512 * g) / 0x80_0000 + 2 == ep);
    assert(-ep <= pf - f * fa <= ep) by (nonlinear_arith)
        requires -(g * ep) <= g * pf - from_u8(f) * fa <= g * ep, from_u8(f) == f * g, g > 0;
    let pp = prod(from_u8(p), d1);
    assert(-(1024 * g) * g <= from_u8(p) * d1 <= (1024 * g) * g) by (nonlinear_arith)
        requires from_u8(p) == p * g, 0 <= p <= 255, -3 * g <= d1 <= 3 * g, g > 0;
    lemma_round_close(from_u8(p) * d1, g as nat, 1024 * g);
    let eq: int = 0x8_0000_0002;
    assert((1024 * g) / 0x80_0000 + 2 == eq);
    assert(-eq <= pp - p * d1 <= eq) by (nonlinear_arith)
        requires -(g * eq) <= g * pp - from_u8(p) * d1 <= g * eq, from_u8(p) == p * g, g > 0;
    // the sum
    assert(-(256 * g) <= pf <= 256 * g) by (nonlinear_arith)
        requires
            -ep <= pf - f * fa <= ep,
            0 <= f <= 255,
            -ea <= fa <= g + ea,
            g == 0x1_0000_0000_0000,
            ep == 0x4_0000_0002,
            ea == 0x200_0002;
    assert(-ea - ed <= d1 <= g + ea + ed);
    assert(-(256 * g) <= pp <= 256 * g) by (nonlinear_arith)
        requires
            -eq <= pp - p * d1 <= eq,
            0 <= p <= 255,
            -ea - ed <= d1 <= g + ea + ed,
            g == 0x1_0000_0000_0000,
            eq == 0x8_0000_0002,
            ea == 0x200_0002,
            ed == 0x400_0002;
    let x = sum(pf, pp);
    lemma_sum_close(pf, pp);
    let es: int = 0x8_0000_0002;
    let n = f * a + p * (255 - a);
    assert((f - p) * (255 * fa - a * g) == 255 * (f * fa) - 255 * (p * fa) - (f * a) * g + (p
        * a) * g) by (nonlinear_arith);
    assert(255 * p * (d1 - (g - fa)) == 255 * (p * d1) - 255 * p * g + 255 * (p * fa))
        by (nonlinear_arith);
    assert(n * g == (f * a) * g + 255 * p * g - (p * a) * g) by (nonlinear_arith)
        requires n == f * a + p * (255 - a);
    assert(255 * x - n * g == 255 * (x - (pf + pp)) + 255 * (pf - f * fa) + 255 * (pp - p * d1)
        + 255 * p * (d1 - (g - fa)) + (f - p) * (255 * fa - a * g));
    assert(-(255 * 255 * ed) <= 255 * p * (d1 - (g - fa)) <= 255 * 255 * ed) by (nonlinear_arith)
        requires 0 <= p <= 255, -ed <= d1 - (g - fa) <= ed;
    assert(-(255 * 255 * ea) <= (f - p) * (255 * fa - a * g) <= 255 * 255 * ea) by (nonlinear_arith)
        requires -255 <= f - p <= 255, -(255 * ea) <= 255 * fa - a * g <= 255 * ea;
    assert(0 <= n <= 255 * 255) by (nonlinear_arith)
        requires n == f * a + p * (255 - a), 0 <= f <= 255, 0 <= p <= 255, 0 <= a <= 255;
    lemma_to_u8_near(x, n, 255);
}

/// The integer mix `(f a + p (255 - a)) / 255` of a frame byte over a photo byte.
pub open spec fn integer_mix(f: int, p: int, a: int) -> int {
    (f * a + p * (255 - a)) / 255
}

/// Under a frame pixel of positive alpha `a`, each colour byte is the integer
/// mix of frame and photo (or one below) and the alpha becomes 255; under a
/// transparent frame pixel the photo pixel is kept.
pub proof fn lemma_composite_laws(photo: Seq<u8>, frame: Seq<u8>)
    requires
        photo.len() == frame.len(),
    ensures
        composite(photo, frame).len() == photo.len(),
        forall|k: int, c: int|
            0 <= k < photo.len() / 4 && 0 <= c < 3 && frame[4 * k + 3] > 0 ==> integer_mix(
                frame[4 * k + c] as int,
                photo[4 * k + c] as int,
                frame[4 * k + 3] as int,
            ) - 1 <= #[trigger] composite(photo, frame)[4 * k + c] <= integer_mix(
                frame[4 * k + c] as int,
                photo[4 * k + c] as int,
                frame[4 * k + 3] as int,
            ),
        forall|k: int|
            0 <= k < photo.len() / 4 ==> #[trigger] composite(photo, frame)[4 * k + 3] == if frame[4
                * k + 3] > 0 {
                255u8
            } else {
                photo[4 * k + 3]
            },
        forall|k: int, c: int|
            0 <= k < photo.len() / 4 && 0 <= c < 4 && frame[4 * k + 3] == 0 ==> #[trigger] composite(
                photo,
                frame,
            )[4 * k + c] == photo[4 * k + c],
{
    let t = composite(photo, frame);
    assert forall|k: int, c: int|
        0 <= k < photo.len() / 4 && 0 <= c < 3 && frame[4 * k + 3] > 0 implies integer_mix(
        frame[4 * k + c] as int,
        photo[4 * k + c] as int,
        frame[4 * k + 3] as int,
    ) - 1 <= #[trigger] t[4 * k + c] <= integer_mix(
        frame[4 * k + c] as int,
        photo[4 * k + c] as int,
        frame[4 * k + 3] as int,
    ) by {
        lemma_blend_channel_near(frame[4 * k + c], photo[4 * k + c], frame[4 * k + 3]);
        assert((4 * k + c) - (4 * k + c) % 4 == 4 * k && (4 * k + c) % 4 == c);
    }
    assert forall|k: int| 0 <= k < photo.len() / 4 implies #[trigger] t[4 * k + 3] == if frame[4
        * k + 3] > 0 {
        255u8
    } else {
        photo[4 * k + 3]
    } by {
        lemma_blend_channel_near(0, 0, frame[4 * k + 3]);
        assert((4 * k + 3) - (4 * k + 3) % 4 == 4 * k && (4 * k + 3) % 4 == 3);
    }
    assert forall|k: int, c: int|
        0 <= k < photo.len() / 4 && 0 <= c < 4 && frame[4 * k + 3] == 0 implies #[trigger] t[4 * k
        + c] == photo[4 * k + c] by {
        lemma_blend_channel_near(0, 0, frame[4 * k + 3]);
        assert((4 * k + c) - (4 * k + c) % 4 == 4 * k);
    }
}

/// A fully transparent frame pixel has opacity 0.
pub proof fn lemma_transparent_weight()
    ensures
        frame_opacity(0) == 0,
{
    assert(from_u8(0) == 0);
    assert(0 * one() == 0);
    crate::binary32::lemma_round_div_bounds(0, (255 * one()) as nat);
}

/// A fully opaque frame pixel has opacity exactly 1.0.
pub proof fn lemma_opaque_weight()
    ensures
        frame_opacity(255) == one(),
{
    lemma_one_is_pow2();
    assert(from_u8(255) * one() == 1 * pow2(48) * 0xff_0000_0000_0000);
    lemma_exact(1, 48, 0xff_0000_0000_0000);
}

/// Under a fully opaque frame pixel every colour channel is the frame's own.
pub proof fn lemma_opaque_frame_wins(f: u8, p: u8)
    ensures
        blend_channel(f, p, 255) == f,
{
    lemma_opaque_weight();
    lemma_one_is_pow2();
    lemma_unit_is_pow2();
    let fo = from_u8(f);
    // 1.0 - 1.0 == 0
    lemma_exact(0, 0, 1);
    assert(diff(one(), one()) == 0);
    // f * 1.0 == f
    assert(fo * one() == (f as nat) * pow2(48) * one()) by (nonlinear_arith)
        requires fo == f * one(), pow2(48) == one();
    lemma_exact(f as nat, 48, one() as nat);
    assert(prod(fo, one()) == fo);
    // p * 0.0 == 0
    lemma_exact(0, 0, one() as nat);
    assert(from_u8(p) * 0 == 0);
    assert(prod(from_u8(p), 0) == 0);
    // f + 0 == f
    assert(fo == (f as nat) * pow2(48) * 1);
    lemma_exact(f as nat, 48, 1);
    assert(sum(fo, 0) == fo);
    assert(fo / one() == f) by {
        vstd::arithmetic::div_mod::lemma_div_by_multiple(f as int, one());
    }
}

} // verus!
