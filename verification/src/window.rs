//! Sliding-window sums over a line of samples with edge replication, and the
//! separable box filter built from them.
use vstd::arithmetic::div_mod::{
    lemma_div_is_ordered, lemma_div_by_multiple, lemma_fundamental_div_mod,
    lemma_fundamental_div_mod_converse, lemma_div_pos_is_pos, lemma_mod_pos_bound,
};
use vstd::prelude::*;

verus! {

/// Index `j` clamped into `0 .. n - 1` (edge replication).
pub open spec fn clamp_index(j: int, n: int) -> int {
    if j < 0 {
        0
    } else if j >= n {
        n - 1
    } else {
        j
    }
}

/// `sum_{lo <= j < hi} s[clamp(j)]`.
pub open spec fn clamped_sum(s: Seq<int>, lo: int, hi: int) -> int
    decreases hi - lo,
{
    if hi <= lo {
        0
    } else {
        clamped_sum(s, lo, hi - 1) + s[clamp_index(hi - 1, s.len() as int)]
    }
}

pub open spec fn min(a: int, b: int) -> int {
    if a <= b {
        a
    } else {
        b
    }
}

/// Copies of the last sample that a window of half-width `r` at position 0 holds
/// beyond the samples `0 ..= min(r, n - 1)`: the replicated right edge when
/// `r >= n`.
pub open spec fn missing_copies(r: int, n: int) -> int {
    r - min(r, n - 1)
}

/// Box average at position `x` of a line, with half-width `r`: the
/// edge-replicated window sum divided (truncating) by the window size `2r + 1`.
pub open spec fn line_box(s: Seq<int>, x: int, r: int) -> int {
    clamped_sum(s, x - r, x + r + 1) / (2 * r + 1)
}

/// Row `y` of a `w`-wide image.
pub open spec fn row_of(img: Seq<int>, w: int, y: int) -> Seq<int> {
    Seq::new(w as nat, |x: int| img[y * w + x])
}

/// Column `x` of a `w`-wide, `h`-high image.
pub open spec fn col_of(img: Seq<int>, w: int, h: int, x: int) -> Seq<int> {
    Seq::new(h as nat, |y: int| img[y * w + x])
}

/// Box average of every row.
pub open spec fn horizontal_pass(img: Seq<int>, w: int, h: int, r: int) -> Seq<int> {
    Seq::new((w * h) as nat, |i: int| line_box(row_of(img, w, i / w), i % w, r))
}

/// Box average of every column.
pub open spec fn vertical_pass(img: Seq<int>, w: int, h: int, r: int) -> Seq<int> {
    Seq::new((w * h) as nat, |i: int| line_box(col_of(img, w, h, i % w), i / w, r))
}

pub open spec fn widen(s: Seq<u8>) -> Seq<int> {
    Seq::new(s.len(), |i: int| s[i] as int)
}

/// Separable box blur of a `w` x `h` single-channel image with half-width `r`
/// (rows first, then columns); the identity when `r == 0`.
pub open spec fn box_blur_values(src: Seq<u8>, w: int, h: int, r: int) -> Seq<int> {
    if r == 0 {
        widen(src)
    } else {
        vertical_pass(horizontal_pass(widen(src), w, h, r), w, h, r)
    }
}

/// The box blur as bytes.
pub open spec fn box_blur(src: Seq<u8>, w: int, h: int, r: int) -> Seq<u8> {
    Seq::new(src.len(), |i: int| box_blur_values(src, w, h, r)[i] as u8)
}

/// All samples of `s` lie in `0 ..= 255`.
pub open spec fn in_byte_range(s: Seq<int>) -> bool {
    forall|i: int| 0 <= i < s.len() ==> 0 <= #[trigger] s[i] <= 255
}

// ---------------------------------------------------------------------------
pub proof fn lemma_clamped_split(s: Seq<int>, lo: int, mid: int, hi: int)
    requires
        lo <= mid <= hi,
    ensures
        clamped_sum(s, lo, hi) == clamped_sum(s, lo, mid) + clamped_sum(s, mid, hi),
    decreases hi - mid,
{
    if hi > mid {
        lemma_clamped_split(s, lo, mid, hi - 1);
    }
}

/// The running-sum update: moving the window one step to the right.
pub proof fn lemma_clamped_slide(s: Seq<int>, lo: int, hi: int)
    requires
        lo <= hi,
    ensures
        clamped_sum(s, lo + 1, hi + 1) == clamped_sum(s, lo, hi) + s[clamp_index(
            hi,
            s.len() as int,
        )] - s[clamp_index(lo, s.len() as int)],
{
    lemma_clamped_split(s, lo, lo + 1, hi + 1);
    lemma_clamped_split(s, lo, hi, hi + 1);
    assert(clamped_sum(s, lo, lo) == 0);
    assert(clamped_sum(s, lo, lo + 1) == s[clamp_index(lo, s.len() as int)]);
}

/// A run of indices that all clamp to the same sample.
pub proof fn lemma_clamped_run(s: Seq<int>, lo: int, hi: int, c: int)
    requires
        lo <= hi,
        forall|j: int| lo <= j < hi ==> clamp_index(j, s.len() as int) == c,
    ensures
        clamped_sum(s, lo, hi) == (hi - lo) * s[c],
    decreases hi - lo,
{
    if hi > lo {
        lemma_clamped_run(s, lo, hi - 1, c);
        assert(clamp_index(hi - 1, s.len() as int) == c);
        assert((hi - 1 - lo) * s[c] + s[c] == (hi - lo) * s[c]) by (nonlinear_arith);
    } else {
        assert((hi - lo) * s[c] == 0) by (nonlinear_arith)
            requires hi == lo;
    }
}

pub proof fn lemma_clamped_bounds(s: Seq<int>, lo: int, hi: int)
    requires
        lo <= hi,
        s.len() >= 1,
        in_byte_range(s),
    ensures
        0 <= clamped_sum(s, lo, hi) <= (hi - lo) * 255,
    decreases hi - lo,
{
    if hi > lo {
        lemma_clamped_bounds(s, lo, hi - 1);
        let j = clamp_index(hi - 1, s.len() as int);
        assert(0 <= s[j] <= 255);
    }
}

/// The running sum's starting value: samples `0 ..= min(r, n-1)`, `r` copies
/// of sample 0 and the missing copies of the last sample make the window at 0.
pub proof fn lemma_window_start(s: Seq<int>, r: int)
    requires
        r >= 0,
        s.len() >= 1,
    ensures
        clamped_sum(s, 0, min(r, s.len() - 1) + 1) + r * s[0] + missing_copies(
            r,
            s.len() as int,
        ) * s[s.len() - 1] == clamped_sum(s, -r, r + 1),
{
    let n = s.len() as int;
    let m = min(r, n - 1);
    lemma_clamped_split(s, -r, 0, r + 1);
    lemma_clamped_split(s, 0, m + 1, r + 1);
    lemma_clamped_run(s, -r, 0, 0);
    assert((0 - (-r)) * s[0] == r * s[0]);
    if m < r {
        lemma_clamped_run(s, m + 1, r + 1, n - 1);
        assert(missing_copies(r, n) == r + 1 - (m + 1));
    } else {
        assert(clamped_sum(s, m + 1, r + 1) == 0);
        assert(missing_copies(r, n) == 0);
        assert(0 * s[n - 1] == 0);
    }
}

/// The running sum stays within a window's worth of bytes.
pub proof fn lemma_window_nonneg(s: Seq<int>, x: int, r: int)
    requires
        r >= 0,
        s.len() >= 1,
        in_byte_range(s),
    ensures
        0 <= clamped_sum(s, x - r, x + r + 1) <= (2 * r + 1) * 255,
{
    lemma_clamped_bounds(s, x - r, x + r + 1);
    assert((x + r + 1 - (x - r)) == 2 * r + 1);
}

/// Box averages of byte samples are bytes.
pub proof fn lemma_line_box_range(s: Seq<int>, x: int, r: int)
    requires
        r >= 0,
        s.len() >= 1,
        0 <= x <= s.len(),
        in_byte_range(s),
    ensures
        0 <= line_box(s, x, r) <= 255,
{
    lemma_window_nonneg(s, x, r);
    let a = clamped_sum(s, x - r, x + r + 1);
    lemma_div_is_ordered(a, (2 * r + 1) * 255, 2 * r + 1);
    assert((2 * r + 1) * 255 == 255 * (2 * r + 1)) by (nonlinear_arith);
    lemma_div_by_multiple(255, 2 * r + 1);
    lemma_div_pos_is_pos(a, 2 * r + 1);
}

/// Grid position `(x, y)` of a `w`-wide image and its linear index.
pub proof fn lemma_grid_index(x: int, y: int, w: int, h: int)
    requires
        0 <= x < w,
        0 <= y < h,
    ensures
        0 <= y * w + x < w * h,
        (y * w + x) / w == y,
        (y * w + x) % w == x,
{
    assert(0 <= y * w + x < w * h) by (nonlinear_arith)
        requires 0 <= x < w, 0 <= y < h;
    lemma_fundamental_div_mod_converse(y * w + x, w, y, x);
}

/// A linear index of a `w` x `h` image splits into its row and column.
pub proof fn lemma_grid_split(i: int, w: int, h: int)
    requires
        0 <= i < w * h,
        w > 0,
    ensures
        0 <= i % w < w,
        0 <= i / w < h,
        i == (i / w) * w + i % w,
{
    lemma_fundamental_div_mod(i, w);
    lemma_mod_pos_bound(i, w);
    lemma_div_pos_is_pos(i, w);
    let q = i / w;
    let m = i % w;
    assert(q < h) by (nonlinear_arith)
        requires i == w * q + m, m >= 0, i < w * h, w > 0;
    assert(w * (i / w) == (i / w) * w) by (nonlinear_arith);
}

/// Every row average of a byte image is a byte.
pub proof fn lemma_horizontal_range(img: Seq<int>, w: int, h: int, r: int)
    requires
        w > 0,
        h > 0,
        r >= 0,
        img.len() == w * h,
        in_byte_range(img),
    ensures
        in_byte_range(horizontal_pass(img, w, h, r)),
        horizontal_pass(img, w, h, r).len() == w * h,
{
    let hp = horizontal_pass(img, w, h, r);
    assert forall|i: int| 0 <= i < hp.len() implies 0 <= #[trigger] hp[i] <= 255 by {
        lemma_grid_split(i, w, h);
        let y = i / w;
        let row = row_of(img, w, y);
        assert forall|x: int| 0 <= x < row.len() implies 0 <= #[trigger] row[x] <= 255 by {
            lemma_grid_index(x, y, w, h);
        }
        lemma_line_box_range(row, i % w, r);
    }
}

/// Every column average of a byte image is a byte.
pub proof fn lemma_vertical_range(img: Seq<int>, w: int, h: int, r: int)
    requires
        w > 0,
        h > 0,
        r >= 0,
        img.len() == w * h,
        in_byte_range(img),
    ensures
        in_byte_range(vertical_pass(img, w, h, r)),
        vertical_pass(img, w, h, r).len() == w * h,
{
    let vp = vertical_pass(img, w, h, r);
    assert forall|i: int| 0 <= i < vp.len() implies 0 <= #[trigger] vp[i] <= 255 by {
        lemma_grid_split(i, w, h);
        let x = i % w;
        let col = col_of(img, w, h, x);
        assert forall|y: int| 0 <= y < col.len() implies 0 <= #[trigger] col[y] <= 255 by {
            lemma_grid_index(x, y, w, h);
        }
        lemma_line_box_range(col, i / w, r);
    }
}

/// A window over a constant line sums to its width times the constant.
proof fn lemma_clamped_const(s: Seq<int>, lo: int, hi: int, v: int)
    requires
        lo <= hi,
        s.len() >= 1,
        forall|i: int| 0 <= i < s.len() ==> #[trigger] s[i] == v,
    ensures
        clamped_sum(s, lo, hi) == (hi - lo) * v,
    decreases hi - lo,
{
    if hi > lo {
        lemma_clamped_const(s, lo, hi - 1, v);
        let j = clamp_index(hi - 1, s.len() as int);
        assert(s[j] == v);
        assert((hi - 1 - lo) * v + v == (hi - lo) * v) by (nonlinear_arith);
    } else {
        assert((hi - lo) * v == 0) by (nonlinear_arith)
            requires hi == lo;
    }
}

/// The box average of a constant line is that constant.
pub proof fn lemma_line_box_const(s: Seq<int>, x: int, r: int, v: int)
    requires
        s.len() >= 1,
        0 <= r,
        forall|i: int| 0 <= i < s.len() ==> #[trigger] s[i] == v,
    ensures
        line_box(s, x, r) == v,
{
    lemma_clamped_const(s, x - r, x + r + 1, v);
    assert((x + r + 1 - (x - r)) * v == v * (2 * r + 1)) by (nonlinear_arith);
    lemma_div_by_multiple_signed(v, 2 * r + 1);
}

proof fn lemma_div_by_multiple_signed(v: int, d: int)
    requires
        d > 0,
    ensures
        (v * d) / d == v,
{
    lemma_fundamental_div_mod_converse(v * d, d, v, 0);
}

/// A uniform image is left unchanged by a box-blur pass of any half-width.
pub proof fn lemma_uniform_blur_invariant(src: Seq<u8>, w: int, h: int, r: int, v: u8)
    requires
        src.len() == w * h,
        0 <= w,
        0 <= h,
        0 <= r,
        forall|i: int| 0 <= i < src.len() ==> #[trigger] src[i] == v,
    ensures
        box_blur(src, w, h, r) == src,
{
    if r > 0 && w > 0 && h > 0 {
        let img = widen(src);
        let hp = horizontal_pass(img, w, h, r);
        assert forall|i: int| 0 <= i < w * h implies #[trigger] hp[i] == v as int by {
            lemma_grid_split(i, w, h);
            let row = row_of(img, w, i / w);
            assert forall|x: int| 0 <= x < row.len() implies #[trigger] row[x] == v as int by {
                lemma_grid_index(x, i / w, w, h);
            }
            lemma_line_box_const(row, i % w, r, v as int);
        }
        let vp = vertical_pass(hp, w, h, r);
        assert forall|i: int| 0 <= i < w * h implies #[trigger] vp[i] == v as int by {
            lemma_grid_split(i, w, h);
            let col = col_of(hp, w, h, i % w);
            assert forall|y: int| 0 <= y < col.len() implies #[trigger] col[y] == v as int by {
                lemma_grid_index(i % w, y, w, h);
            }
            lemma_line_box_const(col, i / w, r, v as int);
        }
    }
    assert(box_blur(src, w, h, r) =~= src);
}

/// Window sums are monotone in the samples.
proof fn lemma_clamped_mono(s: Seq<int>, t: Seq<int>, lo: int, hi: int)
    requires
        s.len() == t.len(),
        s.len() >= 1,
        forall|i: int| 0 <= i < s.len() ==> s[i] <= t[i],
    ensures
        clamped_sum(s, lo, hi) <= clamped_sum(t, lo, hi),
    decreases hi - lo,
{
    if hi > lo {
        lemma_clamped_mono(s, t, lo, hi - 1);
        let j = clamp_index(hi - 1, s.len() as int);
        assert(s[j] <= t[j]);
    }
}

/// Box averages are monotone in the samples.
proof fn lemma_line_box_mono(s: Seq<int>, t: Seq<int>, x: int, r: int)
    requires
        s.len() == t.len(),
        s.len() >= 1,
        r >= 0,
        forall|i: int| 0 <= i < s.len() ==> s[i] <= t[i],
    ensures
        line_box(s, x, r) <= line_box(t, x, r),
{
    lemma_clamped_mono(s, t, x - r, x + r + 1);
    lemma_div_is_ordered(clamped_sum(s, x - r, x + r + 1), clamped_sum(t, x - r, x + r + 1), 2 * r + 1);
}

/// The box blur is monotone in its source image: a brighter source never gives
/// a darker result.
pub proof fn lemma_box_blur_monotone(a: Seq<u8>, b: Seq<u8>, w: int, h: int, r: int)
    requires
        a.len() == w * h,
        b.len() == w * h,
        0 <= w,
        0 <= h,
        0 <= r,
        forall|i: int| 0 <= i < a.len() ==> a[i] <= b[i],
    ensures
        forall|i: int| 0 <= i < a.len() ==> #[trigger] box_blur(a, w, h, r)[i] <= box_blur(b, w, h, r)[i],
{
    if r > 0 && w > 0 && h > 0 {
        let ia = widen(a);
        let ib = widen(b);
        assert forall|i: int| 0 <= i < ia.len() implies 0 <= #[trigger] ia[i] <= 255 by {}
        assert forall|i: int| 0 <= i < ib.len() implies 0 <= #[trigger] ib[i] <= 255 by {}
        let ha = horizontal_pass(ia, w, h, r);
        let hb = horizontal_pass(ib, w, h, r);
        assert forall|i: int| 0 <= i < w * h implies #[trigger] ha[i] <= hb[i] by {
            lemma_grid_split(i, w, h);
            let ra = row_of(ia, w, i / w);
            let rb = row_of(ib, w, i / w);
            assert forall|x: int| 0 <= x < ra.len() implies ra[x] <= rb[x] by {
                lemma_grid_index(x, i / w, w, h);
            }
            lemma_line_box_mono(ra, rb, i % w, r);
        }
        lemma_horizontal_range(ia, w, h, r);
        lemma_horizontal_range(ib, w, h, r);
        let va = vertical_pass(ha, w, h, r);
        let vb = vertical_pass(hb, w, h, r);
        assert forall|i: int| 0 <= i < w * h implies #[trigger] va[i] <= vb[i] by {
            lemma_grid_split(i, w, h);
            let ca = col_of(ha, w, h, i % w);
            let cb = col_of(hb, w, h, i % w);
            assert forall|y: int| 0 <= y < ca.len() implies ca[y] <= cb[y] by {
                lemma_grid_index(i % w, y, w, h);
            }
            lemma_line_box_mono(ca, cb, i / w, r);
        }
        lemma_vertical_range(ha, w, h, r);
        lemma_vertical_range(hb, w, h, r);
        assert forall|i: int| 0 <= i < a.len() implies #[trigger] box_blur(a, w, h, r)[i] <= box_blur(b, w, h, r)[i] by {
            assert(0 <= va[i] <= 255 && 0 <= vb[i] <= 255);
        }
    }
}

} // verus!
