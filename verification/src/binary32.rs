//! Exact integer model of single-precision (IEEE 754 binary32) arithmetic.
//!
//! The colour filters of this crate are defined by single-precision formulas.
//! Every value that those formulas produce is a finite binary32 number whose
//! magnitude lies between 2^-25 and 2^12, or is zero.  All such numbers are
//! integer multiples of 2^-48, so a value is held here as the integer
//! `v = x * 2^48` (the *grid* representation).
//!
//! Each arithmetic step first forms the exact result (a rational number) and
//! then rounds it to the nearest number with a 24-bit significand, ties to an
//! even significand — the rounding of binary32 arithmetic.  Whether a value
//! stays above 2^-25 is a property of the formulas that use this model; the
//! tests compare those formulas with hardware single precision.
use vstd::arithmetic::div_mod::*;
use vstd::arithmetic::power2::{lemma2_to64, lemma_pow2, lemma_pow2_adds, lemma_pow2_unfold, pow2};
use vstd::prelude::*;

verus! {

/// Number of grid units in 1.0.
pub open spec fn one() -> int {
    0x1_0000_0000_0000
}

/// Grid units in 1.0, for executable code.
pub const ONE: i128 = 0x1_0000_0000_0000;

/// Largest significand plus one: 2^24.
pub open spec fn sig_bound() -> nat {
    0x100_0000
}

/// Spacing, in grid units, of the representable numbers around `n / d`:
/// the least power of two `u` with `floor(n / (d * u)) < 2^24`.
pub open spec fn spacing(n: nat, d: nat) -> nat
    decreases n,
{
    if d == 0 || n < d * sig_bound() {
        1
    } else {
        2 * spacing(n / 2, d)
    }
}

/// `n / d` rounded to the nearest representable number, ties to even.
pub open spec fn round_div(n: nat, d: nat) -> nat {
    let u = spacing(n, d);
    let q = n / (d * u);
    let r = n % (d * u);
    if 2 * r > d * u || (2 * r == d * u && q % 2 == 1) {
        ((q + 1) * u) as nat
    } else {
        (q * u) as nat
    }
}

/// Signed `n / d` (with `d > 0`) rounded to nearest, ties to even.
pub open spec fn round_signed(n: int, d: nat) -> int {
    if n >= 0 {
        round_div(n as nat, d) as int
    } else {
        -(round_div((-n) as nat, d) as int)
    }
}

/// Rounded sum `a + b`.
pub open spec fn sum(a: int, b: int) -> int {
    round_signed(a + b, 1)
}

/// Rounded difference `a - b`.
pub open spec fn diff(a: int, b: int) -> int {
    round_signed(a - b, 1)
}

/// Rounded product `a * b` (both in grid units).
pub open spec fn prod(a: int, b: int) -> int {
    round_signed(a * b, one() as nat)
}

/// Rounded quotient `a / b` (both in grid units, `b > 0`).
pub open spec fn quot(a: int, b: int) -> int {
    round_signed(a * one(), b as nat)
}

/// A byte converted to a number (exact).
pub open spec fn from_u8(x: u8) -> int {
    x as int * one()
}

/// Conversion to a byte as Rust's `as u8` does it: truncation toward zero,
/// saturating at 0 and 255.
pub open spec fn to_u8(v: int) -> u8 {
    if v <= 0 {
        0
    } else if v / one() >= 255 {
        255
    } else {
        (v / one()) as u8
    }
}

pub open spec fn abs(v: int) -> int {
    if v < 0 {
        -v
    } else {
        v
    }
}

/// Largest magnitude accepted by the executable operations: 2^62 grid units (16384.0).
pub open spec fn limit() -> int {
    0x4000_0000_0000_0000
}

// ---------------------------------------------------------------------------
// Facts about rounding.
proof fn lemma_spacing_facts(n: nat, d: nat)
    requires
        d >= 1,
    ensures
        spacing(n, d) >= 1,
        spacing(n, d) == 1 || spacing(n, d) * d * 0x80_0000 <= n,
        n / (d * spacing(n, d)) < sig_bound(),
    decreases n,
{
    if n < d * sig_bound() {
        assert(n / (d * 1) < sig_bound()) by {
            assert(d * 1 == d);
            lemma_div_strict_upper(n, d, sig_bound());
        }
    } else {
        let h = n / 2;
        lemma_spacing_facts(h, d);
        let s = spacing(h, d);
        assert(spacing(n, d) == 2 * s);
        // n / (d * 2s) == (n / 2) / (d * s)
        assert(d * (2 * s) == 2 * (d * s)) by (nonlinear_arith);
        assert(d * s > 0) by (nonlinear_arith)
            requires d >= 1, s >= 1;
        lemma_div_denominator(n as int, 2, (d * s) as int);
        if s == 1 {
            assert(2 * s * d * 0x80_0000 == d * sig_bound()) by (nonlinear_arith)
                requires s == 1;
        } else {
            assert(2 * s * d * 0x80_0000 <= 2 * h) by (nonlinear_arith)
                requires s * d * 0x80_0000 <= h;
        }
    }
}

/// Upper and lower bounds of `round_div`: it is within one spacing of `n / d`,
/// and the spacing is at most `(n / d) / 2^23` (or 1).
pub proof fn lemma_round_div_bounds(n: nat, d: nat)
    requires
        d >= 1,
    ensures
        round_div(n, d) <= n / d + (n / d) / 0x80_0000 + 1,
        round_div(n, d) + (n / d) / 0x80_0000 + 1 >= n / d,
        n == 0 ==> round_div(n, d) == 0,
{
    lemma_spacing_facts(n, d);
    let u = spacing(n, d);
    assert(d * u >= 1) by (nonlinear_arith)
        requires d >= 1, u >= 1;
    let q = n / (d * u);
    let r = n % (d * u);
    lemma_fundamental_div_mod(n as int, (d * u) as int);
    lemma_mod_pos_bound(n as int, (d * u) as int);
    assert(q * u * d <= n) by (nonlinear_arith)
        requires n == (d * u) * q + r, r >= 0, q >= 0;
    lemma_mul_le_div(q * u, d, n);
    assert(n < (q + 1) * u * d) by (nonlinear_arith)
        requires n == (d * u) * q + r, r < d * u;
    lemma_div_strict_upper(n, d, ((q + 1) * u) as nat);
    assert((q + 1) * u == q * u + u) by (nonlinear_arith);
    if u > 1 {
        assert(u * 0x80_0000 * d <= n) by (nonlinear_arith)
            requires u * d * 0x80_0000 <= n;
        lemma_mul_le_div(u * 0x80_0000, d, n);
        lemma_mul_le_div(u, 0x80_0000, n / d);
    }
    if n == 0 {
        assert(u == 1);
        assert(q == 0 && r == 0) by {
            lemma_div_of0((d * u) as int);
            lemma_small_mod(0, d * u);
        }
    }
}

/// The spacing around a value `c * 2^k` (with `c < 2^24`) divides `2^k`.
proof fn lemma_spacing_divides(c: nat, k: nat, d: nat) -> (j: nat)
    requires
        d >= 1,
        c < sig_bound(),
    ensures
        pow2(k) == spacing(c * pow2(k) * d, d) * j,
    decreases k,
{
    let v = c * pow2(k);
    if v * d < d * sig_bound() {
        assert(spacing(v * d, d) == 1);
        assert(pow2(k) == 1 * pow2(k));
        pow2(k)
    } else {
        if k == 0 {
            assert(pow2(0) == 1) by {
                lemma_pow2(0);
                reveal(vstd::arithmetic::power::pow);
            }
            assert(v * d < d * sig_bound()) by (nonlinear_arith)
                requires v == c * 1, c < sig_bound(), d >= 1;
        }
        let k1 = (k - 1) as nat;
        lemma_pow2_unfold(k);
        let w = c * pow2(k1);
        assert(v * d == 2 * (w * d)) by (nonlinear_arith)
            requires v == c * pow2(k), pow2(k) == 2 * pow2(k1), w == c * pow2(k1);
        assert((v * d) / 2 == w * d);
        let j1 = lemma_spacing_divides(c, k1, d);
        assert(pow2(k) == spacing(v * d, d) * j1) by (nonlinear_arith)
            requires
                pow2(k) == 2 * pow2(k1),
                pow2(k1) == spacing(w * d, d) * j1,
                spacing(v * d, d) == 2 * spacing(w * d, d);
        j1
    }
}

/// Representable values are rounded to themselves: `round_div(c * 2^k * d, d) == c * 2^k`
/// when `c < 2^24`.
pub proof fn lemma_exact(c: nat, k: nat, d: nat)
    requires
        d >= 1,
        c < sig_bound(),
    ensures
        round_div(c * pow2(k) * d, d) == c * pow2(k),
{
    let t = pow2(k);
    let n = c * t * d;
    let j = lemma_spacing_divides(c, k, d);
    let u = spacing(n, d);
    lemma_spacing_facts(n, d);
    assert(d * u >= 1) by (nonlinear_arith)
        requires d >= 1, u >= 1;
    assert(n == (d * u) * (c * j) + 0) by (nonlinear_arith)
        requires n == c * t * d, t == u * j;
    lemma_fundamental_div_mod_converse(n as int, (d * u) as int, (c * j) as int, 0);
    assert((c * j) * u == c * t) by (nonlinear_arith)
        requires t == u * j;
}

/// `one()` is 2^48.
pub proof fn lemma_one_is_pow2()
    ensures
        pow2(48) == one(),
{
    lemma2_to64();
    lemma_pow2_adds(16, 32);
}

/// `1 == 2^0`.
pub proof fn lemma_unit_is_pow2()
    ensures
        pow2(0) == 1,
{
    lemma2_to64();
}

/// Larger values have a spacing that is the same or at least twice as large.
proof fn lemma_spacing_mono(n1: nat, n2: nat, d: nat)
    requires
        d >= 1,
        n1 <= n2,
    ensures
        spacing(n1, d) == spacing(n2, d) || 2 * spacing(n1, d) <= spacing(n2, d),
    decreases n2,
{
    if n2 < d * sig_bound() {
    } else if n1 < d * sig_bound() {
        lemma_spacing_facts(n2 / 2, d);
    } else {
        lemma_spacing_mono(n1 / 2, n2 / 2, d);
    }
}

/// Rounding is monotone.
pub proof fn lemma_round_div_mono(n1: nat, n2: nat, d: nat)
    requires
        d >= 1,
        n1 <= n2,
    ensures
        round_div(n1, d) <= round_div(n2, d),
{
    lemma_spacing_facts(n1, d);
    lemma_spacing_facts(n2, d);
    lemma_spacing_mono(n1, n2, d);
    let u1 = spacing(n1, d);
    let u2 = spacing(n2, d);
    assert(d * u1 >= 1 && d * u2 >= 1) by (nonlinear_arith)
        requires d >= 1, u1 >= 1, u2 >= 1;
    let q1 = n1 / (d * u1);
    let r1 = n1 % (d * u1);
    let q2 = n2 / (d * u2);
    let r2 = n2 % (d * u2);
    lemma_fundamental_div_mod(n1 as int, (d * u1) as int);
    lemma_fundamental_div_mod(n2 as int, (d * u2) as int);
    lemma_mod_pos_bound(n1 as int, (d * u1) as int);
    lemma_mod_pos_bound(n2 as int, (d * u2) as int);
    let lo1 = q1 * u1;
    let hi1 = (q1 + 1) * u1;
    let lo2 = q2 * u2;
    assert(lo1 <= hi1) by (nonlinear_arith)
        requires lo1 == q1 * u1, hi1 == (q1 + 1) * u1, u1 >= 1;
    assert(lo2 <= (q2 + 1) * u2) by (nonlinear_arith)
        requires lo2 == q2 * u2, u2 >= 1;
    assert(round_div(n1, d) == lo1 || round_div(n1, d) == hi1);
    assert(round_div(n2, d) == lo2 || round_div(n2, d) == (q2 + 1) * u2);
    if u1 == u2 {
        lemma_div_is_ordered(n1 as int, n2 as int, (d * u1) as int);
        if q1 < q2 {
            assert(hi1 <= lo2) by (nonlinear_arith)
                requires q1 < q2, u1 == u2, u1 >= 1, hi1 == (q1 + 1) * u1, lo2 == q2 * u2;
        } else {
            assert(q1 == q2);
            assert(r1 <= r2) by (nonlinear_arith)
                requires n1 == (d * u1) * q1 + r1, n2 == (d * u2) * q2 + r2, q1 == q2, u1 == u2,
                    n1 <= n2;
        }
    } else {
        // The larger value lies in a higher binade.
        assert(u2 > 1);
        assert(q1 < sig_bound());
        assert(hi1 <= sig_bound() * u1) by (nonlinear_arith)
            requires hi1 == (q1 + 1) * u1, q1 < sig_bound(), u1 >= 1;
        assert(q2 * (d * u2) <= n2 < (q2 + 1) * (d * u2)) by (nonlinear_arith)
            requires n2 == (d * u2) * q2 + r2, 0 <= r2 < d * u2;
        assert(q2 >= 0x80_0000) by (nonlinear_arith)
            requires u2 * d * 0x80_0000 <= n2, n2 < (q2 + 1) * (d * u2), d * u2 >= 1;
        assert(sig_bound() * u1 <= lo2) by (nonlinear_arith)
            requires 2 * u1 <= u2, q2 >= 0x80_0000, lo2 == q2 * u2;
    }
}

/// Signed rounding is monotone.
pub proof fn lemma_round_signed_mono(n1: int, n2: int, d: nat)
    requires
        d >= 1,
        n1 <= n2,
    ensures
        round_signed(n1, d) <= round_signed(n2, d),
{
    if n1 >= 0 {
        lemma_round_div_mono(n1 as nat, n2 as nat, d);
    } else if n2 < 0 {
        lemma_round_div_mono((-n2) as nat, (-n1) as nat, d);
    }
}

/// If the exact result is at most `c` (an integer of magnitude below 2^24),
/// so is the rounded one; likewise for at least `c`.
pub proof fn lemma_round_signed_within(n: int, d: nat, c: int)
    requires
        d >= 1,
        -0x100_0000 < c < 0x100_0000,
    ensures
        n <= c * one() * d ==> round_signed(n, d) <= c * one(),
        n >= c * one() * d ==> round_signed(n, d) >= c * one(),
{
    lemma_one_is_pow2();
    let m = c * one() * d;
    if c >= 0 {
        lemma_exact(c as nat, 48, d);
        assert(round_signed(m, d) == c * one()) by {
            assert(m >= 0) by (nonlinear_arith)
                requires m == c * one() * d, c >= 0, d >= 1;
        }
    } else {
        lemma_exact((-c) as nat, 48, d);
        assert(-m == (-c) * one() * d) by (nonlinear_arith)
            requires m == c * one() * d;
        assert(m < 0) by (nonlinear_arith)
            requires m == c * one() * d, c < 0, d >= 1;
        assert(round_signed(m, d) == c * one());
    }
    if n <= m {
        lemma_round_signed_mono(n, m, d);
    }
    if n >= m {
        lemma_round_signed_mono(m, n, d);
    }
}

/// A rounded sum whose exact value lies within `[-c, c]` stays there.
pub proof fn lemma_sum_within(a: int, b: int, c: int)
    requires
        0 <= c < 0x100_0000,
        -c * one() <= a + b <= c * one(),
    ensures
        -c * one() <= sum(a, b) <= c * one(),
        a + b >= 0 ==> sum(a, b) >= 0,
        a + b <= 0 ==> sum(a, b) <= 0,
{
    lemma_round_signed_within(a + b, 1, c);
    lemma_round_signed_within(a + b, 1, -c);
    lemma_round_signed_within(a + b, 1, 0);
}

/// A rounded difference whose exact value lies within `[-c, c]` stays there.
pub proof fn lemma_diff_within(a: int, b: int, c: int)
    requires
        0 <= c < 0x100_0000,
        -c * one() <= a - b <= c * one(),
    ensures
        -c * one() <= diff(a, b) <= c * one(),
        a - b >= 0 ==> diff(a, b) >= 0,
        a - b <= 0 ==> diff(a, b) <= 0,
{
    lemma_round_signed_within(a - b, 1, c);
    lemma_round_signed_within(a - b, 1, -c);
    lemma_round_signed_within(a - b, 1, 0);
}

/// A rounded product of factors bounded by `ca` and `cb` is bounded by `ca * cb`.
pub proof fn lemma_prod_within(a: int, b: int, ca: int, cb: int)
    requires
        0 <= ca,
        0 <= cb,
        ca * cb < 0x100_0000,
        -ca * one() <= a <= ca * one(),
        -cb * one() <= b <= cb * one(),
    ensures
        -(ca * cb) * one() <= prod(a, b) <= (ca * cb) * one(),
        a * b >= 0 ==> prod(a, b) >= 0,
        a * b <= 0 ==> prod(a, b) <= 0,
{
    let c = ca * cb;
    assert(-c * one() * one() <= a * b <= c * one() * one()) by (nonlinear_arith)
        requires
            c == ca * cb,
            -ca * one() <= a <= ca * one(),
            -cb * one() <= b <= cb * one(),
            ca >= 0,
            cb >= 0;
    lemma_round_signed_within(a * b, one() as nat, c);
    lemma_round_signed_within(a * b, one() as nat, -c);
    lemma_round_signed_within(a * b, one() as nat, 0);
    assert(-c * one() * one() == (-c) * one() * one());
}

/// A rounded quotient `a / b` with `|a| <= c * b` is bounded by `c`.
pub proof fn lemma_quot_within(a: int, b: int, c: int)
    requires
        b >= 1,
        0 <= c < 0x100_0000,
        -c * b <= a <= c * b,
    ensures
        -c * one() <= quot(a, b) <= c * one(),
        a >= 0 ==> quot(a, b) >= 0,
        a <= 0 ==> quot(a, b) <= 0,
{
    assert(-c * one() * b <= a * one() <= c * one() * b) by (nonlinear_arith)
        requires -c * b <= a <= c * b, b >= 1;
    lemma_round_signed_within(a * one(), b as nat, c);
    lemma_round_signed_within(a * one(), b as nat, -c);
    lemma_round_signed_within(a * one(), b as nat, 0);
    assert(a >= 0 ==> a * one() >= 0) by (nonlinear_arith);
    assert(a <= 0 ==> a * one() <= 0) by (nonlinear_arith);
}

proof fn lemma_mul_le_div(a: nat, b: nat, c: nat)
    requires
        b > 0,
        a * b <= c,
    ensures
        a <= c / b,
{
    lemma_div_is_ordered((a * b) as int, c as int, b as int);
    lemma_div_by_multiple(a as int, b as int);
}

proof fn lemma_div_strict_upper(n: nat, d: nat, k: nat)
    requires
        d > 0,
        n < k * d,
    ensures
        n / d < k,
{
    lemma_div_by_multiple_is_strongly_ordered(n as int, (k * d) as int, k as int, d as int);
    lemma_div_by_multiple(k as int, d as int);
}

/// Rounding `n / d` errs by at most `k / 2^23 + 2` when `|n / d| <= k`,
/// stated without division.
pub proof fn lemma_round_close(n: int, d: nat, k: int)
    requires
        d >= 1,
        k >= 0,
        -k * d <= n <= k * d,
    ensures
        -(d * (k / 0x80_0000 + 2)) <= d * round_signed(n, d) - n <= d * (k / 0x80_0000 + 2),
{
    let m: nat = if n >= 0 {
        n as nat
    } else {
        (-n) as nat
    };
    assert((-k) * d == -(k * d)) by (nonlinear_arith);
    assert(m <= k * d);
    lemma_round_div_bounds(m, d);
    let q = m / d;
    let r = round_div(m, d);
    assert(d * q <= m < d * q + d) by {
        vstd::arithmetic::div_mod::lemma_fundamental_div_mod(m as int, d as int);
        vstd::arithmetic::div_mod::lemma_mod_pos_bound(m as int, d as int);
    }
    assert(q <= k) by {
        vstd::arithmetic::div_mod::lemma_div_is_ordered(m as int, k * d, d as int);
        lemma_div_by_multiple(k, d as int);
    }
    assert(q / 0x80_0000 <= k / 0x80_0000) by {
        vstd::arithmetic::div_mod::lemma_div_is_ordered(q as int, k, 0x80_0000);
    }
    let e = k / 0x80_0000 + 1;
    assert(r <= q + e && r + e >= q);
    assert(d * r <= m + d * e) by (nonlinear_arith)
        requires r <= q + e, d * q <= m, d >= 1;
    assert(d * r >= m - d * (e + 1)) by (nonlinear_arith)
        requires r + e >= q, m < d * q + d, d >= 1;
    assert(d * (e + 1) == d * (k / 0x80_0000 + 2));
    assert(d * e <= d * (e + 1)) by (nonlinear_arith)
        requires d >= 1;
    if n < 0 {
        assert(round_signed(n, d) == -(r as int));
        assert(d * round_signed(n, d) == -(d * r)) by (nonlinear_arith)
            requires round_signed(n, d) == -(r as int);
        assert(m == -n);
    } else {
        assert(round_signed(n, d) == r as int);
        assert(m == n);
    }
}

/// A rounded sum of magnitude at most 2^58 errs by at most 2^35 + 2.
pub proof fn lemma_sum_close(a: int, b: int)
    requires
        -0x400_0000_0000_0000 <= a + b <= 0x400_0000_0000_0000,
    ensures
        -0x8_0000_0002 <= sum(a, b) - (a + b) <= 0x8_0000_0002,
{
    lemma_round_close(a + b, 1, 0x400_0000_0000_0000);
}

/// A rounded difference of magnitude at most 2^58 errs by at most 2^35 + 2.
pub proof fn lemma_diff_close(a: int, b: int)
    requires
        -0x400_0000_0000_0000 <= a - b <= 0x400_0000_0000_0000,
    ensures
        -0x8_0000_0002 <= diff(a, b) - (a - b) <= 0x8_0000_0002,
{
    lemma_round_close(a - b, 1, 0x400_0000_0000_0000);
}

/// A rounded product of magnitude at most 2^58 errs by at most 2^35 + 2
/// (stated without division: `a * b` is in squared grid units).
pub proof fn lemma_prod_close(a: int, b: int)
    requires
        -0x400_0000_0000_0000 * one() <= a * b <= 0x400_0000_0000_0000 * one(),
    ensures
        -(one() * 0x8_0000_0002) <= one() * prod(a, b) - a * b <= one() * 0x8_0000_0002,
{
    lemma_round_close(a * b, one() as nat, 0x400_0000_0000_0000);
}

/// A rounded quotient of magnitude at most 2^58 errs by at most 2^35 + 2.
pub proof fn lemma_quot_close(a: int, b: int)
    requires
        b >= 1,
        -0x400_0000_0000_0000 * b <= a * one() <= 0x400_0000_0000_0000 * b,
    ensures
        -(b * 0x8_0000_0002) <= b * quot(a, b) - a * one() <= b * 0x8_0000_0002,
{
    lemma_round_close(a * one(), b as nat, 0x400_0000_0000_0000);
}

/// A value within less than one unit of the fraction `n / den` (stated as
/// `|den * x - n * one()| < one()`) truncates to the byte `n / den` or the one
/// below it.
pub proof fn lemma_to_u8_near(x: int, n: int, den: int)
    requires
        den >= 1,
        0 <= n <= 255 * den,
        -one() < den * x - n * one() < one(),
    ensures
        n / den - 1 <= to_u8(x) <= n / den,
{
    let g = one();
    let q = n / den;
    let m = n % den;
    lemma_fundamental_div_mod(n, den);
    lemma_mod_pos_bound(n, den);
    assert(0 <= q <= 255) by {
        lemma_div_pos_is_pos(n, den);
        lemma_div_is_ordered(n, 255 * den, den);
        lemma_div_by_multiple(255, den);
    }
    assert(x > (q - 1) * g) by (nonlinear_arith)
        requires den * x - n * g > -g, n == den * q + m, m >= 0, den >= 1, g > 0;
    assert(x < (q + 1) * g) by (nonlinear_arith)
        requires den * x - n * g < g, n == den * q + m, m <= den - 1, den >= 1, g > 0;
    if x <= 0 {
    } else if x / g >= 255 {
        assert(x >= 255 * g) by {
            lemma_fundamental_div_mod(x, g);
            lemma_mod_pos_bound(x, g);
        }
    } else {
        lemma_fundamental_div_mod(x, g);
        lemma_mod_pos_bound(x, g);
        assert(q - 1 <= x / g <= q) by (nonlinear_arith)
            requires (q - 1) * g < x < (q + 1) * g, x == g * (x / g) + x % g, 0 <= x % g < g, g > 0;
    }
}

/// A byte times a weight of magnitude at most 1.0, rounded, errs by at most 2^35 + 2.
pub proof fn lemma_byte_prod_close(v: u8, k: int)
    requires
        -one() <= k <= one(),
    ensures
        -0x8_0000_0002 <= prod(from_u8(v), k) - v * k <= 0x8_0000_0002,
{
    let g = one();
    assert(-0x400_0000_0000_0000 * g <= from_u8(v) * k <= 0x400_0000_0000_0000 * g) by (nonlinear_arith)
        requires from_u8(v) == v * g, 0 <= v <= 255, -g <= k <= g, g == 0x1_0000_0000_0000;
    lemma_prod_close(from_u8(v), k);
    let p = prod(from_u8(v), k);
    assert(from_u8(v) * k == g * (v * k)) by (nonlinear_arith)
        requires from_u8(v) == v * g;
    assert(-0x8_0000_0002 <= p - v * k <= 0x8_0000_0002) by (nonlinear_arith)
        requires -(g * 0x8_0000_0002) <= g * p - g * (v * k) <= g * 0x8_0000_0002, g > 0;
}

// ---------------------------------------------------------------------------
// Executable operations.
/// Computes `round_div(n, d)`.
fn round_div_exec(n: u128, d: u128) -> (res: u128)
    requires
        1 <= d <= 0x4000_0000_0000_0000,
        n <= 0x1000_0000_0000_0000_0000_0000_0000_0000,
    ensures
        res == round_div(n as nat, d as nat),
{
    let lim: u128 = d * 0x100_0000;
    let mut m: u128 = n;
    let mut u: u128 = 1;
    while m >= lim
        invariant
            1 <= d <= 0x4000_0000_0000_0000,
            n <= 0x1000_0000_0000_0000_0000_0000_0000_0000,
            lim == d * 0x100_0000,
            u >= 1,
            m == n / u,
            spacing(n as nat, d as nat) == u * spacing(m as nat, d as nat),
            u == 1 || u * d * 0x80_0000 <= n,
        decreases m,
    {
        proof {
            lemma_div_denominator(n as int, u as int, 2);
            assert(u * m <= n) by {
                lemma_fundamental_div_mod(n as int, u as int);
                lemma_mod_pos_bound(n as int, u as int);
            }
            assert(2 * u * d * 0x80_0000 <= n) by (nonlinear_arith)
                requires u * m <= n, m >= d * 0x100_0000, u >= 1;
            assert(u <= 0x40_0000_0000_0000_0000_0000_0000) by (nonlinear_arith)
                requires u == 1 || u * d * 0x80_0000 <= n, d >= 1,
                    n <= 0x1000_0000_0000_0000_0000_0000_0000_0000;
            assert(u * (2 * spacing((m / 2) as nat, d as nat)) == (2 * u) * spacing(
                (m / 2) as nat,
                d as nat,
            )) by (nonlinear_arith);
        }
        m = m / 2;
        u = u * 2;
    }
    proof {
        let sm = spacing(m as nat, d as nat);
        assert(sm == 1);
        assert(u * sm == u) by (nonlinear_arith)
            requires sm == 1;
        assert(spacing(n as nat, d as nat) == u);
        lemma_spacing_facts(n as nat, d as nat);
        if u > 1 {
            assert(d * u <= n) by (nonlinear_arith)
                requires u * d * 0x80_0000 <= n;
        }
        assert(d * u <= 0x4000_0000_0000_0000 || d * u <= n) by (nonlinear_arith)
            requires u == 1 || u * d * 0x80_0000 <= n, 1 <= d <= 0x4000_0000_0000_0000;
    }
    proof {
        assert(d * u >= 1) by (nonlinear_arith)
            requires d >= 1, u >= 1;
    }
    let du = d * u;
    let q = n / du;
    let r = n % du;
    proof {
        lemma_fundamental_div_mod(n as int, du as int);
        lemma_mod_pos_bound(n as int, du as int);
        assert(q * u <= n) by (nonlinear_arith)
            requires n == (d * u) * q + r, r >= 0, q >= 0, d >= 1, u >= 1;
        assert(u <= n || u == 1) by (nonlinear_arith)
            requires u == 1 || u * d * 0x80_0000 <= n, d >= 1;
        assert((q + 1) * u <= 2 * n + 1) by (nonlinear_arith)
            requires q * u <= n, u <= n || u == 1, q >= 0;
    }
    if 2 * r > du || (2 * r == du && q % 2 == 1) {
        (q + 1) * u
    } else {
        q * u
    }
}

/// Computes `round_signed(n, d)`.
fn round_signed_exec(n: i128, d: u128) -> (res: i128)
    requires
        1 <= d <= 0x4000_0000_0000_0000,
        -0x1000_0000_0000_0000_0000_0000_0000_0000 <= n <= 0x1000_0000_0000_0000_0000_0000_0000_0000,
    ensures
        res == round_signed(n as int, d as nat),
        abs(res as int) <= abs(n as int) / (d as int) + abs(n as int) / (d as int) / 0x80_0000 + 1,
        abs(res as int) + abs(n as int) / (d as int) / 0x80_0000 + 1 >= abs(n as int) / (d as int),
        n >= 0 ==> res >= 0,
        n <= 0 ==> res <= 0,
{
    if n >= 0 {
        let r = round_div_exec(n as u128, d);
        proof {
            lemma_round_div_bounds(n as nat, d as nat);
        }
        r as i128
    } else {
        let m: u128 = (-n) as u128;
        let r = round_div_exec(m, d);
        proof {
            lemma_round_div_bounds(m as nat, d as nat);
        }
        -(r as i128)
    }
}

/// Rounded sum of two numbers.
pub fn sum_exec(a: i128, b: i128) -> (res: i128)
    requires
        abs(a as int) <= limit(),
        abs(b as int) <= limit(),
    ensures
        res == sum(a as int, b as int),
        abs(res as int) <= abs(a + b) + abs(a + b) / 0x80_0000 + 1,
        a + b >= 0 ==> res >= 0,
        a + b <= 0 ==> res <= 0,
{
    round_signed_exec(a + b, 1)
}

/// Rounded difference of two numbers.
pub fn diff_exec(a: i128, b: i128) -> (res: i128)
    requires
        abs(a as int) <= limit(),
        abs(b as int) <= limit(),
    ensures
        res == diff(a as int, b as int),
        abs(res as int) <= abs(a - b) + abs(a - b) / 0x80_0000 + 1,
        a - b >= 0 ==> res >= 0,
        a - b <= 0 ==> res <= 0,
{
    round_signed_exec(a - b, 1)
}

/// Rounded product of two numbers.
pub fn prod_exec(a: i128, b: i128) -> (res: i128)
    requires
        abs(a as int) <= limit(),
        abs(b as int) <= limit(),
    ensures
        res == prod(a as int, b as int),
        abs(res as int) <= abs(a * b) / one() + abs(a * b) / one() / 0x80_0000 + 1,
        a * b >= 0 ==> res >= 0,
        a * b <= 0 ==> res <= 0,
{
    proof {
        assert(abs(a as int) * abs(b as int) <= limit() * limit()) by (nonlinear_arith)
            requires abs(a as int) <= limit(), abs(b as int) <= limit(), abs(a as int) >= 0, abs(b as int) >= 0;
        assert(abs(a * b) == abs(a as int) * abs(b as int)) by (nonlinear_arith);
    }
    round_signed_exec(a * b, ONE as u128)
}

/// Rounded quotient of two numbers, the divisor positive.
pub fn quot_exec(a: i128, b: i128) -> (res: i128)
    requires
        abs(a as int) <= limit(),
        1 <= b <= limit(),
    ensures
        res == quot(a as int, b as int),
        abs(res as int) <= abs(a * one()) / (b as int) + abs(a * one()) / (b as int) / 0x80_0000 + 1,
        abs(res as int) + abs(a * one()) / (b as int) / 0x80_0000 + 1 >= abs(a * one()) / (b as int),
        a >= 0 ==> res >= 0,
        a <= 0 ==> res <= 0,
{
    round_signed_exec(a * ONE, b as u128)
}

/// Rounded product of a byte (as a number) and a weight.
pub fn byte_prod_exec(x: u8, w: i128) -> (res: i128)
    requires
        abs(w as int) <= 4 * one(),
    ensures
        res == prod(from_u8(x), w as int),
        abs(res as int) <= 256 * abs(w as int) + 1,
        w >= 0 ==> res >= 0,
        w <= 0 ==> res <= 0,
{
    let a = from_u8_exec(x);
    let res = prod_exec(a, w);
    proof {
        let xw = x as int * abs(w as int);
        if w >= 0 {
            assert(a * w == xw * one()) by (nonlinear_arith)
                requires a == x as int * one(), xw == x as int * w;
        } else {
            assert(-(a * w) == xw * one()) by (nonlinear_arith)
                requires a == x as int * one(), xw == x as int * (-w);
        }
        lemma_div_by_multiple(xw, one());
        assert(xw <= 255 * abs(w as int)) by (nonlinear_arith)
            requires xw == x as int * abs(w as int), x <= 255;
        assert(a * w >= 0 <==> w >= 0 || x == 0) by (nonlinear_arith)
            requires a == x as int * one();
        if x == 0 {
            assert(a * w == 0) by (nonlinear_arith)
                requires a == 0;
        }
    }
    res
}

/// A byte as a number.
pub fn from_u8_exec(x: u8) -> (res: i128)
    ensures
        res == from_u8(x),
        0 <= res <= 255 * one(),
{
    x as i128 * ONE
}

/// Converts a number to a byte as `as u8` does.
pub fn to_u8_exec(v: i128) -> (res: u8)
    ensures
        res == to_u8(v as int),
{
    if v <= 0 {
        0
    } else {
        let q = v / ONE;
        if q >= 255 {
            255
        } else {
            q as u8
        }
    }
}

} // verus!
