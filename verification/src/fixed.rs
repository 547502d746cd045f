//! Fixed-point scalar arithmetic.
//!
//! A scalar is an `i64` holding a real value times [`SCALE`]. The spec
//! functions [`tdiv`] (truncating division), [`fdiv`] (floor division),
//! [`cdiv`] (ceiling division) and [`isqrt`] (integer square root) are the
//! mathematical vocabulary every contract in the crate is written in.

use vstd::prelude::*;
use vstd::arithmetic::div_mod::{
    lemma_div_is_ordered, lemma_div_nonincreasing, lemma_div_pos_is_pos,
    lemma_fundamental_div_mod, lemma_fundamental_div_mod_converse,
};

verus! {

/// Every geometric or color quantity in this crate is a real value times `SCALE`.
pub const SCALE: i64 = 65536;

/// Magnitude of an integer.
pub open spec fn absi(a: int) -> int {
    if a >= 0 {
        a
    } else {
        -a
    }
}

/// Truncating division (rounds toward zero); total, 0 when `b == 0`.
pub open spec fn tdiv(a: int, b: int) -> int {
    if b == 0 {
        0
    } else {
        let aa = if b < 0 { -a } else { a };
        let bb = if b < 0 { -b } else { b };
        if aa >= 0 {
            aa / bb
        } else {
            -((-aa) / bb)
        }
    }
}

/// Floor division; total, 0 when `b == 0`. For `b > 0` this is the
/// mathematical floor of the exact quotient.
pub open spec fn fdiv(a: int, b: int) -> int {
    if b == 0 {
        0
    } else if b < 0 {
        (-a) / (-b)
    } else {
        a / b
    }
}

/// Ceiling division; total, 0 when `b == 0`.
pub open spec fn cdiv(a: int, b: int) -> int {
    -fdiv(-a, b)
}

/// Integer square root: the greatest `r >= 0` with `r * r <= n` (0 for `n < 1`).
pub open spec fn isqrt(n: int) -> int
    decreases n,
{
    if n < 1 {
        0
    } else {
        let r = isqrt(n - 1);
        if (r + 1) * (r + 1) <= n {
            r + 1
        } else {
            r
        }
    }
}

/// The truncating quotient lies between 0 and the numerator.
pub proof fn lemma_tdiv_bounds(a: int, b: int)
    requires
        b > 0,
    ensures
        a >= 0 ==> 0 <= tdiv(a, b) <= a,
        a <= 0 ==> a <= tdiv(a, b) <= 0,
{
    if a >= 0 {
        lemma_div_pos_is_pos(a, b);
        lemma_div_nonincreasing(a, b);
    } else {
        lemma_div_pos_is_pos(-a, b);
        lemma_div_nonincreasing(-a, b);
    }
}

/// Truncating division is monotone in the numerator (for a positive divisor).
pub proof fn lemma_tdiv_ordered(a1: int, a2: int, b: int)
    requires
        b > 0,
        a1 <= a2,
    ensures
        tdiv(a1, b) <= tdiv(a2, b),
{
    if a1 >= 0 {
        lemma_div_is_ordered(a1, a2, b);
    } else if a2 < 0 {
        lemma_div_is_ordered(-a2, -a1, b);
    } else {
        lemma_div_pos_is_pos(-a1, b);
        lemma_div_pos_is_pos(a2, b);
    }
}

/// Floor division is monotone in the numerator (for a positive divisor).
pub proof fn lemma_fdiv_ordered(a1: int, a2: int, b: int)
    requires
        b > 0,
        a1 <= a2,
    ensures
        fdiv(a1, b) <= fdiv(a2, b),
{
    lemma_div_is_ordered(a1, a2, b);
}

/// Ceiling division is monotone in the numerator (for a positive divisor).
pub proof fn lemma_cdiv_ordered(a1: int, a2: int, b: int)
    requires
        b > 0,
        a1 <= a2,
    ensures
        cdiv(a1, b) <= cdiv(a2, b),
{
    lemma_div_is_ordered(-a2, -a1, b);
}

/// For a positive divisor, the floor quotient brackets the exact quotient:
/// `b * fdiv(a, b) <= a < b * (fdiv(a, b) + 1)`.
pub proof fn lemma_fdiv_bracket(a: int, b: int)
    requires
        b > 0,
    ensures
        b * fdiv(a, b) <= a,
        a < b * (fdiv(a, b) + 1),
{
    lemma_fundamental_div_mod(a, b);
    assert(b * (fdiv(a, b) + 1) == b * fdiv(a, b) + b) by (nonlinear_arith);
}

/// The floor quotient lies between the numerator and 0 (or 0 and the
/// numerator, for a non-negative numerator).
pub proof fn lemma_fdiv_range(a: int, b: int)
    requires
        b > 0,
    ensures
        a >= 0 ==> 0 <= fdiv(a, b) <= a,
        a < 0 ==> a <= fdiv(a, b) <= -1,
{
    if a >= 0 {
        lemma_div_pos_is_pos(a, b);
        lemma_div_nonincreasing(a, b);
    } else {
        lemma_fdiv_bracket(a, b);
        let q = fdiv(a, b);
        assert(b * q <= a < 0 ==> q < 0) by (nonlinear_arith)
            requires b > 0;
        assert(q + 1 <= 0 ==> b * (q + 1) <= q + 1) by (nonlinear_arith)
            requires b > 0;
        if q <= a - 1 {
            assert(false);
        }
    }
}

/// Helper relating truncating and floor division for a positive divisor:
/// they agree except on inexact negative quotients, where floor is one less.
pub proof fn lemma_tdiv_fdiv(a: int, b: int)
    requires
        b > 0,
    ensures
        a >= 0 ==> tdiv(a, b) == fdiv(a, b),
        a < 0 && (-a) % b == 0 ==> tdiv(a, b) == fdiv(a, b),
        a < 0 && (-a) % b != 0 ==> fdiv(a, b) == tdiv(a, b) - 1,
{
    if a < 0 {
        let m = -a;
        lemma_fundamental_div_mod(m, b);
        let q = m / b;
        let r = m % b;
        if r == 0 {
            assert(a == (-q) * b + 0) by (nonlinear_arith)
                requires m == b * q, a == -m;
            lemma_fundamental_div_mod_converse(a, b, -q, 0);
        } else {
            assert(a == (-q - 1) * b + (b - r)) by (nonlinear_arith)
                requires m == b * q + r, a == -m;
            lemma_fundamental_div_mod_converse(a, b, -q - 1, b - r);
        }
    }
}

/// `isqrt(n)` is the floor of the real square root.
pub proof fn lemma_isqrt_bounds(n: int)
    requires
        n >= 0,
    ensures
        isqrt(n) >= 0,
        isqrt(n) * isqrt(n) <= n,
        n < (isqrt(n) + 1) * (isqrt(n) + 1),
    decreases n,
{
    if n >= 1 {
        lemma_isqrt_bounds(n - 1);
        let r = isqrt(n - 1);
        if (r + 1) * (r + 1) <= n {
            assert(n < (r + 2) * (r + 2)) by (nonlinear_arith)
                requires n - 1 < (r + 1) * (r + 1), r >= 0;
        }
    }
}

/// Any `r` with `r * r <= n < (r + 1) * (r + 1)` is `isqrt(n)`.
pub proof fn lemma_isqrt_unique(n: int, r: int)
    requires
        n >= 0,
        r >= 0,
        r * r <= n,
        n < (r + 1) * (r + 1),
    ensures
        r == isqrt(n),
{
    lemma_isqrt_bounds(n);
    let s = isqrt(n);
    if r < s {
        assert((r + 1) * (r + 1) <= s * s) by (nonlinear_arith)
            requires 0 <= r, r + 1 <= s;
        assert(false);
    }
    if s < r {
        assert((s + 1) * (s + 1) <= r * r) by (nonlinear_arith)
            requires 0 <= s, s + 1 <= r;
        assert(false);
    }
}

/// `isqrt` is monotone.
pub proof fn lemma_isqrt_ordered(n1: int, n2: int)
    requires
        0 <= n1 <= n2,
    ensures
        isqrt(n1) <= isqrt(n2),
{
    lemma_isqrt_bounds(n1);
    lemma_isqrt_bounds(n2);
    if isqrt(n2) < isqrt(n1) {
        assert((isqrt(n2) + 1) * (isqrt(n2) + 1) <= isqrt(n1) * isqrt(n1)) by (nonlinear_arith)
            requires 0 <= isqrt(n2), isqrt(n2) + 1 <= isqrt(n1);
        assert(false);
    }
}

/// Fixed-point product: the real product of two scaled values, rescaled.
pub open spec fn fmul(a: int, b: int) -> int {
    tdiv(a * b, SCALE as int)
}

/// Fixed-point quotient: the real quotient of two scaled values, rescaled.
pub open spec fn fxdiv(a: int, b: int) -> int {
    tdiv(a * (SCALE as int), b)
}

/// The magnitude of a truncating quotient is the quotient of the magnitude.
pub proof fn lemma_tdiv_mag(a: int, b: int)
    requires
        b > 0,
    ensures
        absi(tdiv(a, b)) == absi(a) / b,
        absi(tdiv(a, b)) <= absi(a),
{
    lemma_div_pos_is_pos(absi(a), b);
    lemma_div_nonincreasing(absi(a), b);
}

/// A magnitude bound on the numerator gives one on the truncating quotient.
pub proof fn lemma_mag_div_le(x: int, m: int, b: int)
    requires
        b > 0,
        absi(x) <= m,
    ensures
        absi(tdiv(x, b)) <= m / b,
        absi(tdiv(x, b)) <= m,
{
    lemma_tdiv_mag(x, b);
    lemma_div_is_ordered(absi(x), m, b);
    lemma_div_nonincreasing(m, b);
}

/// The magnitude of a product is bounded by the product of magnitude bounds.
pub proof fn lemma_abs_mul_le(a: int, b: int, ma: int, mb: int)
    requires
        absi(a) <= ma,
        absi(b) <= mb,
    ensures
        absi(a * b) <= ma * mb,
{
    assert(absi(a * b) <= ma * mb) by (nonlinear_arith)
        requires absi(a) <= ma, absi(b) <= mb;
}

/// A fixed-point product with a factor in `[0, 1]` never exceeds the
/// other (non-negative) factor.
pub proof fn lemma_fmul_le_left(a: int, b: int)
    requires
        0 <= a,
        0 <= b <= SCALE as int,
    ensures
        0 <= fmul(a, b) <= a,
{
    assert(0 <= a * b <= a * (SCALE as int)) by (nonlinear_arith)
        requires 0 <= a, 0 <= b <= SCALE as int;
    lemma_tdiv_bounds(a * b, SCALE as int);
    lemma_div_is_ordered(a * b, a * (SCALE as int), SCALE as int);
    assert((a * (SCALE as int)) / (SCALE as int) == a) by (nonlinear_arith);
}

/// Magnitude bounds on the factors give one on a fixed-point product.
pub proof fn lemma_fmul_bound(a: int, b: int, ma: int, mb: int)
    requires
        absi(a) <= ma,
        absi(b) <= mb,
    ensures
        absi(fmul(a, b)) <= (ma * mb) / (SCALE as int),
        absi(fmul(a, b)) <= ma * mb,
{
    assert(absi(a * b) <= ma * mb) by (nonlinear_arith)
        requires absi(a) <= ma, absi(b) <= mb;
    lemma_mag_div_le(a * b, ma * mb, SCALE as int);
}

/// A value below `b * b` has square root below `b`.
pub proof fn lemma_isqrt_lt(n: int, b: int)
    requires
        0 <= n,
        0 <= b,
        n < b * b,
    ensures
        isqrt(n) < b,
{
    lemma_isqrt_bounds(n);
    if isqrt(n) >= b {
        assert(isqrt(n) * isqrt(n) >= b * b) by (nonlinear_arith)
            requires 0 <= b <= isqrt(n);
        assert(false);
    }
}

/// Truncating division of an `i128` by a positive `i128`.
pub fn div_trunc(a: i128, b: i128) -> (r: i128)
    requires
        b > 0,
        a != i128::MIN,
    ensures
        r == tdiv(a as int, b as int),
{
    if a >= 0 {
        let q = (a as u128) / (b as u128);
        proof {
            lemma_div_pos_is_pos(a as int, b as int);
            lemma_div_nonincreasing(a as int, b as int);
        }
        q as i128
    } else {
        let q = ((-a) as u128) / (b as u128);
        proof {
            lemma_div_pos_is_pos(-(a as int), b as int);
            lemma_div_nonincreasing(-(a as int), b as int);
        }
        -(q as i128)
    }
}

/// Floor division of an `i128` by a positive `i128`.
pub fn div_floor(a: i128, b: i128) -> (r: i128)
    requires
        b > 0,
        a != i128::MIN,
    ensures
        r == fdiv(a as int, b as int),
{
    proof {
        lemma_tdiv_fdiv(a as int, b as int);
        lemma_tdiv_bounds(a as int, b as int);
    }
    if a >= 0 {
        div_trunc(a, b)
    } else {
        let q = div_trunc(a, b);
        let rem = ((-a) as u128) % (b as u128);
        if rem != 0 {
            q - 1
        } else {
            q
        }
    }
}

/// Ceiling division of an `i128` by a positive `i128`.
pub fn div_ceil_big(a: i128, b: i128) -> (r: i128)
    requires
        b > 0,
        i128::MIN < a,
    ensures
        r == cdiv(a as int, b as int),
{
    proof {
        lemma_fdiv_range(-(a as int), b as int);
    }
    let q = div_floor(-a, b);
    -q
}

/// Fixed-point multiplication of two scaled `i64` values.
pub fn fx_mul(a: i64, b: i64) -> (r: i64)
    requires
        absi(a as int) <= 0x80_0000_0000,
        absi(b as int) <= 0x80_0000_0000,
    ensures
        r as int == fmul(a as int, b as int),
        absi(r as int) <= absi(a as int) * absi(b as int),
{
    proof {
        lemma_abs_mul_le(a as int, b as int, 0x80_0000_0000, 0x80_0000_0000);
    }
    let p: i128 = (a as i128) * (b as i128);
    proof {
        lemma_abs_mul_le(a as int, b as int, absi(a as int), absi(b as int));
        lemma_mag_div_le(p as int, 0x4000_0000_0000_0000_0000, SCALE as int);
        lemma_mag_div_le(p as int, absi(a as int) * absi(b as int), SCALE as int);
        assert(0x4000_0000_0000_0000_0000int / 0x10000 == 0x4000_0000_0000_0000int);
    }
    let q = div_trunc(p, SCALE as i128);
    q as i64
}

/// Fixed-point division of a scaled `i64` by a positive scaled `i64`.
pub fn fx_div(a: i64, b: i64) -> (r: i64)
    requires
        b > 0,
        absi(a as int) <= 0x2000_0000_0000,
    ensures
        r as int == fxdiv(a as int, b as int),
        absi(r as int) <= absi(a as int) * (SCALE as int),
{
    proof {
        lemma_abs_mul_le(a as int, SCALE as int, 0x2000_0000_0000, SCALE as int);
    }
    let p: i128 = (a as i128) * (SCALE as i128);
    proof {
        lemma_abs_mul_le(a as int, SCALE as int, absi(a as int), SCALE as int);
        lemma_mag_div_le(p as int, absi(a as int) * (SCALE as int), b as int);
        lemma_mag_div_le(p as int, 0x2000_0000_0000int * 0x10000, b as int);
    }
    let q = div_trunc(p, b as i128);
    q as i64
}

/// Integer square root of a `u128` below `2^126`.
pub fn isqrt_u128(n: u128) -> (r: u128)
    requires
        n < 0x4000_0000_0000_0000_0000_0000_0000_0000u128,
    ensures
        (r as int) * (r as int) <= n as int,
        (n as int) < ((r as int) + 1) * ((r as int) + 1),
        r as int == isqrt(n as int),
        r < 0x8000_0000_0000_0000u128,
{
    let mut lo: u128 = 0;
    let mut hi: u128 = 0x8000_0000_0000_0000u128;
    proof {
        assert((0x8000_0000_0000_0000 as int) * (0x8000_0000_0000_0000 as int)
            == 0x4000_0000_0000_0000_0000_0000_0000_0000 as int) by (nonlinear_arith);
    }
    while lo + 1 < hi
        invariant
            (lo as int) * (lo as int) <= n as int,
            (n as int) < (hi as int) * (hi as int),
            lo < hi,
            hi <= 0x8000_0000_0000_0000u128,
            n < 0x4000_0000_0000_0000_0000_0000_0000_0000u128,
        decreases hi - lo,
    {
        let mid = lo + (hi - lo) / 2;
        assert(lo < mid < hi);
        assert((mid as int) * (mid as int) < 0x8000_0000_0000_0000_0000_0000_0000_0000 as int)
            by (nonlinear_arith)
            requires 0 <= mid as int, mid as int <= 0x8000_0000_0000_0000 as int;
        if mid * mid <= n {
            lo = mid;
        } else {
            hi = mid;
        }
    }
    proof {
        lemma_isqrt_unique(n as int, lo as int);
    }
    lo
}

} // verus!
