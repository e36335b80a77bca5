//! Fixed-point scalars: the numeric ground the renderer stands on.
//!
//! A scalar is an `i64` holding `value * SCALE`, so one whole unit is
//! `SCALE`. Division truncates toward zero and square roots round down;
//! both are specified exactly, so every geometric result downstream is an
//! exact function of its inputs.

use vstd::arithmetic::div_mod::{
    lemma_div_is_ordered, lemma_div_multiples_vanish, lemma_div_nonincreasing,
    lemma_div_pos_is_pos, lemma_fundamental_div_mod,
};
use vstd::arithmetic::mul::{lemma_mul_inequality, lemma_mul_strict_inequality};
use vstd::prelude::*;

verus! {

/// One whole unit: the denominator of the fixed-point encoding.
pub const SCALE: i64 = 1_000_000;

/// Largest magnitude accepted by [`fp_mul`]'s operands.
pub const FP_OP_MAX: i64 = 3_000_000_000_000;

/// Absolute value of a mathematical integer.
pub open spec fn abs_val(a: int) -> int {
    if a >= 0 {
        a
    } else {
        -a
    }
}

/// Division truncating toward zero, the rounding the executable code uses.
/// Meaningful for `b > 0`.
pub open spec fn tdiv(a: int, b: int) -> int {
    if a >= 0 {
        a / b
    } else {
        -((-a) / b)
    }
}

/// Floor of the square root, as a recursive definition.
pub open spec fn isqrt_spec(n: int) -> int
    decreases n,
{
    if n <= 0 {
        0
    } else {
        let r = isqrt_spec(n - 1);
        if (r + 1) * (r + 1) <= n {
            r + 1
        } else {
            r
        }
    }
}

/// `isqrt_spec(n)` really is the floor of the square root: it is the unique
/// nonnegative integer whose square is at most `n` while the next square is
/// beyond `n`.
pub proof fn lemma_isqrt_bounds(n: int)
    requires
        n >= 0,
    ensures
        0 <= isqrt_spec(n),
        isqrt_spec(n) * isqrt_spec(n) <= n,
        n < (isqrt_spec(n) + 1) * (isqrt_spec(n) + 1),
    decreases n,
{
    if n == 0 {
    } else {
        lemma_isqrt_bounds(n - 1);
        let r = isqrt_spec(n - 1);
        if (r + 1) * (r + 1) <= n {
            assert(n <= (r + 1) * (r + 1)) by {
                assert(n - 1 < (r + 1) * (r + 1));
            }
            assert((r + 1 + 1) * (r + 1 + 1) > (r + 1) * (r + 1)) by (nonlinear_arith)
                requires r >= 0;
        } else {
        }
    }
}

/// Any integer bracketed like a floor square root equals `isqrt_spec`.
pub proof fn lemma_isqrt_unique(n: int, r: int)
    requires
        n >= 0,
        r >= 0,
        r * r <= n,
        n < (r + 1) * (r + 1),
    ensures
        r == isqrt_spec(n),
{
    lemma_isqrt_bounds(n);
    let s = isqrt_spec(n);
    if r < s {
        assert((r + 1) * (r + 1) <= s * s) by (nonlinear_arith)
            requires 0 <= r, r < s;
    }
    if s < r {
        assert((s + 1) * (s + 1) <= r * r) by (nonlinear_arith)
            requires 0 <= s, s < r;
    }
}

/// The floor square root never grows when its argument shrinks.
pub proof fn lemma_isqrt_monotone(a: int, b: int)
    requires
        0 <= a <= b,
    ensures
        isqrt_spec(a) <= isqrt_spec(b),
{
    lemma_isqrt_bounds(a);
    lemma_isqrt_bounds(b);
    let x = isqrt_spec(a);
    let y = isqrt_spec(b);
    if y < x {
        assert((y + 1) * (y + 1) <= x * x) by (nonlinear_arith)
            requires 0 <= y, y < x;
    }
}

/// Floor square root of a perfect square.
pub proof fn lemma_isqrt_square(a: int)
    requires
        a >= 0,
    ensures
        isqrt_spec(a * a) == a,
{
    assert(a * a < (a + 1) * (a + 1)) by (nonlinear_arith)
        requires a >= 0;
    lemma_isqrt_unique(a * a, a);
}

/// Truncating division of an exact multiple recovers the factor.
pub proof fn lemma_tdiv_multiple(a: int, b: int)
    requires
        b > 0,
    ensures
        tdiv(a * b, b) == a,
{
    if a >= 0 {
        lemma_div_multiples_vanish(a, b);
        assert(a * b == b * a) by (nonlinear_arith);
        assert(a * b >= 0) by (nonlinear_arith)
            requires a >= 0, b > 0;
    } else {
        lemma_div_multiples_vanish(-a, b);
        assert(-(a * b) == b * (-a)) by (nonlinear_arith);
        assert(a * b < 0) by (nonlinear_arith)
            requires a < 0, b > 0;
    }
}

/// Truncating division shrinks magnitudes: the quotient is bounded by any
/// bound on the dividend, already divided.
pub proof fn lemma_tdiv_bound(a: int, b: int, cap: int)
    requires
        b > 0,
        abs_val(a) <= cap,
    ensures
        abs_val(tdiv(a, b)) <= cap / b,
        abs_val(tdiv(a, b)) <= cap,
{
    if a >= 0 {
        lemma_div_is_ordered(a, cap, b);
        lemma_div_pos_is_pos(a, b);
        lemma_div_nonincreasing(cap, b);
    } else {
        lemma_div_is_ordered(-a, cap, b);
        lemma_div_pos_is_pos(-a, b);
        lemma_div_nonincreasing(cap, b);
    }
}

/// Truncating division leaves a remainder smaller than the divisor:
/// `b * tdiv(a, b)` sits within `b` of `a`.
pub proof fn lemma_tdiv_remainder(a: int, b: int)
    requires
        b > 0,
    ensures
        abs_val(a - b * tdiv(a, b)) < b,
{
    if a >= 0 {
        lemma_fundamental_div_mod(a, b);
    } else {
        lemma_fundamental_div_mod(-a, b);
        assert(a - b * (-((-a) / b)) == -((-a) - b * ((-a) / b))) by (nonlinear_arith);
    }
}

/// Truncating division is monotone in the dividend.
pub proof fn lemma_tdiv_monotone(a: int, b: int, d: int)
    requires
        d > 0,
        a <= b,
    ensures
        tdiv(a, d) <= tdiv(b, d),
{
    if a >= 0 {
        lemma_div_is_ordered(a, b, d);
    } else if b < 0 {
        lemma_div_is_ordered(-b, -a, d);
    } else {
        lemma_div_pos_is_pos(b, d);
        lemma_div_pos_is_pos(-a, d);
    }
}

/// Truncating division on machine integers; the divisor must be positive.
pub fn div_trunc(a: i128, b: i128) -> (r: i128)
    requires
        b > 0,
        a != i128::MIN,
    ensures
        r == tdiv(a as int, b as int),
        abs_val(r as int) <= abs_val(a as int),
{
    if a >= 0 {
        let q: u128 = (a as u128) / (b as u128);
        proof {
            lemma_div_nonincreasing(a as int, b as int);
            lemma_div_pos_is_pos(a as int, b as int);
        }
        q as i128
    } else {
        let m: i128 = -a;
        let q: u128 = (m as u128) / (b as u128);
        proof {
            lemma_div_nonincreasing(m as int, b as int);
            lemma_div_pos_is_pos(m as int, b as int);
        }
        -(q as i128)
    }
}

/// Floor square root on machine integers, by bisection.
pub fn isqrt_u128(n: u128) -> (r: u128)
    ensures
        r == isqrt_spec(n as int),
        r * r <= n,
        n < (r + 1) * (r + 1),
{
    let mut lo: u128 = 0;
    let mut hi: u128 = 0x1_0000_0000_0000_0000;
    proof {
        assert((0x1_0000_0000_0000_0000 as int) * (0x1_0000_0000_0000_0000 as int) > u128::MAX as int);
    }
    while hi - lo > 1
        invariant
            0 <= lo < hi <= 0x1_0000_0000_0000_0000,
            lo * lo <= n,
            n < hi * hi,
        decreases hi - lo,
    {
        let mid: u128 = lo + (hi - lo) / 2;
        assert(lo < mid < hi);
        assert(mid * mid <= u128::MAX) by (nonlinear_arith)
            requires 0 < mid < 0x1_0000_0000_0000_0000u128;
        if mid * mid <= n {
            lo = mid;
        } else {
            hi = mid;
        }
    }
    proof {
        lemma_isqrt_unique(n as int, lo as int);
    }
    lo
}

/// Floor square root of a nonnegative `i128`.
pub fn isqrt_i128(n: i128) -> (r: i128)
    requires
        n >= 0,
    ensures
        r == isqrt_spec(n as int),
        0 <= r,
        r * r <= n,
        n < (r + 1) * (r + 1),
{
    let r = isqrt_u128(n as u128);
    proof {
        lemma_isqrt_bounds(n as int);
        if isqrt_spec(n as int) > u64::MAX as int {
            lemma_mul_strict_inequality(u64::MAX as int, isqrt_spec(n as int), isqrt_spec(n as int));
            lemma_mul_inequality(u64::MAX as int, isqrt_spec(n as int), u64::MAX as int);
        }
    }
    r as i128
}

/// Fixed-point product: multiply and scale back down, truncating toward zero.
pub fn fp_mul(a: i64, b: i64) -> (r: i64)
    requires
        abs_val(a as int) <= FP_OP_MAX as int,
        abs_val(b as int) <= FP_OP_MAX as int,
    ensures
        r == tdiv(a * b, SCALE as int),
        abs_val(r as int) <= abs_val(a * b) / (SCALE as int),
{
    proof {
        lemma_mul_bound_abs(a as int, b as int, FP_OP_MAX as int, FP_OP_MAX as int);
        lemma_tdiv_bound(a * b, SCALE as int, (FP_OP_MAX as int) * (FP_OP_MAX as int));
        assert((FP_OP_MAX as int) * (FP_OP_MAX as int) / (SCALE as int) < i64::MAX as int);
        lemma_tdiv_bound(a * b, SCALE as int, abs_val(a * b));
        lemma_div_is_ordered(abs_val(a * b), (FP_OP_MAX as int) * (FP_OP_MAX as int), SCALE as int);
    }
    div_trunc((a as i128) * (b as i128), SCALE as i128) as i64
}

/// A product's magnitude is bounded by the product of its factors' bounds.
pub proof fn lemma_mul_bound_abs(a: int, b: int, ca: int, cb: int)
    requires
        abs_val(a) <= ca,
        abs_val(b) <= cb,
    ensures
        abs_val(a * b) <= ca * cb,
    {
    assert(abs_val(a * b) <= ca * cb) by (nonlinear_arith)
        requires
            abs_val(a) <= ca,
            abs_val(b) <= cb,
    ;
}

/// Clamp a scalar into a closed interval.
pub open spec fn spec_clamp(x: int, lo: int, hi: int) -> int {
    if x < lo {
        lo
    } else if x > hi {
        hi
    } else {
        x
    }
}

/// Executable clamp, exactly [`spec_clamp`].
pub fn clamp_fp(x: i64, lo: i64, hi: i64) -> (r: i64)
    requires
        lo <= hi,
    ensures
        r == spec_clamp(x as int, lo as int, hi as int),
{
    if x < lo {
        lo
    } else if x > hi {
        hi
    } else {
        x
    }
}

} // verus!
