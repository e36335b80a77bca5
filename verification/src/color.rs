//! Linear-space colors and the 8-bit output codec.
//!
//! A channel is a fixed-point scalar in `[0, SCALE]`, `SCALE` meaning full
//! intensity. Encoding to the 8-bit pixel format rounds `c * 255 / SCALE` to
//! nearest; decoding rounds back, and the round trip is proved to stay within
//! one 8-bit step of the original channel.

use crate::fixed::{
    clamp_fp, isqrt_i128, isqrt_spec, lemma_isqrt_bounds, lemma_isqrt_monotone,
    lemma_isqrt_square, spec_clamp, tdiv, SCALE,
};
use vstd::arithmetic::div_mod::{
    lemma_div_is_ordered, lemma_div_multiples_vanish_fancy, lemma_fundamental_div_mod,
    lemma_hoist_over_denominator,
};
use vstd::prelude::*;

verus! {

/// How far a decoded channel may sit from the one that was encoded: one
/// 8-bit step, `SCALE / 255` rounded up.
pub const RGB8_STEP: i64 = 3922;

/// A linear-space color; each channel is a fixed-point scalar.
#[derive(Clone, Copy, Debug, PartialEq, Eq, Structural)]
pub struct LinearColor {
    pub r: i64,
    pub g: i64,
    pub b: i64,
}

impl LinearColor {
    /// Channels lie in `[0, SCALE]`: linear intensities between none and full.
    pub open spec fn wf(self) -> bool {
        0 <= self.r <= SCALE && 0 <= self.g <= SCALE && 0 <= self.b <= SCALE
    }

    /// Pure black: every bounce budget that runs out ends here.
    pub fn black() -> (c: LinearColor)
        ensures
            c == spec_black(),
            c.wf(),
    {
        LinearColor { r: 0, g: 0, b: 0 }
    }

    /// Full white, the horizon end of the sky gradient.
    pub fn white() -> (c: LinearColor)
        ensures
            c == spec_white(),
            c.wf(),
    {
        LinearColor { r: SCALE, g: SCALE, b: SCALE }
    }

    /// The zenith sky blue, half red, seven-tenths green, full blue.
    pub fn sky_blue() -> (c: LinearColor)
        ensures
            c == spec_sky_blue(),
            c.wf(),
    {
        LinearColor { r: 500_000, g: 700_000, b: SCALE }
    }

    /// Componentwise product, the attenuation of one bounce.
    pub fn mul(self, o: LinearColor) -> (c: LinearColor)
        requires
            self.wf(),
            o.wf(),
        ensures
            c == spec_color_mul(self, o),
            c.wf(),
    {
        proof {
            lemma_channel_mul_wf(self.r as int, o.r as int);
            lemma_channel_mul_wf(self.g as int, o.g as int);
            lemma_channel_mul_wf(self.b as int, o.b as int);
        }
        LinearColor {
            r: ((self.r as u64) * (o.r as u64) / (SCALE as u64)) as i64,
            g: ((self.g as u64) * (o.g as u64) / (SCALE as u64)) as i64,
            b: ((self.b as u64) * (o.b as u64) / (SCALE as u64)) as i64,
        }
    }

    /// Linear interpolation from `self` toward `o` by `a` (in `[0, SCALE]`).
    /// At `a == 0` it returns `self` exactly; at `a == SCALE`, exactly `o`.
    pub fn mix(self, o: LinearColor, a: i64) -> (c: LinearColor)
        requires
            self.wf(),
            o.wf(),
            0 <= a <= SCALE,
        ensures
            c == spec_color_mix(self, o, a as int),
            c.wf(),
            a == 0 ==> c == self,
            a == SCALE ==> c == o,
    {
        proof {
            lemma_channel_mix_wf(self.r as int, o.r as int, a as int);
            lemma_channel_mix_wf(self.g as int, o.g as int, a as int);
            lemma_channel_mix_wf(self.b as int, o.b as int, a as int);
        }
        LinearColor {
            r: mix_channel(self.r, o.r, a),
            g: mix_channel(self.g, o.g, a),
            b: mix_channel(self.b, o.b, a),
        }
    }
}

/// Pure black.
pub open spec fn spec_black() -> LinearColor {
    LinearColor { r: 0, g: 0, b: 0 }
}

/// Full white.
pub open spec fn spec_white() -> LinearColor {
    LinearColor { r: SCALE, g: SCALE, b: SCALE }
}

/// The sky's zenith blue.
pub open spec fn spec_sky_blue() -> LinearColor {
    LinearColor { r: 500_000, g: 700_000, b: SCALE }
}

/// One channel of the componentwise product.
pub open spec fn spec_channel_mul(a: int, b: int) -> int {
    tdiv(a * b, SCALE as int)
}

/// Componentwise product of two colors.
pub open spec fn spec_color_mul(a: LinearColor, b: LinearColor) -> LinearColor {
    LinearColor {
        r: spec_channel_mul(a.r as int, b.r as int) as i64,
        g: spec_channel_mul(a.g as int, b.g as int) as i64,
        b: spec_channel_mul(a.b as int, b.b as int) as i64,
    }
}

/// One channel of the interpolation: `a/SCALE` of the way from `x` to `y`.
pub open spec fn spec_channel_mix(x: int, y: int, a: int) -> int {
    x + tdiv((y - x) * a, SCALE as int)
}

/// Linear interpolation of two colors.
pub open spec fn spec_color_mix(x: LinearColor, y: LinearColor, a: int) -> LinearColor {
    LinearColor {
        r: spec_channel_mix(x.r as int, y.r as int, a) as i64,
        g: spec_channel_mix(x.g as int, y.g as int, a) as i64,
        b: spec_channel_mix(x.b as int, y.b as int, a) as i64,
    }
}

/// The product of two in-range channels stays in range.
proof fn lemma_channel_mul_wf(a: int, b: int)
    requires
        0 <= a <= SCALE,
        0 <= b <= SCALE,
    ensures
        0 <= spec_channel_mul(a, b) <= SCALE,
        spec_channel_mul(a, b) == a * b / (SCALE as int),
{
    assert(0 <= a * b <= (SCALE as int) * (SCALE as int)) by (nonlinear_arith)
        requires 0 <= a <= SCALE, 0 <= b <= SCALE;
    lemma_div_is_ordered(a * b, (SCALE as int) * (SCALE as int), SCALE as int);
    lemma_div_is_ordered(0, a * b, SCALE as int);
    assert((SCALE as int) * (SCALE as int) / (SCALE as int) == SCALE as int) by {
        vstd::arithmetic::div_mod::lemma_div_multiples_vanish(SCALE as int, SCALE as int);
    }
}

/// An interpolated channel stays in range.
proof fn lemma_channel_mix_wf(x: int, y: int, a: int)
    requires
        0 <= x <= SCALE,
        0 <= y <= SCALE,
        0 <= a <= SCALE,
    ensures
        0 <= spec_channel_mix(x, y, a) <= SCALE,
        a == 0 ==> spec_channel_mix(x, y, a) == x,
        a == SCALE ==> spec_channel_mix(x, y, a) == y,
{
    let d = y - x;
    if d >= 0 {
        assert(0 <= d * a <= d * SCALE) by (nonlinear_arith)
            requires d >= 0, 0 <= a <= SCALE;
        lemma_div_is_ordered(d * a, d * (SCALE as int), SCALE as int);
        lemma_div_is_ordered(0, d * a, SCALE as int);
        crate::fixed::lemma_tdiv_multiple(d, SCALE as int);
        assert(d * (SCALE as int) >= 0) by (nonlinear_arith)
            requires d >= 0;
    } else {
        assert(0 <= (-d) * a <= (-d) * SCALE) by (nonlinear_arith)
            requires d < 0, 0 <= a <= SCALE;
        lemma_div_is_ordered((-d) * a, (-d) * (SCALE as int), SCALE as int);
        lemma_div_is_ordered(0, (-d) * a, SCALE as int);
        crate::fixed::lemma_tdiv_multiple(-d, SCALE as int);
        assert((-d) * (SCALE as int) >= 0) by (nonlinear_arith)
            requires d < 0;
        assert(tdiv(d * a, SCALE as int) == -tdiv((-d) * a, SCALE as int)) by {
            assert(d * a == -((-d) * a)) by (nonlinear_arith);
        }
        assert(tdiv(d * (SCALE as int), SCALE as int) == -tdiv((-d) * (SCALE as int), SCALE as int))
            by {
            assert(d * (SCALE as int) == -((-d) * (SCALE as int))) by (nonlinear_arith);
        }
        crate::fixed::lemma_tdiv_multiple(d, SCALE as int);
    }
    if a == SCALE {
        crate::fixed::lemma_tdiv_multiple(d, SCALE as int);
        assert(d * a == d * (SCALE as int));
    }
}

/// One interpolated channel, executable.
fn mix_channel(x: i64, y: i64, a: i64) -> (r: i64)
    requires
        0 <= x <= SCALE,
        0 <= y <= SCALE,
        0 <= a <= SCALE,
    ensures
        r == spec_channel_mix(x as int, y as int, a as int),
{
    proof {
        lemma_channel_mix_wf(x as int, y as int, a as int);
    }
    let d: i64 = y - x;
    let step: i64 = crate::fixed::div_trunc((d as i128) * (a as i128), SCALE as i128) as i64;
    x + step
}

/// Interpolation is exact at its endpoints: none of the way is the first
/// color, all of the way the second.
pub proof fn lemma_color_mix_endpoints(x: LinearColor, y: LinearColor, a: int)
    requires
        x.wf(),
        y.wf(),
        0 <= a <= SCALE,
    ensures
        a == 0 ==> spec_color_mix(x, y, a) == x,
        a == SCALE ==> spec_color_mix(x, y, a) == y,
{
    lemma_channel_mix_wf(x.r as int, y.r as int, a);
    lemma_channel_mix_wf(x.g as int, y.g as int, a);
    lemma_channel_mix_wf(x.b as int, y.b as int, a);
}

/// Attenuation never brightens: each channel of a product is at most the
/// matching channel of either factor.
pub proof fn lemma_color_mul_le(x: LinearColor, y: LinearColor)
    requires
        x.wf(),
        y.wf(),
    ensures
        spec_color_mul(x, y).r <= x.r && spec_color_mul(x, y).r <= y.r,
        spec_color_mul(x, y).g <= x.g && spec_color_mul(x, y).g <= y.g,
        spec_color_mul(x, y).b <= x.b && spec_color_mul(x, y).b <= y.b,
{
    lemma_channel_mul_le(x.r as int, y.r as int);
    lemma_channel_mul_le(x.g as int, y.g as int);
    lemma_channel_mul_le(x.b as int, y.b as int);
}

/// One channel of a product is at most either factor.
proof fn lemma_channel_mul_le(a: int, b: int)
    requires
        0 <= a <= SCALE,
        0 <= b <= SCALE,
    ensures
        spec_channel_mul(a, b) <= a,
        spec_channel_mul(a, b) <= b,
        0 <= spec_channel_mul(a, b),
{
    lemma_channel_mul_wf(a, b);
    assert(a * b <= (SCALE as int) * b && a * b <= a * (SCALE as int)) by (nonlinear_arith)
        requires 0 <= a <= SCALE, 0 <= b <= SCALE;
    lemma_div_is_ordered(a * b, (SCALE as int) * b, SCALE as int);
    vstd::arithmetic::div_mod::lemma_div_multiples_vanish(b, SCALE as int);
    lemma_div_is_ordered(a * b, a * (SCALE as int), SCALE as int);
    assert(a * (SCALE as int) == (SCALE as int) * a) by (nonlinear_arith);
    vstd::arithmetic::div_mod::lemma_div_multiples_vanish(a, SCALE as int);
}

/// Black absorbs whatever it multiplies.
pub proof fn lemma_color_mul_black_left(c: LinearColor)
    ensures
        spec_color_mul(spec_black(), c) == spec_black(),
{
    assert(0 * c.r == 0 && 0 * c.g == 0 && 0 * c.b == 0) by (nonlinear_arith);
    vstd::arithmetic::div_mod::lemma_div_of0(SCALE as int);
}

/// Multiplying by black gives black.
pub proof fn lemma_color_mul_black_right(c: LinearColor)
    ensures
        spec_color_mul(c, spec_black()) == spec_black(),
{
    assert(c.r * 0 == 0 && c.g * 0 == 0 && c.b * 0 == 0) by (nonlinear_arith);
    vstd::arithmetic::div_mod::lemma_div_of0(SCALE as int);
}

/// Encoding of one channel into the 8-bit pixel format: clamp, rescale to
/// `[0, 255]`, round to nearest.
pub open spec fn spec_encode_rgb8(c: int) -> int {
    (255 * spec_clamp(c, 0, SCALE as int) + (SCALE as int) / 2) / (SCALE as int)
}

/// Decoding of one 8-bit channel back to a linear scalar, rounding to
/// nearest.
pub open spec fn spec_decode_rgb8(b: int) -> int {
    (b * (SCALE as int) + 127) / 255
}

/// Executable channel encoder; exactly [`spec_encode_rgb8`].
pub fn encode_rgb8(c: i64) -> (e: u8)
    ensures
        e == spec_encode_rgb8(c as int),
{
    let cc: i64 = clamp_fp(c, 0, SCALE);
    let wide: u64 = 255 * (cc as u64) + 500_000;
    proof {
        lemma_div_is_ordered(wide as int, 255 * (SCALE as int) + 500_000, SCALE as int);
    }
    (wide / (SCALE as u64)) as u8
}

/// Executable channel decoder; exactly [`spec_decode_rgb8`].
pub fn decode_rgb8(b: u8) -> (c: i64)
    ensures
        c == spec_decode_rgb8(b as int),
        0 <= c <= SCALE,
{
    proof {
        assert((b as int) * (SCALE as int) <= 255 * (SCALE as int)) by (nonlinear_arith)
            requires 0 <= (b as int) <= 255;
        assert((b as int) * (SCALE as int) >= 0) by (nonlinear_arith)
            requires 0 <= (b as int);
    }
    let wide: u64 = (b as u64) * (SCALE as u64) + 127;
    proof {
        lemma_div_is_ordered(wide as int, 255 * (SCALE as int) + 127, 255);
    }
    (wide / 255) as i64
}

/// Round trip through the 8-bit format: decoding an encoded in-range channel
/// lands within one 8-bit step of the original value.
pub proof fn lemma_rgb8_round_trip(c: int)
    requires
        0 <= c <= SCALE,
    ensures
        spec_decode_rgb8(spec_encode_rgb8(c)) - c <= RGB8_STEP,
        c - spec_decode_rgb8(spec_encode_rgb8(c)) <= RGB8_STEP,
{
    let s = SCALE as int;
    let e = spec_encode_rgb8(c);
    lemma_fundamental_div_mod(255 * c + s / 2, s);
    let r1 = (255 * c + s / 2) % s;
    assert(s * e == 255 * c + 500_000 - r1);
    let k = 500_000 - r1 + 127;
    assert(e * s + 127 == k + c * 255);
    lemma_hoist_over_denominator(k, c, 255);
    assert(spec_decode_rgb8(e) == k / 255 + c);
    assert(-499_872 <= k <= 500_127);
    lemma_div_is_ordered(k, 500_127, 255);
    lemma_div_is_ordered(-499_872, k, 255);
    assert(500_127int / 255 == 1961);
    assert((-499_872int) / 255 == -1961);
}

/// Gamma encoding of one channel (gamma two): clamp, take the square root of
/// the intensity, rescale to `[0, 255]`, round to nearest.
pub open spec fn spec_gamma_encode_rgb8(c: int) -> int {
    (255 * isqrt_spec(spec_clamp(c, 0, SCALE as int) * (SCALE as int)) + (SCALE as int) / 2) / (
    SCALE as int)
}

/// Gamma decoding of one 8-bit channel: square the encoded intensity.
pub open spec fn spec_gamma_decode_rgb8(b: int) -> int {
    (b * b * (SCALE as int) + 32_512) / 65_025
}

/// Executable gamma encoder; exactly [`spec_gamma_encode_rgb8`].
pub fn gamma_encode_rgb8(c: i64) -> (e: u8)
    ensures
        e == spec_gamma_encode_rgb8(c as int),
{
    let cc: i64 = clamp_fp(c, 0, SCALE);
    let root: i128 = isqrt_i128((cc as i128) * (SCALE as i128));
    proof {
        lemma_isqrt_bounds(cc * SCALE);
        lemma_isqrt_square(SCALE as int);
        crate::fixed::lemma_isqrt_monotone(cc * SCALE, (SCALE as int) * (SCALE as int));
        assert(cc * SCALE <= (SCALE as int) * (SCALE as int)) by (nonlinear_arith)
            requires 0 <= cc <= SCALE;
        lemma_div_is_ordered(
            255 * (root as int) + 500_000,
            255 * (SCALE as int) + 500_000,
            SCALE as int,
        );
    }
    let wide: u64 = 255 * (root as u64) + 500_000;
    (wide / (SCALE as u64)) as u8
}

/// Executable gamma decoder; exactly [`spec_gamma_decode_rgb8`].
pub fn gamma_decode_rgb8(b: u8) -> (c: i64)
    ensures
        c == spec_gamma_decode_rgb8(b as int),
        0 <= c <= SCALE,
{
    proof {
        assert((b as int) * (b as int) <= 65_025) by (nonlinear_arith)
            requires 0 <= b <= 255;
        assert((b as int) * (b as int) >= 0) by (nonlinear_arith);
    }
    let bb: u64 = (b as u64) * (b as u64);
    proof {
        assert((bb as int) * (SCALE as int) <= 65_025 * (SCALE as int)) by (nonlinear_arith)
            requires 0 <= (bb as int) <= 65_025;
        assert((bb as int) * (SCALE as int) >= 0) by (nonlinear_arith)
            requires 0 <= (bb as int);
    }
    let wide: u64 = bb * (SCALE as u64) + 32_512;
    proof {
        lemma_div_is_ordered(wide as int, 65_025 * (SCALE as int) + 32_512, 65_025);
        lemma_div_is_ordered(0, wide as int, 65_025);
    }
    (wide / 65_025) as i64
}

/// Round trip through the gamma-encoded 8-bit format: decoding an encoded
/// in-range channel lands within one 8-bit step of the original value. The
/// error splits into the square-root's rounding, the encoder's rounding and
/// the decoder's rounding; near full scale the encoder is exact (the byte is
/// 255), which is what keeps the total inside one step.
pub proof fn lemma_gamma_rgb8_round_trip(c: int)
    requires
        0 <= c <= SCALE,
    ensures
        spec_gamma_decode_rgb8(spec_gamma_encode_rgb8(c)) - c <= RGB8_STEP,
        c - spec_gamma_decode_rgb8(spec_gamma_encode_rgb8(c)) <= RGB8_STEP,
{
    let s = SCALE as int;
    assert(c * s >= 0) by (nonlinear_arith)
        requires c >= 0, s > 0;
    assert(c * s <= s * s) by (nonlinear_arith)
        requires 0 <= c <= s;
    let x = isqrt_spec(c * s);
    lemma_isqrt_bounds(c * s);
    lemma_isqrt_square(s);
    lemma_isqrt_monotone(c * s, s * s);
    assert(0 <= x <= s);
    let rho = c * s - x * x;
    assert(rho <= 2 * x) by (nonlinear_arith)
        requires c * s < (x + 1) * (x + 1), rho == c * s - x * x;

    let e = spec_gamma_encode_rgb8(c);
    assert(e == (255 * x + 500_000) / s);
    lemma_fundamental_div_mod(255 * x + 500_000, s);
    let r1 = (255 * x + 500_000) % s;
    let delta = 500_000 - r1;
    assert(e * s == 255 * x + delta) by (nonlinear_arith)
        requires 255 * x + 500_000 == s * e + r1, delta == 500_000 - r1;
    assert(-500_000 < delta <= 500_000);

    let d = spec_gamma_decode_rgb8(e);
    lemma_fundamental_div_mod(e * e * s + 32_512, 65_025);
    let r2 = (e * e * s + 32_512) % 65_025;
    assert(0 <= r2 < 65_025);
    let err = delta * (510 * x + delta) - 65_025 * rho + 32_512 * s - r2 * s;
    assert(65_025 * d == e * e * s + 32_512 - r2);
    assert(65_025 * (d * s) == e * e * s * s + 32_512 * s - r2 * s) by (nonlinear_arith)
        requires 65_025 * d == e * e * s + 32_512 - r2;
    assert(e * e * s * s == (255 * x + delta) * (255 * x + delta)) by (nonlinear_arith)
        requires e * s == 255 * x + delta;
    assert((255 * x + delta) * (255 * x + delta) == 65_025 * (x * x) + delta * (510 * x + delta))
        by (nonlinear_arith);
    assert(65_025 * (c * s) == 65_025 * (x * x) + 65_025 * rho) by (nonlinear_arith)
        requires c * s == x * x + rho;
    let prod = s * (d - c);
    assert(prod == d * s - c * s) by (nonlinear_arith)
        requires prod == s * (d - c);
    assert(65_025 * prod == err);

    let swing = delta * (510 * x + delta);
    if x >= s - 1960 {
        // Near full scale the encoder is exact: the numerator is 255 whole
        // units plus a remainder below one unit, so the byte is 255 and the
        // encoder's rounding slack is pinned to the square root's.
        let k = s - x;
        assert(0 <= 500_000 - 255 * k < s);
        assert(255 * x + 500_000 == s * 255 + (500_000 - 255 * k)) by (nonlinear_arith)
            requires x == s - k, s == 1_000_000int;
        lemma_div_multiples_vanish_fancy(255, 500_000 - 255 * k, s);
        assert(e == 255);
        assert(delta == 255 * k) by (nonlinear_arith)
            requires e * s == 255 * x + delta, e == 255, x == s - k;
        assert(0 <= swing <= 254_648_199_960_000) by (nonlinear_arith)
            requires
                swing == delta * (510 * x + delta),
                delta == 255 * k,
                x == s - k,
                0 <= k <= 1960,
                s == 1_000_000int,
    ;
    } else {
        assert(-254_749_945_000_000 <= swing <= 254_749_945_000_000) by (nonlinear_arith)
            requires
                swing == delta * (510 * x + delta),
                -500_000 < delta <= 500_000,
                0 <= x <= s - 1961,
                s == 1_000_000int,
        ;
    }
    assert(0 <= 65_025 * rho <= 130_050_000_000) by (nonlinear_arith)
        requires 0 <= rho <= 2 * x, x <= s, s == 1_000_000int;
    assert(-255_028_050_000_000 <= err <= 255_028_050_000_000);
    assert(-3_922_000_000 <= prod <= 3_922_000_000);
    assert(d - c <= 3_922 && c - d <= 3_922) by (nonlinear_arith)
        requires
            prod == s * (d - c),
            -3_922_000_000 <= prod <= 3_922_000_000,
            s == 1_000_000int,
    ;
}

} // verus!
