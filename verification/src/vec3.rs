//! Points, offsets and unit-length directions in fixed-point space.
//!
//! A [`Vec3`] holds three fixed-point scalars. A [`Dir3`] wraps a vector that
//! construction keeps near unit length; its field is private, so the only way
//! to obtain one from outside is through a normalizing constructor, and every
//! direction provably measures one unit within a few truncation steps.

use crate::fixed::{
    abs_val, div_trunc, fp_mul, isqrt_i128, isqrt_spec, lemma_isqrt_bounds, lemma_isqrt_monotone,
    lemma_isqrt_square, lemma_mul_bound_abs, lemma_tdiv_bound, tdiv, FP_OP_MAX, SCALE,
};
use vstd::arithmetic::div_mod::{lemma_div_by_self, lemma_div_is_ordered, lemma_div_multiples_vanish};
use vstd::arithmetic::mul::lemma_mul_inequality;
use vstd::prelude::*;

verus! {

/// Largest coordinate magnitude for ray origins, sphere centers and radii.
pub const POS_MAX: i64 = 2_000_000_000_000;

/// Largest coordinate magnitude a vector handed to [`Vec3::dot`] or
/// [`Vec3::normalize`] may have.
pub const NORM_MAX: i64 = 5_000_000_000_000;

/// A three-component fixed-point vector: a point or an offset.
#[derive(Clone, Copy, Debug, PartialEq, Eq, Structural)]
pub struct Vec3 {
    pub x: i64,
    pub y: i64,
    pub z: i64,
}

/// Build a vector from mathematical integers (truncating casts; exact
/// whenever the components are in range, which every use here guarantees).
pub open spec fn spec_v3(x: int, y: int, z: int) -> Vec3 {
    Vec3 { x: x as i64, y: y as i64, z: z as i64 }
}

/// All three components are zero.
pub open spec fn is_zero(v: Vec3) -> bool {
    v.x == 0 && v.y == 0 && v.z == 0
}

/// The raw dot product; no rescaling, so two scale-`SCALE` operands give a
/// scale-`SCALE * SCALE` result.
pub open spec fn spec_dot(a: Vec3, b: Vec3) -> int {
    a.x * b.x + a.y * b.y + a.z * b.z
}

/// Componentwise negation.
pub open spec fn spec_neg(a: Vec3) -> Vec3 {
    spec_v3(-a.x, -a.y, -a.z)
}

/// Componentwise sum.
pub open spec fn spec_add(a: Vec3, b: Vec3) -> Vec3 {
    spec_v3(a.x + b.x, a.y + b.y, a.z + b.z)
}

/// Componentwise difference.
pub open spec fn spec_sub(a: Vec3, b: Vec3) -> Vec3 {
    spec_v3(a.x - b.x, a.y - b.y, a.z - b.z)
}

/// Scale a vector by a fixed-point factor, truncating each component.
pub open spec fn spec_scale(a: Vec3, k: int) -> Vec3 {
    spec_v3(tdiv(a.x * k, SCALE as int), tdiv(a.y * k, SCALE as int), tdiv(a.z * k, SCALE as int))
}

/// Rescale a nonzero vector to unit length: each component becomes
/// `c * SCALE / |v|` with the floor square root as the length. A vector whose
/// length already rounds to exactly one unit is kept as it is, and the zero
/// vector falls back to the positive `z` axis so that normalization is total.
pub open spec fn spec_normalize(v: Vec3) -> Vec3 {
    if is_zero(v) {
        spec_v3(0, 0, SCALE as int)
    } else {
        let m = isqrt_spec(spec_dot(v, v));
        if m == SCALE as int {
            v
        } else {
            spec_v3(
                tdiv(v.x * SCALE, m),
                tdiv(v.y * SCALE, m),
                tdiv(v.z * SCALE, m),
            )
        }
    }
}

impl Vec3 {
    /// Every component's magnitude is at most `cap`.
    pub open spec fn bounded(self, cap: int) -> bool {
        abs_val(self.x as int) <= cap && abs_val(self.y as int) <= cap && abs_val(self.z as int)
            <= cap
    }

    /// Componentwise sum.
    pub fn add(self, o: Vec3) -> (r: Vec3)
        requires
            abs_val(self.x + o.x) <= i64::MAX,
            abs_val(self.y + o.y) <= i64::MAX,
            abs_val(self.z + o.z) <= i64::MAX,
        ensures
            r == spec_add(self, o),
    {
        Vec3 { x: self.x + o.x, y: self.y + o.y, z: self.z + o.z }
    }

    /// Componentwise difference.
    pub fn sub(self, o: Vec3) -> (r: Vec3)
        requires
            abs_val(self.x - o.x) <= i64::MAX,
            abs_val(self.y - o.y) <= i64::MAX,
            abs_val(self.z - o.z) <= i64::MAX,
        ensures
            r == spec_sub(self, o),
    {
        Vec3 { x: self.x - o.x, y: self.y - o.y, z: self.z - o.z }
    }

    /// Componentwise negation.
    pub fn neg(self) -> (r: Vec3)
        requires
            self.x != i64::MIN,
            self.y != i64::MIN,
            self.z != i64::MIN,
        ensures
            r == spec_neg(self),
    {
        Vec3 { x: -self.x, y: -self.y, z: -self.z }
    }

    /// Scale by a fixed-point factor.
    pub fn scale(self, k: i64) -> (r: Vec3)
        requires
            self.bounded(FP_OP_MAX as int),
            abs_val(k as int) <= FP_OP_MAX as int,
        ensures
            r == spec_scale(self, k as int),
    {
        Vec3 { x: fp_mul(self.x, k), y: fp_mul(self.y, k), z: fp_mul(self.z, k) }
    }

    /// Raw dot product, computed wide so it cannot overflow.
    pub fn dot(self, o: Vec3) -> (r: i128)
        requires
            self.bounded(NORM_MAX as int),
            o.bounded(NORM_MAX as int),
        ensures
            r == spec_dot(self, o),
    {
        proof {
            lemma_mul_bound_abs(self.x as int, o.x as int, NORM_MAX as int, NORM_MAX as int);
            lemma_mul_bound_abs(self.y as int, o.y as int, NORM_MAX as int, NORM_MAX as int);
            lemma_mul_bound_abs(self.z as int, o.z as int, NORM_MAX as int, NORM_MAX as int);
        }
        (self.x as i128) * (o.x as i128) + (self.y as i128) * (o.y as i128) + (self.z as i128)
            * (o.z as i128)
    }

    /// Rescale to unit length; exactly [`spec_normalize`]. The result sits
    /// inside the unit bound, is nonzero, and its squared length falls at
    /// most six truncation steps short of one unit squared.
    pub fn normalize(self) -> (r: Vec3)
        requires
            self.bounded(NORM_MAX as int),
        ensures
            r == spec_normalize(self),
            r.bounded(SCALE as int),
            !is_zero(r),
            spec_dot(r, r) >= (SCALE as int) * (SCALE as int) - 6 * (SCALE as int),
    {
        proof {
            lemma_normalize_wf(self);
            lemma_normalize_near_unit(self);
        }
        if self.x == 0 && self.y == 0 && self.z == 0 {
            Vec3 { x: 0, y: 0, z: SCALE }
        } else {
            let n2 = self.dot(self);
            proof {
                lemma_dot_self_nonneg(self);
            }
            let m = isqrt_i128(n2);
            if m == SCALE as i128 {
                self
            } else {
                proof {
                    lemma_component_le_isqrt(self);
                    lemma_normalize_component_bounds(self);
                }
                Vec3 {
                    x: div_trunc((self.x as i128) * (SCALE as i128), m) as i64,
                    y: div_trunc((self.y as i128) * (SCALE as i128), m) as i64,
                    z: div_trunc((self.z as i128) * (SCALE as i128), m) as i64,
                }
            }
        }
    }
}

/// A vector's dot product with itself is a sum of squares.
pub proof fn lemma_dot_self_nonneg(v: Vec3)
    ensures
        spec_dot(v, v) >= 0,
        !is_zero(v) ==> spec_dot(v, v) >= 1,
{
    assert(v.x * v.x >= 0 && v.y * v.y >= 0 && v.z * v.z >= 0) by (nonlinear_arith);
    if !is_zero(v) {
        assert(v.x != 0 ==> v.x * v.x >= 1) by (nonlinear_arith);
        assert(v.y != 0 ==> v.y * v.y >= 1) by (nonlinear_arith);
        assert(v.z != 0 ==> v.z * v.z >= 1) by (nonlinear_arith);
    }
}

/// The dot product's magnitude is bounded by three times the product of the
/// operands' componentwise bounds.
pub proof fn lemma_dot_bound(a: Vec3, b: Vec3, ca: int, cb: int)
    requires
        a.bounded(ca),
        b.bounded(cb),
    ensures
        abs_val(spec_dot(a, b)) <= 3 * (ca * cb),
{
    lemma_mul_bound_abs(a.x as int, b.x as int, ca, cb);
    lemma_mul_bound_abs(a.y as int, b.y as int, ca, cb);
    lemma_mul_bound_abs(a.z as int, b.z as int, ca, cb);
}

/// Scaling a unit-bounded vector by a factor within one unit keeps every
/// component within the unit bound.
pub proof fn lemma_scale_unit_bound(v: Vec3, k: int)
    requires
        v.bounded(SCALE as int),
        0 <= k <= SCALE as int,
    ensures
        abs_val(tdiv(v.x * k, SCALE as int)) <= SCALE as int,
        abs_val(tdiv(v.y * k, SCALE as int)) <= SCALE as int,
        abs_val(tdiv(v.z * k, SCALE as int)) <= SCALE as int,
        spec_scale(v, k).bounded(SCALE as int),
{
    lemma_scale_unit_comp(v.x as int, k);
    lemma_scale_unit_comp(v.y as int, k);
    lemma_scale_unit_comp(v.z as int, k);
}

/// One component of such a scaling stays within the unit bound.
proof fn lemma_scale_unit_comp(c: int, k: int)
    requires
        abs_val(c) <= SCALE as int,
        0 <= k <= SCALE as int,
    ensures
        abs_val(tdiv(c * k, SCALE as int)) <= SCALE as int,
{
    lemma_mul_bound_abs(c, k, SCALE as int, SCALE as int);
    lemma_tdiv_bound(c * k, SCALE as int, (SCALE as int) * (SCALE as int));
    lemma_div_multiples_vanish(SCALE as int, SCALE as int);
}

/// The dot product is symmetric.
pub proof fn lemma_dot_comm(a: Vec3, b: Vec3)
    ensures
        spec_dot(a, b) == spec_dot(b, a),
{
    assert(a.x * b.x == b.x * a.x) by (nonlinear_arith);
    assert(a.y * b.y == b.y * a.y) by (nonlinear_arith);
    assert(a.z * b.z == b.z * a.z) by (nonlinear_arith);
}

/// Negating one operand negates the dot product (the negation must not
/// truncate, which any componentwise bound below the extreme guarantees).
pub proof fn lemma_dot_neg(a: Vec3, b: Vec3)
    requires
        b.bounded(SCALE as int),
    ensures
        spec_dot(a, spec_neg(b)) == -spec_dot(a, b),
{
    assert(a.x * (-(b.x as int)) == -(a.x * b.x)) by (nonlinear_arith);
    assert(a.y * (-(b.y as int)) == -(a.y * b.y)) by (nonlinear_arith);
    assert(a.z * (-(b.z as int)) == -(a.z * b.z)) by (nonlinear_arith);
}

/// Each component's magnitude is at most the floor square root of the
/// vector's squared length.
pub proof fn lemma_component_le_isqrt(v: Vec3)
    ensures
        abs_val(v.x as int) <= isqrt_spec(spec_dot(v, v)),
        abs_val(v.y as int) <= isqrt_spec(spec_dot(v, v)),
        abs_val(v.z as int) <= isqrt_spec(spec_dot(v, v)),
{
    lemma_dot_self_nonneg(v);
    assert(v.x * v.x <= spec_dot(v, v) && v.y * v.y <= spec_dot(v, v) && v.z * v.z <= spec_dot(
        v,
        v,
    )) by (nonlinear_arith);
    lemma_isqrt_square(abs_val(v.x as int));
    assert(abs_val(v.x as int) * abs_val(v.x as int) == v.x * v.x) by (nonlinear_arith);
    lemma_isqrt_monotone(v.x * v.x, spec_dot(v, v));
    lemma_isqrt_square(abs_val(v.y as int));
    assert(abs_val(v.y as int) * abs_val(v.y as int) == v.y * v.y) by (nonlinear_arith);
    lemma_isqrt_monotone(v.y * v.y, spec_dot(v, v));
    lemma_isqrt_square(abs_val(v.z as int));
    assert(abs_val(v.z as int) * abs_val(v.z as int) == v.z * v.z) by (nonlinear_arith);
    lemma_isqrt_monotone(v.z * v.z, spec_dot(v, v));
}

/// Bounds used by the scaling branch of normalization: each scaled component
/// stays within one unit, and the largest one keeps at least half a unit.
proof fn lemma_normalize_component_bounds(v: Vec3)
    requires
        !is_zero(v),
    ensures
        abs_val(tdiv(v.x * SCALE, isqrt_spec(spec_dot(v, v)))) <= SCALE as int,
        abs_val(tdiv(v.y * SCALE, isqrt_spec(spec_dot(v, v)))) <= SCALE as int,
        abs_val(tdiv(v.z * SCALE, isqrt_spec(spec_dot(v, v)))) <= SCALE as int,
        !is_zero(
            spec_v3(
                tdiv(v.x * SCALE, isqrt_spec(spec_dot(v, v))),
                tdiv(v.y * SCALE, isqrt_spec(spec_dot(v, v))),
                tdiv(v.z * SCALE, isqrt_spec(spec_dot(v, v))),
            ),
        ),
{
    lemma_dot_self_nonneg(v);
    lemma_isqrt_bounds(spec_dot(v, v));
    lemma_component_le_isqrt(v);
    let m = isqrt_spec(spec_dot(v, v));
    assert(m >= 1) by {
        if m == 0 {
            assert(spec_dot(v, v) < 1);
        }
    }
    lemma_norm_comp_in_unit(v.x as int, m);
    lemma_norm_comp_in_unit(v.y as int, m);
    lemma_norm_comp_in_unit(v.z as int, m);
    // The component of largest magnitude survives scaling: `m <= 2 * M`
    // because `m * m <= 3 * M * M`, hence `|c| * SCALE >= m` for that
    // component and its quotient is at least one.
    let mx = vstd::math::max(
        abs_val(v.x as int),
        vstd::math::max(abs_val(v.y as int), abs_val(v.z as int)),
    );
    assert(spec_dot(v, v) <= 3 * (mx * mx)) by (nonlinear_arith)
        requires
            abs_val(v.x as int) <= mx,
            abs_val(v.y as int) <= mx,
            abs_val(v.z as int) <= mx,
    ;
    assert(m <= 2 * mx) by (nonlinear_arith)
        requires
            m >= 0,
            mx >= 1,
            m * m <= 3 * (mx * mx),
    ;
    if abs_val(v.x as int) == mx {
        lemma_norm_comp_nonzero(v.x as int, m, mx);
    } else if abs_val(v.y as int) == mx {
        lemma_norm_comp_nonzero(v.y as int, m, mx);
    } else {
        lemma_norm_comp_nonzero(v.z as int, m, mx);
    }
}

/// One normalized component stays within one unit.
proof fn lemma_norm_comp_in_unit(c: int, m: int)
    requires
        m >= 1,
        abs_val(c) <= m,
    ensures
        abs_val(tdiv(c * SCALE, m)) <= SCALE as int,
{
    lemma_mul_bound_abs(c, SCALE as int, m, SCALE as int);
    lemma_tdiv_bound(c * SCALE, m, m * (SCALE as int));
    lemma_div_multiples_vanish(SCALE as int, m);
    assert(m * (SCALE as int) == (SCALE as int) * m) by (nonlinear_arith);
}

/// The component of largest magnitude does not truncate to zero.
proof fn lemma_norm_comp_nonzero(c: int, m: int, mx: int)
    requires
        m >= 1,
        mx >= 1,
        abs_val(c) == mx,
        m <= 2 * mx,
    ensures
        tdiv(c * SCALE, m) != 0,
{
    assert(abs_val(c * SCALE) == mx * (SCALE as int)) by (nonlinear_arith)
        requires abs_val(c) == mx;
    assert(mx * (SCALE as int) >= m) by (nonlinear_arith)
        requires mx >= 1, m <= 2 * mx;
    lemma_div_is_ordered(m, mx * (SCALE as int), m);
    lemma_div_by_self(m);
    if c >= 0 {
        assert(c * SCALE == abs_val(c * SCALE));
    } else {
        assert(-(c * SCALE) == abs_val(c * SCALE)) by (nonlinear_arith)
            requires c < 0;
    }
}

/// Normalization always lands inside the unit bound and away from zero.
pub proof fn lemma_normalize_wf(v: Vec3)
    ensures
        spec_normalize(v).bounded(SCALE as int),
        !is_zero(spec_normalize(v)),
{
    if is_zero(v) {
    } else {
        lemma_dot_self_nonneg(v);
        lemma_isqrt_bounds(spec_dot(v, v));
        let m = isqrt_spec(spec_dot(v, v));
        if m == SCALE as int {
            lemma_component_le_isqrt(v);
        } else {
            lemma_normalize_component_bounds(v);
        }
    }
}

/// Negating a vector without truncation keeps its squared length.
pub proof fn lemma_dot_neg_neg(v: Vec3)
    requires
        v.bounded(SCALE as int),
    ensures
        spec_dot(spec_neg(v), spec_neg(v)) == spec_dot(v, v),
{
    assert((-(v.x as int)) * (-(v.x as int)) == v.x * v.x) by (nonlinear_arith);
    assert((-(v.y as int)) * (-(v.y as int)) == v.y * v.y) by (nonlinear_arith);
    assert((-(v.z as int)) * (-(v.z as int)) == v.z * v.z) by (nonlinear_arith);
}

/// Normalization lands near unit length from below: the squared length of
/// any normalized vector is at least `SCALE * SCALE - 6 * SCALE`, six
/// truncation steps under one unit squared. (No matching upper bound holds:
/// a vector of tiny magnitude normalizes coarsely.)
pub proof fn lemma_normalize_near_unit(v: Vec3)
    ensures
        spec_dot(spec_normalize(v), spec_normalize(v)) >= (SCALE as int) * (SCALE as int) - 6 * (
        SCALE as int),
{
    let s = SCALE as int;
    let w = spec_normalize(v);
    if is_zero(v) {
        assert(spec_dot(w, w) == s * s) by (nonlinear_arith)
            requires w.x == 0 && w.y == 0 && w.z as int == s;
    } else {
        lemma_dot_self_nonneg(v);
        let vv = spec_dot(v, v);
        lemma_isqrt_bounds(vv);
        let m = isqrt_spec(vv);
        assert(m >= 1) by {
            if m == 0 {
                assert((m + 1) * (m + 1) == 1) by (nonlinear_arith)
                    requires m == 0;
            }
        }
        if m == s {
            assert(spec_dot(w, w) >= s * s) by {
                assert(vv >= m * m);
            }
        } else {
            lemma_component_le_isqrt(v);
            lemma_norm_comp_in_unit(v.x as int, m);
            lemma_norm_comp_in_unit(v.y as int, m);
            lemma_norm_comp_in_unit(v.z as int, m);
            crate::fixed::lemma_tdiv_remainder(v.x * s, m);
            crate::fixed::lemma_tdiv_remainder(v.y * s, m);
            crate::fixed::lemma_tdiv_remainder(v.z * s, m);
            let rx = v.x * s - m * tdiv(v.x * s, m);
            let ry = v.y * s - m * tdiv(v.y * s, m);
            let rz = v.z * s - m * tdiv(v.z * s, m);
            assert(m * (w.x as int) == v.x * s - rx);
            assert(m * (w.y as int) == v.y * s - ry);
            assert(m * (w.z as int) == v.z * s - rz);
            let e = v.x * rx + v.y * ry + v.z * rz;
            assert((m * w.x) * (m * w.x) == (s * s) * (v.x * v.x) - 2 * s * (v.x * rx) + rx * rx)
                by (nonlinear_arith)
                requires m * (w.x as int) == v.x * s - rx;
            assert((m * w.y) * (m * w.y) == (s * s) * (v.y * v.y) - 2 * s * (v.y * ry) + ry * ry)
                by (nonlinear_arith)
                requires m * (w.y as int) == v.y * s - ry;
            assert((m * w.z) * (m * w.z) == (s * s) * (v.z * v.z) - 2 * s * (v.z * rz) + rz * rz)
                by (nonlinear_arith)
                requires m * (w.z as int) == v.z * s - rz;
            assert((m * m) * spec_dot(w, w) == (m * w.x) * (m * w.x) + (m * w.y) * (m * w.y) + (m
                * w.z) * (m * w.z)) by (nonlinear_arith)
                requires spec_dot(w, w) == w.x * w.x + w.y * w.y + w.z * w.z;
            lemma_mul_bound_abs(v.x as int, rx, m, m);
            lemma_mul_bound_abs(v.y as int, ry, m, m);
            lemma_mul_bound_abs(v.z as int, rz, m, m);
            assert(abs_val(e) <= 3 * (m * m));
            assert(rx * rx >= 0 && ry * ry >= 0 && rz * rz >= 0) by (nonlinear_arith);
            assert((s * s) * vv >= (s * s) * (m * m)) by (nonlinear_arith)
                requires vv >= m * m;
            assert((m * m) * spec_dot(w, w) >= (s * s) * (m * m) - (6 * s) * (m * m))
                by (nonlinear_arith)
                requires
                    (m * m) * spec_dot(w, w) == (s * s) * vv - 2 * s * e + (rx * rx + ry * ry + rz
                        * rz),
                    (s * s) * vv >= (s * s) * (m * m),
                    abs_val(e) <= 3 * (m * m),
                    rx * rx + ry * ry + rz * rz >= 0,
                    s > 0,
            ;
            assert(spec_dot(w, w) >= s * s - 6 * s) by (nonlinear_arith)
                requires
                    (m * m) * spec_dot(w, w) >= (s * s) * (m * m) - (6 * s) * (m * m),
                    m >= 1,
            ;
        }
    }
}

/// A direction: a vector kept near unit length by construction. The wrapped
/// vector is private; all construction goes through [`Dir3::new`], which
/// normalizes, or crate-internal constructors that only accept vectors
/// already normalized, so every direction's squared length provably sits
/// within six truncation steps below one unit squared.
#[derive(Clone, Copy, Debug, PartialEq, Eq, Structural)]
pub struct Dir3 {
    v: Vec3,
}

/// The direction holding exactly `v`; spec-level constructor for stating
/// what geometric computations produce.
pub closed spec fn dir_from(v: Vec3) -> Dir3 {
    Dir3 { v }
}

/// Every direction is [`dir_from`] of its own vector, which wraps it
/// unchanged.
pub proof fn lemma_dir_ext(d: Dir3)
    ensures
        dir_from(d.vec()) == d,
        dir_from(d.vec()).vec() == d.vec(),
{
}

impl Dir3 {
    /// The wrapped vector.
    pub closed spec fn vec(self) -> Vec3 {
        self.v
    }

    /// Well-formed: within the unit bound, nonzero, and of unit length
    /// within tolerance — the squared length falls at most six truncation
    /// steps short of one unit squared.
    pub open spec fn wf(self) -> bool {
        &&& self.vec().bounded(SCALE as int)
        &&& !is_zero(self.vec())
        &&& spec_dot(self.vec(), self.vec()) >= (SCALE as int) * (SCALE as int) - 6 * (SCALE as int)
    }

    /// Construction normalizes, so the result is always well formed.
    pub fn new(v: Vec3) -> (d: Dir3)
        requires
            v.bounded(NORM_MAX as int),
        ensures
            d == dir_from(spec_normalize(v)),
            d.vec() == spec_normalize(v),
            d.wf(),
    {
        proof {
            lemma_normalize_wf(v);
        }
        Dir3 { v: v.normalize() }
    }

    /// Wrap a vector already normalized by hand; used by geometry that has
    /// the unit-tolerance facts in hand already.
    pub(crate) fn from_unit(v: Vec3) -> (d: Dir3)
        requires
            v.bounded(SCALE as int),
            !is_zero(v),
            spec_dot(v, v) >= (SCALE as int) * (SCALE as int) - 6 * (SCALE as int),
        ensures
            d == dir_from(v),
            d.vec() == v,
            d.wf(),
    {
        Dir3 { v }
    }

    /// The direction as a plain vector.
    pub fn as_vec3(&self) -> (r: Vec3)
        ensures
            r == self.vec(),
    {
        self.v
    }

    /// The opposite direction.
    pub fn neg(&self) -> (r: Dir3)
        requires
            self.wf(),
        ensures
            r == dir_from(spec_neg(self.vec())),
            r.vec() == spec_neg(self.vec()),
            r.wf(),
    {
        proof {
            lemma_dot_neg_neg(self.vec());
        }
        Dir3 { v: self.v.neg() }
    }
}

} // verus!
