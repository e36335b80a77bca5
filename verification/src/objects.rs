//! Sphere primitives and their exact ray-intersection function.

use crate::fixed::{
    abs_val, div_trunc, isqrt_i128, isqrt_spec, lemma_isqrt_bounds, lemma_isqrt_monotone,
    lemma_isqrt_square, lemma_mul_bound_abs, lemma_tdiv_bound, lemma_tdiv_monotone, tdiv, SCALE,
};
use vstd::arithmetic::div_mod::{lemma_div_by_self, lemma_div_is_ordered};
use crate::hittable::{hit_within, range_wf, Hit, Hittable};
use crate::material::Material;
use crate::ray::{spec_at, Ray, T_MAX};
use crate::vec3::{
    dir_from, is_zero, lemma_component_le_isqrt, lemma_dot_bound, lemma_dot_neg,
    lemma_dot_self_nonneg, spec_dot, spec_neg, spec_normalize, spec_sub, Dir3, Vec3, NORM_MAX,
    POS_MAX,
};
use std::ops::Range;
use vstd::prelude::*;

verus! {

/// A sphere: center, radius and the material its surface wears.
#[derive(Clone, Copy, Debug, PartialEq, Eq, Structural)]
pub struct Sphere {
    pub center: Vec3,
    pub radius: i64,
    pub material: Material,
}

/// The hit record reported for an intersection of `ray` at parameter `t`
/// with sphere `s`: the reached point, the normalized outward normal flipped
/// against the ray when the ray comes from inside, and the front-face flag.
pub open spec fn spec_hit_at(s: Sphere, ray: Ray, t: int) -> Hit {
    let at = spec_at(ray, t);
    let ow = spec_normalize(spec_sub(at, s.center));
    let ff = spec_dot(ray.direction.vec(), ow) < 0;
    let n = if ff {
        ow
    } else {
        spec_neg(ow)
    };
    Hit {
        point: at,
        normal: dir_from(n),
        front_face: ff,
        distance: t as i64,
        material: s.material,
    }
}

/// The projected advance from the ray's origin toward the sphere's center,
/// along the ray (at scale `SCALE` squared).
pub open spec fn spec_sphere_h(s: Sphere, ray: Ray) -> int {
    spec_dot(ray.direction.vec(), spec_sub(s.center, ray.origin))
}

/// The constant coefficient of the reduced quadratic: the squared center
/// offset less the squared radius (at scale `SCALE` squared). Positive
/// exactly when the origin lies strictly outside the sphere.
pub open spec fn spec_sphere_c(s: Sphere, ray: Ray) -> int {
    let q = spec_sub(s.center, ray.origin);
    spec_dot(q, q) - s.radius * s.radius
}

/// The reduced discriminant `h^2 - c` with the scales aligned; negative
/// exactly when the ray's line misses the sphere.
pub open spec fn spec_sphere_disc(s: Sphere, ray: Ray) -> int {
    spec_sphere_h(s, ray) * spec_sphere_h(s, ray) - spec_sphere_c(s, ray) * ((SCALE as int) * (
    SCALE as int))
}

/// The exact ray-sphere intersection: solve the reduced quadratic
/// `t^2 - 2 h t + c == 0` (all quantities fixed-point), take the nearer root
/// if the range admits it, else the farther, else report nothing.
pub open spec fn spec_sphere_hit(s: Sphere, ray: Ray, start: int, end: int) -> Option<Hit> {
    let h = spec_sphere_h(s, ray);
    let disc = spec_sphere_disc(s, ray);
    if disc < 0 {
        Option::None
    } else {
        let sq = isqrt_spec(disc);
        let t1 = tdiv(h - sq, SCALE as int);
        let t2 = tdiv(h + sq, SCALE as int);
        if start <= t1 && t1 < end {
            Option::Some(spec_hit_at(s, ray, t1))
        } else if start <= t2 && t2 < end {
            Option::Some(spec_hit_at(s, ray, t2))
        } else {
            Option::None
        }
    }
}

impl Hittable for Sphere {
    /// Center and radius inside the supported coordinate band, and a
    /// well-formed material.
    open spec fn wf(&self) -> bool {
        self.center.bounded(POS_MAX as int) && 0 <= self.radius <= POS_MAX && self.material.wf()
    }

    open spec fn hit_spec(&self, ray: Ray, start: int, end: int) -> Option<Hit> {
        spec_sphere_hit(*self, ray, start, end)
    }

    /// Solve the reduced quadratic for the intersection parameters and
    /// report the nearest one inside the range; exactly
    /// [`spec_sphere_hit`].
    fn hit(&self, ray: &Ray, t_range: Range<i64>) -> (r: Option<Hit>) {
        let d: Vec3 = ray.direction.as_vec3();
        let q: Vec3 = self.center.sub(ray.origin);
        let h: i128 = d.dot(q);
        let qq: i128 = q.dot(q);
        proof {
            lemma_dot_bound(d, q, SCALE as int, 2 * POS_MAX as int);
            lemma_dot_bound(q, q, 2 * POS_MAX as int, 2 * POS_MAX as int);
            lemma_mul_bound_abs(self.radius as int, self.radius as int, POS_MAX as int, POS_MAX as int);
            lemma_dot_self_nonneg(q);
        }
        let rr: i128 = (self.radius as i128) * (self.radius as i128);
        let c: i128 = qq - rr;
        proof {
            lemma_mul_bound_abs(h as int, h as int, H_CAP as int, H_CAP as int);
            assert((h as int) * (h as int) >= 0) by (nonlinear_arith);
            if c >= 0 {
                lemma_mul_bound_abs(c as int, (SCALE as int) * (SCALE as int), C_CAP as int, (
                SCALE as int) * (SCALE as int));
                assert((c as int) * ((SCALE as int) * (SCALE as int)) >= 0) by (nonlinear_arith)
                    requires c >= 0;
            } else {
                lemma_mul_bound_abs(c as int, (SCALE as int) * (SCALE as int), RR_CAP as int, (
                SCALE as int) * (SCALE as int));
            }
        }
        let disc: i128 = h * h - c * ((SCALE as i128) * (SCALE as i128));
        if disc < 0 {
            None
        } else {
            let sq: i128 = isqrt_i128(disc);
            proof {
                assert(sq <= SQ_CAP as int) by (nonlinear_arith)
                    requires
                        0 <= sq,
                        sq * sq <= disc,
                        disc <= DISC_CAP as int,
                        (SQ_CAP as int) * (SQ_CAP as int) > DISC_CAP as int,
                ;
                assert((SQ_CAP as int) * (SQ_CAP as int) > DISC_CAP as int);
                lemma_tdiv_bound(h - sq, SCALE as int, T_RAW_CAP as int);
                lemma_tdiv_bound(h + sq, SCALE as int, T_RAW_CAP as int);
                assert((T_RAW_CAP as int) / (SCALE as int) == 26_000_000_000_000);
            }
            let t1: i64 = div_trunc(h - sq, SCALE as i128) as i64;
            let t2: i64 = div_trunc(h + sq, SCALE as i128) as i64;
            let t: i64 = if t_range.start <= t1 && t1 < t_range.end {
                t1
            } else if t_range.start <= t2 && t2 < t_range.end {
                t2
            } else {
                return None;
            };
            let at: Vec3 = ray.at(t);
            let ov: Vec3 = at.sub(self.center);
            let own: Vec3 = ov.normalize();
            let ff: bool = d.dot(own) < 0;
            let n: Vec3 = if ff {
                own
            } else {
                own.neg()
            };
            proof {
                if !ff {
                    lemma_dot_neg(ray.direction.vec(), own);
                    crate::vec3::lemma_dot_neg_neg(own);
                }
            }
            let normal: Dir3 = Dir3::from_unit(n);
            Some(
                Hit {
                    point: at,
                    normal,
                    front_face: ff,
                    distance: t,
                    material: self.material,
                },
            )
        }
    }
}

/// A ray whose line misses a sphere outright — the reduced discriminant is
/// negative — yields no hit, whatever range is asked for.
pub proof fn lemma_sphere_miss(s: Sphere, ray: Ray, start: int, end: int)
    requires
        spec_sphere_disc(s, ray) < 0,
    ensures
        spec_sphere_hit(s, ray, start, end) is None,
{
}

/// Any hit a sphere reports lies inside the queried range.
pub proof fn lemma_sphere_hit_in_range(s: Sphere, ray: Ray, start: int, end: int)
    requires
        range_wf(start, end),
    ensures
        match spec_sphere_hit(s, ray, start, end) {
            Option::Some(h) => start <= h.distance < end,
            Option::None => true,
        },
{
}

/// A ray that starts strictly outside a sphere (by at least one resolution
/// step) and points at it — real roots, the projected center ahead by at
/// least one unit — hits at a strictly positive distance, namely the nearer
/// root of the quadratic.
pub proof fn lemma_sphere_hit_from_outside(s: Sphere, ray: Ray, start: int, end: int)
    requires
        range_wf(start, end),
        spec_sphere_disc(s, ray) >= 0,
        spec_sphere_h(s, ray) >= SCALE,
        2 * spec_sphere_h(s, ray) <= spec_sphere_c(s, ray) * (SCALE as int) + SCALE,
        start <= 1,
        end > tdiv(spec_sphere_h(s, ray), SCALE as int),
    ensures
        spec_sphere_hit(s, ray, start, end) is Some,
        spec_sphere_hit(s, ray, start, end)->0.distance >= 1,
        spec_sphere_hit(s, ray, start, end)->0.distance == tdiv(
            spec_sphere_h(s, ray) - isqrt_spec(spec_sphere_disc(s, ray)),
            SCALE as int,
        ),
{
    let sc = SCALE as int;
    let h = spec_sphere_h(s, ray);
    let c = spec_sphere_c(s, ray);
    let disc = spec_sphere_disc(s, ray);
    let sq = isqrt_spec(disc);
    assert(disc <= (h - sc) * (h - sc)) by (nonlinear_arith)
        requires
            disc == h * h - c * (sc * sc),
            2 * h <= c * sc + sc,
            sc > 0,
    ;
    lemma_isqrt_square(h - sc);
    lemma_isqrt_monotone(disc, (h - sc) * (h - sc));
    assert(sq <= h - sc);
    lemma_isqrt_bounds(disc);
    let t1 = tdiv(h - sq, SCALE as int);
    assert(t1 >= 1) by {
        lemma_div_is_ordered(SCALE as int, h - sq, SCALE as int);
        lemma_div_by_self(SCALE as int);
    }
    assert(t1 <= tdiv(h, SCALE as int)) by {
        lemma_tdiv_monotone(h - sq, h, SCALE as int);
    }
}

/// A ray that starts outside a sphere and points at it squarely — with the
/// discriminant's root clearing the hit's center distance, the range's far
/// end and a few units, enough to absorb every rounding — meets it on the
/// front face. Together with [`lemma_sphere_hit_from_outside`], which gives
/// the hit and its distance, this pins the reported orientation: the ray
/// arrived from outside. The direction must measure exactly one unit.
pub proof fn lemma_sphere_hit_front_face(s: Sphere, ray: Ray, start: int, end: int)
    requires
        s.wf(),
        ray.wf(),
        range_wf(start, end),
        isqrt_spec(spec_dot(ray.direction.vec(), ray.direction.vec())) == SCALE as int,
        spec_sphere_disc(s, ray) >= 0,
        spec_sphere_h(s, ray) >= SCALE,
        2 * spec_sphere_h(s, ray) <= spec_sphere_c(s, ray) * (SCALE as int) + SCALE,
        start <= 1,
        end > tdiv(spec_sphere_h(s, ray), SCALE as int),
        ({
            let t1 = tdiv(
                spec_sphere_h(s, ray) - isqrt_spec(spec_sphere_disc(s, ray)),
                SCALE as int,
            );
            let v = spec_sub(spec_at(ray, t1), s.center);
            isqrt_spec(spec_sphere_disc(s, ray)) >= 3 * isqrt_spec(spec_dot(v, v)) + 2 * end + 4
                * SCALE
        }),
    ensures
        spec_sphere_hit(s, ray, start, end) matches Option::Some(hit) && hit.front_face,
{
    lemma_sphere_hit_from_outside(s, ray, start, end);
    let sc = SCALE as int;
    let d = ray.direction.vec();
    let dd = spec_dot(d, d);
    let h = spec_sphere_h(s, ray);
    let disc = spec_sphere_disc(s, ray);
    let sq = isqrt_spec(disc);
    lemma_isqrt_bounds(disc);
    lemma_dot_self_nonneg(d);
    lemma_isqrt_bounds(dd);
    let eps = dd - sc * sc;
    assert(0 <= eps <= 2 * sc) by (nonlinear_arith)
        requires
            sc * sc <= dd,
            dd < (sc + 1) * (sc + 1),
            eps == dd - sc * sc,
    ;

    // The near root and its division remainder.
    assert(disc <= (h - sc) * (h - sc)) by (nonlinear_arith)
        requires
            disc == h * h - spec_sphere_c(s, ray) * (sc * sc),
            2 * h <= spec_sphere_c(s, ray) * sc + sc,
            sc > 0,
    ;
    lemma_isqrt_square(h - sc);
    lemma_isqrt_monotone(disc, (h - sc) * (h - sc));
    assert(sq <= h - sc);
    let t1 = tdiv(h - sq, sc);
    vstd::arithmetic::div_mod::lemma_fundamental_div_mod(h - sq, sc);
    let rho_t = (h - sq) % sc;
    assert(sc * t1 == h - sq - rho_t);
    assert(t1 >= 1) by {
        lemma_div_is_ordered(sc, h - sq, sc);
        lemma_div_by_self(sc);
    }
    assert(t1 < end) by {
        lemma_tdiv_monotone(h - sq, h, sc);
    }

    // Exact walk along the ray: each coordinate of the reached point, and of
    // its offset from the center, fits its machine word, and the division
    // remainders stay below one unit.
    let q = spec_sub(s.center, ray.origin);
    let at = spec_at(ray, t1);
    let v = spec_sub(at, s.center);
    lemma_front_face_walk(s, ray, t1);
    let rx = t1 * d.x - sc * tdiv(t1 * d.x, sc);
    let ry = t1 * d.y - sc * tdiv(t1 * d.y, sc);
    let rz = t1 * d.z - sc * tdiv(t1 * d.z, sc);
    crate::fixed::lemma_tdiv_remainder(t1 * d.x, sc);
    crate::fixed::lemma_tdiv_remainder(t1 * d.y, sc);
    crate::fixed::lemma_tdiv_remainder(t1 * d.z, sc);
    assert(sc * (v.x as int) == -(sc * q.x) + t1 * d.x - rx) by (nonlinear_arith)
        requires
            v.x as int == -(q.x as int) + tdiv(t1 * (d.x as int), sc),
            rx == t1 * d.x - sc * tdiv(t1 * d.x, sc),
    ;
    assert(sc * (v.y as int) == -(sc * q.y) + t1 * d.y - ry) by (nonlinear_arith)
        requires
            v.y as int == -(q.y as int) + tdiv(t1 * (d.y as int), sc),
            ry == t1 * d.y - sc * tdiv(t1 * d.y, sc),
    ;
    assert(sc * (v.z as int) == -(sc * q.z) + t1 * d.z - rz) by (nonlinear_arith)
        requires
            v.z as int == -(q.z as int) + tdiv(t1 * (d.z as int), sc),
            rz == t1 * d.z - sc * tdiv(t1 * d.z, sc),
    ;

    // The projected approach at the hit point: the raw dot of the direction
    // with the center offset is one discriminant root deep, up to roundings.
    let sdot = spec_dot(d, v);
    let e1 = d.x * rx + d.y * ry + d.z * rz;
    assert(d.x * (sc * v.x) == -(sc * (d.x * q.x)) + t1 * (d.x * d.x) - d.x * rx)
        by (nonlinear_arith)
        requires sc * (v.x as int) == -(sc * q.x) + t1 * d.x - rx;
    assert(d.y * (sc * v.y) == -(sc * (d.y * q.y)) + t1 * (d.y * d.y) - d.y * ry)
        by (nonlinear_arith)
        requires sc * (v.y as int) == -(sc * q.y) + t1 * d.y - ry;
    assert(d.z * (sc * v.z) == -(sc * (d.z * q.z)) + t1 * (d.z * d.z) - d.z * rz)
        by (nonlinear_arith)
        requires sc * (v.z as int) == -(sc * q.z) + t1 * d.z - rz;
    assert(sc * (d.x * v.x) == d.x * (sc * v.x)) by (nonlinear_arith);
    assert(sc * (d.y * v.y) == d.y * (sc * v.y)) by (nonlinear_arith);
    assert(sc * (d.z * v.z) == d.z * (sc * v.z)) by (nonlinear_arith);
    assert(t1 * dd == t1 * (d.x * d.x) + t1 * (d.y * d.y) + t1 * (d.z * d.z))
        by (nonlinear_arith)
        requires dd == d.x * d.x + d.y * d.y + d.z * d.z;
    assert(sc * sdot == sc * (d.x * v.x) + sc * (d.y * v.y) + sc * (d.z * v.z));
    assert(sc * h == sc * (d.x * q.x) + sc * (d.y * q.y) + sc * (d.z * q.z));
    assert(sc * sdot == -(sc * h) + t1 * dd - e1);
    lemma_mul_bound_abs(d.x as int, rx, sc, sc);
    lemma_mul_bound_abs(d.y as int, ry, sc, sc);
    lemma_mul_bound_abs(d.z as int, rz, sc, sc);
    assert(abs_val(e1) <= 3 * (sc * sc));

    assert(sc * (sc * sdot) == -(sc * (sc * h)) + (sc * t1) * dd - sc * e1) by (nonlinear_arith)
        requires sc * sdot == -(sc * h) + t1 * dd - e1;
    assert((sc * t1) * dd == (h - sq - rho_t) * (sc * sc) + (h - sq - rho_t) * eps)
        by (nonlinear_arith)
        requires sc * t1 == h - sq - rho_t, dd == sc * sc + eps;
    assert(0 <= h - sq - rho_t <= sc * end) by (nonlinear_arith)
        requires sc * t1 == h - sq - rho_t, 1 <= t1 < end, sc > 0;
    assert((h - sq - rho_t) * eps <= (sc * end) * (2 * sc)) by (nonlinear_arith)
        requires 0 <= h - sq - rho_t <= sc * end, 0 <= eps <= 2 * sc;
    assert(sc * (sc * sdot) <= -((sc * sc) * sq) + (sc * end) * (2 * sc) + sc * (3 * (sc * sc)))
        by (nonlinear_arith)
        requires
            sc * (sc * sdot) == -(sc * (sc * h)) + (h - sq - rho_t) * (sc * sc) + (h - sq - rho_t)
                * eps - sc * e1,
            sc * t1 == h - sq - rho_t,
            0 <= rho_t < sc,
            (h - sq - rho_t) * eps <= (sc * end) * (2 * sc),
            abs_val(e1) <= 3 * (sc * sc),
            sc > 0,
    ;
    assert(sdot <= -sq + 2 * end + 3 * sc) by (nonlinear_arith)
        requires
            sc * (sc * sdot) <= -((sc * sc) * sq) + (sc * end) * (2 * sc) + sc * (3 * (sc * sc)),
            sc > 0,
    ;

    // The margin swallows every rounding: the projected approach is strictly
    // negative even after normalization truncates.
    let vv = spec_dot(v, v);
    lemma_dot_self_nonneg(v);
    let m = isqrt_spec(vv);
    lemma_isqrt_bounds(vv);
    assert(sdot <= -(3 * m) - sc);
    assert(!is_zero(v)) by {
        if is_zero(v) {
            assert(sdot == 0);
        }
    }
    assert(m >= 1) by {
        if m == 0 {
            assert((m + 1) * (m + 1) == 1) by (nonlinear_arith)
                requires m == 0;
            assert(vv < 1);
        }
    }
    let nv = spec_normalize(v);
    if m == sc {
        assert(spec_dot(d, nv) < 0);
    } else {
        lemma_component_le_isqrt(v);
        lemma_norm_cast_exact(v.x as int, m);
        lemma_norm_cast_exact(v.y as int, m);
        lemma_norm_cast_exact(v.z as int, m);
        crate::fixed::lemma_tdiv_remainder(v.x * sc, m);
        crate::fixed::lemma_tdiv_remainder(v.y * sc, m);
        crate::fixed::lemma_tdiv_remainder(v.z * sc, m);
        assert(nv.x as int == tdiv(v.x * sc, m));
        assert(nv.y as int == tdiv(v.y * sc, m));
        assert(nv.z as int == tdiv(v.z * sc, m));
        let wx = v.x * sc - m * tdiv(v.x * sc, m);
        let wy = v.y * sc - m * tdiv(v.y * sc, m);
        let wz = v.z * sc - m * tdiv(v.z * sc, m);
        assert(m * (nv.x as int) == v.x * sc - wx);
        assert(m * (nv.y as int) == v.y * sc - wy);
        assert(m * (nv.z as int) == v.z * sc - wz);
        let e2 = d.x * wx + d.y * wy + d.z * wz;
        lemma_mul_bound_abs(d.x as int, wx, sc, m);
        lemma_mul_bound_abs(d.y as int, wy, sc, m);
        lemma_mul_bound_abs(d.z as int, wz, sc, m);
        assert(abs_val(e2) <= 3 * (sc * m));
        assert(d.x * (m * nv.x) == m * (d.x * nv.x)) by (nonlinear_arith);
        assert(d.y * (m * nv.y) == m * (d.y * nv.y)) by (nonlinear_arith);
        assert(d.z * (m * nv.z) == m * (d.z * nv.z)) by (nonlinear_arith);
        assert(d.x * (m * nv.x) == sc * (d.x * v.x) - d.x * wx) by (nonlinear_arith)
            requires m * (nv.x as int) == v.x * sc - wx;
        assert(d.y * (m * nv.y) == sc * (d.y * v.y) - d.y * wy) by (nonlinear_arith)
            requires m * (nv.y as int) == v.y * sc - wy;
        assert(d.z * (m * nv.z) == sc * (d.z * v.z) - d.z * wz) by (nonlinear_arith)
            requires m * (nv.z as int) == v.z * sc - wz;
        assert(m * spec_dot(d, nv) == sc * sdot - e2) by (nonlinear_arith)
            requires
                m * (d.x * nv.x) == sc * (d.x * v.x) - d.x * wx,
                m * (d.y * nv.y) == sc * (d.y * v.y) - d.y * wy,
                m * (d.z * nv.z) == sc * (d.z * v.z) - d.z * wz,
                spec_dot(d, nv) == d.x * nv.x + d.y * nv.y + d.z * nv.z,
                sc * sdot == sc * (d.x * v.x) + sc * (d.y * v.y) + sc * (d.z * v.z),
                e2 == d.x * wx + d.y * wy + d.z * wz,
        ;
        assert(sc * sdot <= sc * (-(3 * m) - sc)) by (nonlinear_arith)
            requires sdot <= -(3 * m) - sc, sc > 0;
        assert(sc * (-(3 * m) - sc) + 3 * (sc * m) < 0) by (nonlinear_arith)
            requires sc > 0, m >= 1;
        assert(m * spec_dot(d, nv) < 0);
        assert(spec_dot(d, nv) < 0) by (nonlinear_arith)
            requires m * spec_dot(d, nv) < 0, m >= 1;
    }
}

/// The coordinates reached one near-root along the ray, and their offsets
/// from the sphere's center, all fit their machine words exactly.
proof fn lemma_front_face_walk(s: Sphere, ray: Ray, t1: int)
    requires
        s.wf(),
        ray.wf(),
        0 <= t1 <= T_MAX,
    ensures
        ({
            let at = spec_at(ray, t1);
            let v = spec_sub(at, s.center);
            let q = spec_sub(s.center, ray.origin);
            &&& v.x as int == -(q.x as int) + tdiv(t1 * (ray.direction.vec().x as int), SCALE as int)
            &&& v.y as int == -(q.y as int) + tdiv(t1 * (ray.direction.vec().y as int), SCALE as int)
            &&& v.z as int == -(q.z as int) + tdiv(t1 * (ray.direction.vec().z as int), SCALE as int)
        }),
{
    let sc = SCALE as int;
    let d = ray.direction.vec();
    lemma_walk_step(t1, d.x as int);
    lemma_walk_step(t1, d.y as int);
    lemma_walk_step(t1, d.z as int);
}

/// One coordinate's advance along the ray stays within the parameter bound.
proof fn lemma_walk_step(t: int, dc: int)
    requires
        0 <= t <= T_MAX,
        abs_val(dc) <= SCALE as int,
    ensures
        abs_val(tdiv(t * dc, SCALE as int)) <= T_MAX as int,
{
    lemma_mul_bound_abs(t, dc, T_MAX as int, SCALE as int);
    lemma_tdiv_bound(t * dc, SCALE as int, (T_MAX as int) * (SCALE as int));
    assert((T_MAX as int) * (SCALE as int) == (SCALE as int) * (T_MAX as int)) by (nonlinear_arith);
    vstd::arithmetic::div_mod::lemma_div_multiples_vanish(T_MAX as int, SCALE as int);
}

/// A normalized component is the exact truncated quotient: it fits its
/// machine word.
proof fn lemma_norm_cast_exact(c: int, m: int)
    requires
        m >= 1,
        abs_val(c) <= m,
    ensures
        abs_val(tdiv(c * SCALE, m)) <= SCALE as int,
        tdiv(c * SCALE, m) as i64 == tdiv(c * SCALE, m),
{
    lemma_mul_bound_abs(c, SCALE as int, m, SCALE as int);
    lemma_tdiv_bound(c * SCALE, m, m * (SCALE as int));
    assert(m * (SCALE as int) == (SCALE as int) * m) by (nonlinear_arith);
    vstd::arithmetic::div_mod::lemma_div_multiples_vanish(SCALE as int, m);
}

/// Narrowing a range's far end filters the reported hit: the narrowed query
/// returns exactly the original hit when it is near enough, and nothing
/// otherwise. This is what lets the world scan shrink its range as it goes.
pub proof fn lemma_sphere_hit_narrow(s: Sphere, ray: Ray, start: int, e1: int, e2: int)
    requires
        e2 <= e1,
        range_wf(start, e1),
        range_wf(start, e2),
    ensures
        spec_sphere_hit(s, ray, start, e2) == (match spec_sphere_hit(s, ray, start, e1) {
            Option::Some(h) => if (h.distance as int) < e2 {
                Option::Some(h)
            } else {
                Option::None::<Hit>
            },
            Option::None => Option::None::<Hit>,
        }),
{
    let h = spec_sphere_h(s, ray);
    let disc = spec_sphere_disc(s, ray);
    if disc >= 0 {
        let sq = isqrt_spec(disc);
        lemma_isqrt_bounds(disc);
        lemma_tdiv_monotone(h - sq, h + sq, SCALE as int);
    }
}

/// Bound on the projected center distance `h` inside the intersection test.
pub(crate) const H_CAP: i128 = 12_000_000_000_000_000_000;

/// Bound on a nonnegative `c` inside the intersection test.
pub(crate) const C_CAP: i128 = 48_000_000_000_000_000_000_000_000;

/// Bound on the magnitude of a negative `c` (at most the squared radius).
pub(crate) const RR_CAP: i128 = 4_000_000_000_000_000_000_000_000;

/// Bound on the discriminant.
pub(crate) const DISC_CAP: i128 = 150_000_000_000_000_000_000_000_000_000_000_000_000;

/// Bound on the discriminant's square root.
pub(crate) const SQ_CAP: i128 = 13_000_000_000_000_000_000;

/// Bound on an unscaled root `h - sq` or `h + sq`.
pub(crate) const T_RAW_CAP: i128 = 26_000_000_000_000_000_000;

} // verus!
