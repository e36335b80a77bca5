//! Rays: an origin point plus a unit direction, evaluated parametrically.

use crate::color::{
    lemma_color_mul_black_left, spec_black, spec_color_mix, spec_color_mul, spec_sky_blue,
    spec_white, LinearColor,
};
use crate::fixed::{
    abs_val, div_trunc, isqrt_i128, lemma_mul_bound_abs, lemma_tdiv_bound, tdiv, SCALE,
};
use crate::hittable::{range_wf, Hittable};
use crate::objects::{
    spec_sphere_disc, spec_sphere_h, Sphere, C_CAP, DISC_CAP, H_CAP, RR_CAP, SQ_CAP, T_RAW_CAP,
};
use crate::random::random_on_hemisphere;
use crate::vec3::{
    lemma_dot_bound, lemma_dot_self_nonneg, spec_dot, spec_v3, Dir3, Vec3, POS_MAX,
};
use std::ops::Range;
use vstd::arithmetic::div_mod::lemma_div_multiples_vanish;
use vstd::prelude::*;

verus! {

/// Largest ray-parameter magnitude the geometry accepts; queries clamp their
/// valid range inside `[-T_MAX, T_MAX]`.
pub const T_MAX: i64 = 10_000_000_000;

/// A half-line: all points `origin + t * direction`.
#[derive(Clone, Copy, Debug, PartialEq, Eq, Structural)]
pub struct Ray {
    pub origin: Vec3,
    pub direction: Dir3,
}

/// The point a ray reaches after parameter `t`: each coordinate advances by
/// `t * d / SCALE`, truncated.
pub open spec fn spec_at(ray: Ray, t: int) -> Vec3 {
    spec_v3(
        ray.origin.x + tdiv(t * ray.direction.vec().x, SCALE as int),
        ray.origin.y + tdiv(t * ray.direction.vec().y, SCALE as int),
        ray.origin.z + tdiv(t * ray.direction.vec().z, SCALE as int),
    )
}

/// The background gradient: white at the horizon's floor (`y == -SCALE`),
/// sky blue at the zenith (`y == SCALE`), blended linearly in between.
pub open spec fn spec_sky_color(ray: Ray) -> LinearColor {
    spec_color_mix(spec_white(), spec_sky_blue(), (ray.direction.vec().y + SCALE as int) / 2)
}

impl Ray {
    /// The direction is well formed and the origin sits inside the
    /// coordinate bound the geometry supports.
    pub open spec fn wf(self) -> bool {
        self.direction.wf() && self.origin.bounded(POS_MAX as int)
    }

    /// A ray from an origin along a direction.
    pub fn new(origin: Vec3, direction: Dir3) -> (r: Ray)
        ensures
            r.origin == origin,
            r.direction == direction,
    {
        Ray { origin, direction }
    }

    /// The ray's direction.
    pub fn direction(&self) -> (d: Dir3)
        ensures
            d == self.direction,
    {
        self.direction
    }

    /// The ray's origin.
    pub fn origin(&self) -> (o: Vec3)
        ensures
            o == self.origin,
    {
        self.origin
    }

    /// Whether a normal points the same general way as this ray: their dot
    /// product is strictly positive.
    pub fn facing_same_general_direction(&self, normal: Dir3) -> (r: bool)
        requires
            self.direction.wf(),
            normal.wf(),
        ensures
            r == (spec_dot(self.direction.vec(), normal.vec()) > 0),
    {
        let d = self.direction.as_vec3();
        let n = normal.as_vec3();
        d.dot(n) > 0
    }

    /// A position some distance along the ray; exactly [`spec_at`].
    pub fn at(&self, t: i64) -> (p: Vec3)
        requires
            self.direction.wf(),
            self.origin.bounded(i64::MAX - T_MAX as int),
            abs_val(t as int) <= T_MAX as int,
        ensures
            p == spec_at(*self, t as int),
            abs_val(p.x as int) <= abs_val(self.origin.x as int) + T_MAX,
            abs_val(p.y as int) <= abs_val(self.origin.y as int) + T_MAX,
            abs_val(p.z as int) <= abs_val(self.origin.z as int) + T_MAX,
    {
        let d = self.direction.as_vec3();
        proof {
            lemma_at_step_bound(t as int, d.x as int);
            lemma_at_step_bound(t as int, d.y as int);
            lemma_at_step_bound(t as int, d.z as int);
        }
        let sx: i64 = div_trunc((t as i128) * (d.x as i128), SCALE as i128) as i64;
        let sy: i64 = div_trunc((t as i128) * (d.y as i128), SCALE as i128) as i64;
        let sz: i64 = div_trunc((t as i128) * (d.z as i128), SCALE as i128) as i64;
        Vec3 { x: self.origin.x + sx, y: self.origin.y + sy, z: self.origin.z + sz }
    }

    /// The sky gradient behind this ray; exactly [`spec_sky_color`]. Looking
    /// straight up gives pure sky blue, straight down pure white.
    pub fn sky_color(&self) -> (c: LinearColor)
        requires
            self.direction.wf(),
        ensures
            c == spec_sky_color(*self),
            c.wf(),
            self.direction.vec().y == SCALE ==> c == spec_sky_blue(),
            self.direction.vec().y == -(SCALE as int) ==> c == spec_white(),
    {
        let y: i64 = self.direction.as_vec3().y;
        let a: i64 = (y + SCALE) / 2;
        let white = LinearColor::white();
        let blue = LinearColor::sky_blue();
        white.mix(blue, a)
    }
}

/// The sky gradient's extremes: a ray looking straight up sees pure sky
/// blue, one looking straight down sees pure white.
pub proof fn lemma_sky_extremes(ray: Ray)
    requires
        ray.direction.wf(),
    ensures
        ray.direction.vec().y == SCALE ==> spec_sky_color(ray) == spec_sky_blue(),
        ray.direction.vec().y == -(SCALE as int) ==> spec_sky_color(ray) == spec_white(),
{
    let a = (ray.direction.vec().y + SCALE as int) / 2;
    crate::color::lemma_color_mix_endpoints(spec_white(), spec_sky_blue(), a);
}

/// The color shown for a hit in the normal-visualization mode: each channel
/// remaps the normal's matching component from `[-SCALE, SCALE]` to
/// `[0, SCALE]`.
pub open spec fn spec_normal_color(h: crate::hittable::Hit) -> LinearColor {
    LinearColor {
        r: (((h.normal.vec().x + SCALE) / 2) as i64),
        g: (((h.normal.vec().y + SCALE) / 2) as i64),
        b: (((h.normal.vec().z + SCALE) / 2) as i64),
    }
}

/// What the single-bounce visualization shows for a ray: the remapped
/// surface normal on a hit, the sky gradient on a miss.
pub open spec fn spec_world_color<W: Hittable>(
    ray: Ray,
    world: W,
    start: int,
    end: int,
) -> LinearColor {
    match world.hit_spec(ray, start, end) {
        Option::Some(h) => spec_normal_color(h),
        Option::None => spec_sky_color(ray),
    }
}

/// The nearer intersection parameter with a single sphere, ignoring any
/// range, with minus one unit standing for a miss.
pub open spec fn spec_hit_sphere(ray: Ray, s: Sphere) -> int {
    if spec_sphere_disc(s, ray) < 0 {
        -(SCALE as int)
    } else {
        tdiv(
            spec_sphere_h(s, ray) - crate::fixed::isqrt_spec(spec_sphere_disc(s, ray)),
            SCALE as int,
        )
    }
}

impl Ray {
    /// Render this ray against a world: remapped normal colors on a hit,
    /// sky behind a miss; exactly [`spec_world_color`].
    pub fn world_color<W: Hittable>(&self, world: &W, range: Range<i64>) -> (c: LinearColor)
        requires
            world.wf(),
            self.wf(),
            range_wf(range.start as int, range.end as int),
        ensures
            c == spec_world_color(*self, *world, range.start as int, range.end as int),
            c.wf(),
    {
        match world.hit(self, range) {
            Some(hit) => {
                let n = hit.normal.as_vec3();
                LinearColor {
                    r: (n.x + SCALE) / 2,
                    g: (n.y + SCALE) / 2,
                    b: (n.z + SCALE) / 2,
                }
            },
            None => self.sky_color(),
        }
    }

    /// Diffuse-only recursive shading: bounce off every hit toward a random
    /// hemisphere direction, halving the light each time; sky on a miss,
    /// black when the bounce budget runs out.
    pub fn world_color_bounce<W: Hittable>(
        &self,
        world: &W,
        range: Range<i64>,
        bounce: usize,
    ) -> (c: LinearColor)
        requires
            world.wf(),
            self.direction.wf(),
            bounce <= 100,
            self.origin.bounded(POS_MAX - (bounce as int) * (T_MAX as int)),
            range_wf(range.start as int, range.end as int),
        ensures
            c.wf(),
            bounce == 0 ==> c == spec_black(),
            bounce > 0 && world.hit_spec(*self, range.start as int, range.end as int) is None
                ==> c == spec_sky_color(*self),
            bounce == 1 && world.hit_spec(*self, range.start as int, range.end as int) is Some
                ==> c == spec_black(),
            bounce >= 1 && world.hit_spec(*self, range.start as int, range.end as int) is Some
                ==> c.r <= SCALE / 2 && c.g <= SCALE / 2 && c.b <= SCALE / 2,
        decreases bounce,
    {
        if bounce == 0 {
            return LinearColor::black();
        }
        let start: i64 = range.start;
        let end: i64 = range.end;
        match world.hit(self, range) {
            Some(hit) => {
                let new_dir = random_on_hemisphere(hit.normal);
                let rec = Ray::new(hit.point, new_dir).world_color_bounce(
                    world,
                    start..end,
                    bounce - 1,
                );
                proof {
                    if bounce == 1 {
                        lemma_color_mul_black_left(spec_half_gray());
                    }
                    crate::color::lemma_color_mul_le(rec, spec_half_gray());
                }
                rec.mul(LinearColor { r: 500_000, g: 500_000, b: 500_000 })
            },
            None => self.sky_color(),
        }
    }
}

/// Half intensity on every channel, the per-bounce dimming of the
/// diffuse-only shading mode.
pub open spec fn spec_half_gray() -> LinearColor {
    LinearColor { r: 500_000, g: 500_000, b: 500_000 }
}

impl Ray {
    /// The nearer intersection parameter with a sphere, minus one unit when
    /// the ray's line misses it; exactly [`spec_hit_sphere`].
    pub fn hit_sphere(&self, sphere: &Sphere) -> (t: i64)
        requires
            self.wf(),
            sphere.wf(),
        ensures
            t == spec_hit_sphere(*self, *sphere),
    {
        let d: Vec3 = self.direction.as_vec3();
        let q: Vec3 = sphere.center.sub(self.origin);
        let h: i128 = d.dot(q);
        let qq: i128 = q.dot(q);
        proof {
            lemma_dot_bound(d, q, SCALE as int, 2 * POS_MAX as int);
            lemma_dot_bound(q, q, 2 * POS_MAX as int, 2 * POS_MAX as int);
            lemma_mul_bound_abs(
                sphere.radius as int,
                sphere.radius as int,
                POS_MAX as int,
                POS_MAX as int,
            );
            lemma_dot_self_nonneg(q);
        }
        let rr: i128 = (sphere.radius as i128) * (sphere.radius as i128);
        let c: i128 = qq - rr;
        proof {
            lemma_mul_bound_abs(h as int, h as int, H_CAP as int, H_CAP as int);
            assert((h as int) * (h as int) >= 0) by (nonlinear_arith);
            if c >= 0 {
                lemma_mul_bound_abs(c as int, (SCALE as int) * (SCALE as int), C_CAP as int, (
                SCALE as int) * (SCALE as int));
                assert((c as int) * ((SCALE as int) * (SCALE as int)) >= 0) by (nonlinear_arith)
                    requires c >= 0;
            } else {
                lemma_mul_bound_abs(c as int, (SCALE as int) * (SCALE as int), RR_CAP as int, (
                SCALE as int) * (SCALE as int));
            }
        }
        let disc: i128 = h * h - c * ((SCALE as i128) * (SCALE as i128));
        if disc < 0 {
            -SCALE
        } else {
            let sq: i128 = isqrt_i128(disc);
            proof {
                assert(sq <= SQ_CAP as int) by (nonlinear_arith)
                    requires
                        0 <= sq,
                        sq * sq <= disc,
                        disc <= DISC_CAP as int,
                        (SQ_CAP as int) * (SQ_CAP as int) > DISC_CAP as int,
                ;
                assert((SQ_CAP as int) * (SQ_CAP as int) > DISC_CAP as int);
                lemma_tdiv_bound(h - sq, SCALE as int, T_RAW_CAP as int);
                assert((T_RAW_CAP as int) / (SCALE as int) == 26_000_000_000_000);
            }
            div_trunc(h - sq, SCALE as i128) as i64
        }
    }
}

/// One coordinate's advance along a direction component stays within the
/// parameter bound.
proof fn lemma_at_step_bound(t: int, d: int)
    requires
        abs_val(t) <= T_MAX as int,
        abs_val(d) <= SCALE as int,
    ensures
        abs_val(tdiv(t * d, SCALE as int)) <= T_MAX as int,
{
    crate::fixed::lemma_mul_bound_abs(t, d, T_MAX as int, SCALE as int);
    lemma_tdiv_bound(t * d, SCALE as int, (T_MAX as int) * (SCALE as int));
    assert((T_MAX as int) * (SCALE as int) == (SCALE as int) * (T_MAX as int)) by (nonlinear_arith);
    lemma_div_multiples_vanish(T_MAX as int, SCALE as int);
}

} // verus!
