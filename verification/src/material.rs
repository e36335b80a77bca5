//! Surface materials: diffuse, reflective and refractive scattering.
//!
//! The material set is a closed enumeration dispatched by one `scatter`
//! operation; a material is an immutable value, freely copied wherever a
//! primitive needs it.

use crate::color::LinearColor;
use crate::fixed::{
    abs_val, clamp_fp, div_trunc, isqrt_i128, isqrt_spec, lemma_isqrt_square, lemma_mul_bound_abs,
    lemma_tdiv_bound, lemma_tdiv_multiple, spec_clamp, tdiv, SCALE,
};
use crate::hittable::Hit;
use crate::random::random_on_sphere;
use crate::ray::Ray;
use crate::vec3::{
    dir_from, lemma_dot_bound, lemma_dot_comm, lemma_dot_neg, spec_dot, spec_neg, spec_normalize,
    spec_v3, Dir3, Vec3,
};
use vstd::arithmetic::div_mod::lemma_div_of0;
use vstd::prelude::*;

verus! {

/// Smallest supported refractive index, a quarter unit.
pub const ETA_MIN: i64 = 250_000;

/// Largest supported refractive index, four units.
pub const ETA_MAX: i64 = 4_000_000;

/// A diffuse surface: always scatters, tinting by its albedo.
#[derive(Clone, Copy, Debug, PartialEq, Eq, Structural)]
pub struct Lambertian {
    pub color: LinearColor,
}

impl Lambertian {
    /// The albedo is a valid color.
    pub open spec fn wf(self) -> bool {
        self.color.wf()
    }

    /// A diffuse material from linear channel intensities.
    pub fn linear_rgb(red: i64, green: i64, blue: i64) -> (m: Lambertian)
        requires
            0 <= red <= SCALE,
            0 <= green <= SCALE,
            0 <= blue <= SCALE,
        ensures
            m.color == (LinearColor { r: red, g: green, b: blue }),
            m.wf(),
    {
        Lambertian { color: LinearColor { r: red, g: green, b: blue } }
    }
}

/// A reflective surface with a roughness (`fuzz`) in `[0, SCALE]`.
#[derive(Clone, Copy, Debug, PartialEq, Eq, Structural)]
pub struct Metal {
    pub color: LinearColor,
    pub fuzz: i64,
}

impl Metal {
    /// Valid albedo; fuzz held inside `[0, SCALE]`.
    pub open spec fn wf(self) -> bool {
        self.color.wf() && 0 <= self.fuzz <= SCALE
    }

    /// A metallic material with a given fuzz factor; the fuzz is clamped
    /// into `[0, SCALE]`, so the invariant holds however it was asked for.
    pub fn new(color: LinearColor, fuzz: i64) -> (m: Metal)
        requires
            color.wf(),
        ensures
            m.color == color,
            m.fuzz == spec_clamp(fuzz as int, 0, SCALE as int),
            m.wf(),
    {
        Metal { color, fuzz: clamp_fp(fuzz, 0, SCALE) }
    }

    /// A polished metal (no fuzz) from linear channel intensities.
    pub fn linear_rgb(red: i64, green: i64, blue: i64) -> (m: Metal)
        requires
            0 <= red <= SCALE,
            0 <= green <= SCALE,
            0 <= blue <= SCALE,
        ensures
            m.color == (LinearColor { r: red, g: green, b: blue }),
            m.fuzz == 0,
            m.wf(),
    {
        Metal { color: LinearColor { r: red, g: green, b: blue }, fuzz: 0 }
    }
}

/// A refractive surface with a refractive index relative to air.
#[derive(Clone, Copy, Debug, PartialEq, Eq, Structural)]
pub struct Dielectric {
    pub color: LinearColor,
    pub refractive_index: i64,
}

impl Dielectric {
    /// Valid albedo; index within the supported band.
    pub open spec fn wf(self) -> bool {
        self.color.wf() && ETA_MIN <= self.refractive_index <= ETA_MAX
    }

    /// A clear refractive material with the given index.
    pub fn refraction_index(index: i64) -> (m: Dielectric)
        requires
            ETA_MIN <= index <= ETA_MAX,
        ensures
            m.color == (LinearColor { r: SCALE, g: SCALE, b: SCALE }),
            m.refractive_index == index,
            m.wf(),
    {
        Dielectric {
            color: LinearColor { r: SCALE, g: SCALE, b: SCALE },
            refractive_index: index,
        }
    }

    /// A tinted refractive material; the index defaults to one and a half.
    pub fn linear_rgb(red: i64, green: i64, blue: i64) -> (m: Dielectric)
        requires
            0 <= red <= SCALE,
            0 <= green <= SCALE,
            0 <= blue <= SCALE,
        ensures
            m.color == (LinearColor { r: red, g: green, b: blue }),
            m.refractive_index == 1_500_000,
            m.wf(),
    {
        Dielectric {
            color: LinearColor { r: red, g: green, b: blue },
            refractive_index: 1_500_000,
        }
    }
}

/// A material's response to a hit: the outgoing ray and the color the
/// bounce is tinted by.
#[derive(Clone, Copy, Debug, PartialEq, Eq, Structural)]
pub struct Scattering {
    /// The ray in the scatter direction.
    pub ray: Ray,
    pub attenuation: LinearColor,
}

/// The raw mirror reflection `d - 2 (d . n) n`, scales aligned and each
/// component truncated.
pub open spec fn spec_reflect(d: Vec3, n: Vec3) -> Vec3 {
    let s2 = (SCALE as int) * (SCALE as int);
    let h = spec_dot(d, n);
    spec_v3(
        d.x - tdiv(2 * h * n.x, s2),
        d.y - tdiv(2 * h * n.y, s2),
        d.z - tdiv(2 * h * n.z, s2),
    )
}

/// The raw refraction of `d` at a surface with normal `n` and relative
/// index `eta` (scale `SCALE`): with `cos` the clamped opposing dot product,
/// the outgoing vector is `eta (d + cos n) - n sqrt(1 - eta^2 (1 - cos^2))`,
/// all at matching scales with one floor square root; a negative square-root
/// argument (total internal reflection, which this simplified model does not
/// handle) is clamped to zero, grazing the surface.
pub open spec fn spec_refract_raw(d: Vec3, n: Vec3, eta: int) -> Vec3 {
    let s2 = (SCALE as int) * (SCALE as int);
    let dotv = spec_dot(spec_neg(d), n);
    let c2r = if dotv > s2 {
        s2
    } else {
        dotv
    };
    let k = s2 * s2 * s2 - eta * eta * (s2 * s2 - c2r * c2r);
    let sq = isqrt_spec(k);
    spec_v3(
        tdiv(eta * (d.x * s2 + n.x * c2r) - n.x * sq, s2 * SCALE),
        tdiv(eta * (d.y * s2 + n.y * c2r) - n.y * sq, s2 * SCALE),
        tdiv(eta * (d.z * s2 + n.z * c2r) - n.z * sq, s2 * SCALE),
    )
}

/// The relative refractive index: entering the solid from outside uses the
/// inverse of its index, leaving it uses the index itself.
pub open spec fn spec_eta(m: Dielectric, front_face: bool) -> int {
    if front_face {
        tdiv((SCALE as int) * (SCALE as int), m.refractive_index as int)
    } else {
        m.refractive_index as int
    }
}

/// What a dielectric scatters to: deterministic, always refracting.
pub open spec fn spec_dielectric_scatter(m: Dielectric, ray: Ray, hit: Hit) -> Option<Scattering> {
    Option::Some(
        Scattering {
            ray: Ray {
                origin: hit.point,
                direction: dir_from(
                    spec_normalize(
                        spec_refract_raw(
                            ray.direction.vec(),
                            hit.normal.vec(),
                            spec_eta(m, hit.front_face),
                        ),
                    ),
                ),
            },
            attenuation: m.color,
        },
    )
}

/// What a fuzzless metal scatters to: deterministic, the normalized mirror
/// reflection — or absorption when that reflection dips below the surface.
/// In exact real arithmetic a mirror of an opposing ray always clears the
/// surface; under truncation a raw-grazing reflection can land on or below
/// it, and then the absorption branch applies, as it does for fuzzed rays.
pub open spec fn spec_metal_mirror(m: Metal, ray: Ray, hit: Hit) -> Option<Scattering> {
    let nr = spec_normalize(spec_reflect(ray.direction.vec(), hit.normal.vec()));
    if spec_dot(hit.normal.vec(), nr) > 0 {
        Option::Some(
            Scattering {
                ray: Ray { origin: hit.point, direction: dir_from(spec_normalize(nr)) },
                attenuation: m.color,
            },
        )
    } else {
        Option::None
    }
}

impl Dir3 {
    /// Mirror this direction about a normal; the result is the normalized
    /// raw reflection.
    pub fn reflect(&self, normal: Dir3) -> (r: Dir3)
        requires
            self.wf(),
            normal.wf(),
        ensures
            r == dir_from(spec_normalize(spec_reflect(self.vec(), normal.vec()))),
            r.vec() == spec_normalize(spec_reflect(self.vec(), normal.vec())),
            r.wf(),
    {
        let me_v3 = self.as_vec3();
        let n_v3 = normal.as_vec3();
        let h: i128 = me_v3.dot(n_v3);
        proof {
            lemma_dot_bound(me_v3, n_v3, SCALE as int, SCALE as int);
            lemma_reflect_step_bound(h as int, n_v3.x as int);
            lemma_reflect_step_bound(h as int, n_v3.y as int);
            lemma_reflect_step_bound(h as int, n_v3.z as int);
        }
        let s2: i128 = (SCALE as i128) * (SCALE as i128);
        let v = Vec3 {
            x: me_v3.x - div_trunc(2 * h * (n_v3.x as i128), s2) as i64,
            y: me_v3.y - div_trunc(2 * h * (n_v3.y as i128), s2) as i64,
            z: me_v3.z - div_trunc(2 * h * (n_v3.z as i128), s2) as i64,
        };
        Dir3::new(v)
    }

    /// Refract this direction through a surface with the given normal and
    /// relative index; the result is the normalized raw refraction.
    pub fn refract(&self, normal: Dir3, eta: i64) -> (r: Dir3)
        requires
            self.wf(),
            normal.wf(),
            ETA_MIN <= eta <= ETA_MAX,
        ensures
            r == dir_from(spec_normalize(spec_refract_raw(self.vec(), normal.vec(), eta as int))),
            r.vec() == spec_normalize(spec_refract_raw(self.vec(), normal.vec(), eta as int)),
            r.wf(),
    {
        let i = self.as_vec3();
        let n = normal.as_vec3();
        let neg_i = i.neg();
        let mut c2r: i128 = neg_i.dot(n);
        proof {
            lemma_dot_bound(neg_i, n, SCALE as int, SCALE as int);
        }
        let s2: i128 = (SCALE as i128) * (SCALE as i128);
        if c2r > s2 {
            c2r = s2;
        }
        let e: i128 = eta as i128;
        proof {
            let ei = e as int;
            let c2ri = c2r as int;
            let s2i = s2 as int;
            assert(c2ri * c2ri >= 0) by (nonlinear_arith);
            lemma_mul_bound_abs(c2ri, c2ri, 3 * s2i, 3 * s2i);
            assert((3 * s2i) * (3 * s2i) == 9 * (s2i * s2i)) by (nonlinear_arith);
            lemma_mul_bound_abs(ei, ei, ETA_MAX as int, ETA_MAX as int);
            lemma_mul_bound_abs(
                ei * ei,
                s2i * s2i - c2ri * c2ri,
                (ETA_MAX as int) * (ETA_MAX as int),
                8 * (s2i * s2i),
            );
        }
        let k: i128 = s2 * s2 * s2 - e * e * (s2 * s2 - c2r * c2r);
        let kk: i128 = if k < 0 {
            0
        } else {
            k
        };
        let sq: i128 = isqrt_i128(kk);
        proof {
            assert(isqrt_spec(kk as int) == isqrt_spec(k as int)) by {
                if k < 0 {
                    assert(isqrt_spec(0) == 0);
                }
            }
            assert(sq <= REFRACT_SQ_CAP as int) by (nonlinear_arith)
                requires
                    0 <= sq,
                    sq * sq <= kk,
                    kk <= REFRACT_K_CAP as int,
                    (REFRACT_SQ_CAP as int) * (REFRACT_SQ_CAP as int) > REFRACT_K_CAP as int,
            ;
            assert((REFRACT_SQ_CAP as int) * (REFRACT_SQ_CAP as int) > REFRACT_K_CAP as int);
            lemma_refract_comp_bound(i.x as int, n.x as int, c2r as int, e as int, sq as int);
            lemma_refract_comp_bound(i.y as int, n.y as int, c2r as int, e as int, sq as int);
            lemma_refract_comp_bound(i.z as int, n.z as int, c2r as int, e as int, sq as int);
        }
        let s3: i128 = s2 * (SCALE as i128);
        let v = Vec3 {
            x: div_trunc(e * ((i.x as i128) * s2 + (n.x as i128) * c2r) - (n.x as i128) * sq, s3)
                as i64,
            y: div_trunc(e * ((i.y as i128) * s2 + (n.y as i128) * c2r) - (n.y as i128) * sq, s3)
                as i64,
            z: div_trunc(e * ((i.z as i128) * s2 + (n.z as i128) * c2r) - (n.z as i128) * sq, s3)
                as i64,
        };
        Dir3::new(v)
    }
}

/// One reflection step `2 h n / SCALE^2` stays within a few units.
proof fn lemma_reflect_step_bound(h: int, nc: int)
    requires
        abs_val(h) <= 3 * ((SCALE as int) * (SCALE as int)),
        abs_val(nc) <= SCALE as int,
    ensures
        abs_val(tdiv(2 * h * nc, (SCALE as int) * (SCALE as int))) <= 6 * (SCALE as int),
{
    let s2 = (SCALE as int) * (SCALE as int);
    lemma_mul_bound_abs(2 * h, nc, 6 * s2, SCALE as int);
    lemma_tdiv_bound(2 * h * nc, s2, (6 * s2) * (SCALE as int));
    assert((6 * s2) * (SCALE as int) == s2 * (6 * (SCALE as int))) by (nonlinear_arith);
    vstd::arithmetic::div_mod::lemma_div_multiples_vanish(6 * (SCALE as int), s2);
}

/// One refraction component, before the final scale-down, stays within the
/// wide-integer budget, and the scaled-down component within a few dozen
/// units.
proof fn lemma_refract_comp_bound(ic: int, nc: int, c2r: int, e: int, sq: int)
    requires
        abs_val(ic) <= SCALE as int,
        abs_val(nc) <= SCALE as int,
        abs_val(c2r) <= 3 * ((SCALE as int) * (SCALE as int)),
        0 < e <= ETA_MAX as int,
        0 <= sq <= REFRACT_SQ_CAP as int,
    ensures
        abs_val(nc * c2r) <= 3 * ((SCALE as int) * (SCALE as int) * (SCALE as int)),
        abs_val(nc * sq) <= 24 * ((SCALE as int) * (SCALE as int) * (SCALE as int) * (
        SCALE as int)),
        abs_val(e * (ic * ((SCALE as int) * (SCALE as int)) + nc * c2r)) <= 16 * ((SCALE as int) * (
        SCALE as int) * (SCALE as int) * (SCALE as int)),
        abs_val(e * (ic * ((SCALE as int) * (SCALE as int)) + nc * c2r) - nc * sq) <= 40 * ((
        SCALE as int) * (SCALE as int) * (SCALE as int) * (SCALE as int)),
        abs_val(
            tdiv(
                e * (ic * ((SCALE as int) * (SCALE as int)) + nc * c2r) - nc * sq,
                (SCALE as int) * (SCALE as int) * (SCALE as int),
            ),
        ) <= 40 * (SCALE as int),
{
    let s = SCALE as int;
    let s2 = s * s;
    let s3 = s2 * s;
    let s4 = s2 * s2;
    assert(abs_val(ic * s2) <= s3) by (nonlinear_arith)
        requires abs_val(ic) <= s, s2 == s * s, s3 == s2 * s, s > 0;
    lemma_mul_bound_abs(nc, c2r, s, 3 * s2);
    assert(s * (3 * s2) == 3 * s3) by (nonlinear_arith)
        requires s3 == s2 * s;
    lemma_mul_bound_abs(e, ic * s2 + nc * c2r, ETA_MAX as int, 4 * s3);
    assert((ETA_MAX as int) * (4 * s3) == 16 * s4) by (nonlinear_arith)
        requires ETA_MAX == 4_000_000i64, s == 1_000_000int, s2 == s * s, s3 == s2 * s, s4 == s2 * s2;
    lemma_mul_bound_abs(nc, sq, s, REFRACT_SQ_CAP as int);
    assert(s * (REFRACT_SQ_CAP as int) <= 24 * s4) by (nonlinear_arith)
        requires
            s == 1_000_000int,
            s2 == s * s,
            s4 == s2 * s2,
            REFRACT_SQ_CAP == 12_000_000_000_000_000_000i128,
    ;
    lemma_tdiv_bound(e * (ic * s2 + nc * c2r) - nc * sq, s3, 40 * s4);
    assert(40 * s4 == s3 * (40 * s)) by (nonlinear_arith)
        requires s2 == s * s, s3 == s2 * s, s4 == s2 * s2;
    vstd::arithmetic::div_mod::lemma_div_multiples_vanish(40 * s, s3);
}

/// Bound on the square-root argument inside refraction.
const REFRACT_K_CAP: i128 = 130_000_000_000_000_000_000_000_000_000_000_000_000;

/// Bound on its square root.
const REFRACT_SQ_CAP: i128 = 12_000_000_000_000_000_000;

impl Lambertian {
    /// Diffuse scatter: bounce from the hit point toward the normal nudged
    /// by a random unit offset. A diffuse surface always scatters, tinted by
    /// its albedo.
    pub fn scatter(&self, _ray: &Ray, hit: &Hit) -> (r: Option<Scattering>)
        requires
            self.wf(),
            hit.normal.wf(),
        ensures
            r is Some,
            r->0.attenuation == self.color,
            r->0.ray.origin == hit.point,
            r->0.ray.direction.wf(),
    {
        let u = random_on_sphere();
        let scatter_dir = hit.normal.as_vec3().add(u.as_vec3());
        let scattered = Ray::new(hit.point, Dir3::new(scatter_dir));
        Some(Scattering { ray: scattered, attenuation: self.color })
    }
}

impl Metal {
    /// Reflective scatter: mirror the incoming direction about the normal,
    /// perturb it by `fuzz` times a random unit offset, and scatter only if
    /// the perturbed direction still leaves the surface on the normal's
    /// side; otherwise the ray is absorbed. With no fuzz the outcome is the
    /// exact mirror reflection, deterministically.
    pub fn scatter(&self, ray: &Ray, hit: &Hit) -> (r: Option<Scattering>)
        requires
            self.wf(),
            ray.direction.wf(),
            hit.normal.wf(),
        ensures
            match r {
                Option::Some(s) => s.attenuation == self.color && s.ray.origin == hit.point
                    && s.ray.direction.wf(),
                Option::None => true,
            },
            self.fuzz == 0 ==> r == spec_metal_mirror(*self, *ray, *hit),
    {
        let scatter_dir: Dir3 = ray.direction().reflect(hit.normal);
        let u = random_on_sphere();
        proof {
            crate::vec3::lemma_scale_unit_bound(u.vec(), self.fuzz as int);
        }
        let fuzzed_dir: Vec3 = scatter_dir.as_vec3().add(u.as_vec3().scale(self.fuzz));
        proof {
            if self.fuzz == 0 {
                lemma_div_of0(SCALE as int);
                assert(u.vec().x * 0 == 0 && u.vec().y * 0 == 0 && u.vec().z * 0 == 0)
                    by (nonlinear_arith);
            }
        }
        if hit.normal.as_vec3().dot(fuzzed_dir) > 0 {
            let scattered = Ray::new(hit.point, Dir3::new(fuzzed_dir));
            Some(Scattering { ray: scattered, attenuation: self.color })
        } else {
            None
        }
    }
}

impl Dielectric {
    /// Refractive scatter: always refracts (no internal-reflection branch),
    /// entering the solid with the inverse relative index and leaving with
    /// the index itself. Deterministic: the outcome is exactly
    /// [`spec_dielectric_scatter`].
    pub fn scatter(&self, ray: &Ray, hit: &Hit) -> (r: Option<Scattering>)
        requires
            self.wf(),
            ray.direction.wf(),
            hit.normal.wf(),
        ensures
            r == spec_dielectric_scatter(*self, *ray, *hit),
            r is Some,
            r->0.attenuation == self.color,
            r->0.ray.origin == hit.point,
            r->0.ray.direction.wf(),
    {
        let eta: i64 = if hit.front_face {
            proof {
                lemma_eta_inverse_in_band(self.refractive_index as int);
            }
            div_trunc((SCALE as i128) * (SCALE as i128), self.refractive_index as i128) as i64
        } else {
            self.refractive_index
        };
        let dir = ray.direction().refract(hit.normal, eta);
        Some(Scattering { ray: Ray::new(hit.point, dir), attenuation: self.color })
    }
}

/// The inverse of an in-band refractive index stays in band.
proof fn lemma_eta_inverse_in_band(index: int)
    requires
        ETA_MIN as int <= index <= ETA_MAX as int,
    ensures
        ETA_MIN as int <= tdiv((SCALE as int) * (SCALE as int), index) <= ETA_MAX as int,
{
    let s2 = (SCALE as int) * (SCALE as int);
    vstd::arithmetic::div_mod::lemma_div_is_ordered_by_denominator(s2, ETA_MIN as int, index);
    assert(s2 / (ETA_MIN as int) == ETA_MAX as int);
    vstd::arithmetic::div_mod::lemma_div_is_ordered_by_denominator(s2, index, ETA_MAX as int);
    assert(s2 / (ETA_MAX as int) == ETA_MIN as int);
}

/// The closed set of materials a primitive can wear.
#[derive(Clone, Copy, Debug, PartialEq, Eq, Structural)]
pub enum Material {
    Lambertian(Lambertian),
    Metal(Metal),
    Dielectric(Dielectric),
}

impl Material {
    /// The variant's own invariant.
    pub open spec fn wf(self) -> bool {
        match self {
            Material::Lambertian(m) => m.wf(),
            Material::Metal(m) => m.wf(),
            Material::Dielectric(m) => m.wf(),
        }
    }

    /// The material's albedo.
    pub open spec fn albedo(self) -> LinearColor {
        match self {
            Material::Lambertian(m) => m.color,
            Material::Metal(m) => m.color,
            Material::Dielectric(m) => m.color,
        }
    }

    /// Scatter an incoming ray at a hit, by the variant's own model. Every
    /// scattered ray starts at the hit point and is tinted by the albedo; a
    /// diffuse surface always scatters, a dielectric deterministically
    /// refracts, and a fuzzless metal deterministically mirrors.
    pub fn scatter(&self, ray: &Ray, hit: &Hit) -> (r: Option<Scattering>)
        requires
            self.wf(),
            ray.direction.wf(),
            hit.normal.wf(),
        ensures
            match r {
                Option::Some(s) => s.attenuation == self.albedo() && s.ray.origin == hit.point
                    && s.ray.direction.wf(),
                Option::None => true,
            },
            self is Lambertian ==> r is Some,
            self matches Material::Metal(m) ==> (m.fuzz == 0 ==> r == spec_metal_mirror(
                *m,
                *ray,
                *hit,
            )),
            self matches Material::Dielectric(m) ==> (r == spec_dielectric_scatter(*m, *ray, *hit)
                && r is Some),
    {
        match self {
            Material::Lambertian(m) => m.scatter(ray, hit),
            Material::Metal(m) => m.scatter(ray, hit),
            Material::Dielectric(m) => m.scatter(ray, hit),
        }
    }
}

/// A refractive index of exactly one unit bends nothing: for any incoming
/// direction whose fixed-point length rounds to exactly one unit and any
/// normal that opposes it — which every reported hit guarantees — the
/// dielectric's scattered direction equals the incoming direction.
pub proof fn lemma_dielectric_identity(m: Dielectric, ray: Ray, hit: Hit)
    requires
        m.refractive_index == SCALE,
        ray.direction.wf(),
        isqrt_spec(spec_dot(ray.direction.vec(), ray.direction.vec())) == SCALE as int,
        hit.normal.wf(),
        spec_dot(ray.direction.vec(), hit.normal.vec()) <= 0,
    ensures
        spec_dielectric_scatter(m, ray, hit)->0.ray.direction == ray.direction,
{
    let d = ray.direction.vec();
    let n = hit.normal.vec();
    let s = SCALE as int;
    let s2 = s * s;
    let s3 = s2 * s;
    let eta = spec_eta(m, hit.front_face);
    assert(eta == s) by {
        lemma_tdiv_multiple(s, s);
    }
    lemma_dot_comm(spec_neg(d), n);
    lemma_dot_neg(n, d);
    lemma_dot_comm(n, d);
    let dotv = spec_dot(spec_neg(d), n);
    assert(dotv >= 0);
    let c2r = if dotv > s2 {
        s2
    } else {
        dotv
    };
    let k = s2 * s2 * s2 - eta * eta * (s2 * s2 - c2r * c2r);
    assert(k == (s * c2r) * (s * c2r)) by (nonlinear_arith)
        requires
            eta == s,
            s2 == s * s,
            k == s2 * s2 * s2 - eta * eta * (s2 * s2 - c2r * c2r),
    ;
    assert(s * c2r >= 0) by (nonlinear_arith)
        requires s > 0, c2r >= 0;
    lemma_isqrt_square(s * c2r);
    let sq = isqrt_spec(k);
    assert(sq == s * c2r);
    assert(eta * (d.x * s2 + n.x * c2r) - n.x * sq == d.x * s3) by (nonlinear_arith)
        requires eta == s, sq == s * c2r, s2 == s * s, s3 == s2 * s;
    assert(eta * (d.y * s2 + n.y * c2r) - n.y * sq == d.y * s3) by (nonlinear_arith)
        requires eta == s, sq == s * c2r, s2 == s * s, s3 == s2 * s;
    assert(eta * (d.z * s2 + n.z * c2r) - n.z * sq == d.z * s3) by (nonlinear_arith)
        requires eta == s, sq == s * c2r, s2 == s * s, s3 == s2 * s;
    lemma_tdiv_multiple(d.x as int, s3);
    lemma_tdiv_multiple(d.y as int, s3);
    lemma_tdiv_multiple(d.z as int, s3);
    assert(spec_refract_raw(d, n, eta) == d);
    assert(spec_normalize(d) == d);
    crate::vec3::lemma_dir_ext(ray.direction);
}

} // verus!
