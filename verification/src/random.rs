//! Random direction sampling for diffuse scatter and reflection fuzz.

use crate::fixed::SCALE;
use crate::vec3::{lemma_dot_comm, lemma_dot_neg, spec_dot, Dir3, Vec3};
use vstd::prelude::*;

verus! {

/// Relies on `rand::random`: a machine integer drawn from the thread-local
/// generator. Nothing is assumed about the value.
#[verifier::external_body]
fn random_u64() -> u64 {
    rand::random()
}

/// One coordinate drawn uniformly from `[-SCALE, SCALE]`.
fn random_coord() -> (c: i64)
    ensures
        -SCALE <= c <= SCALE,
{
    let raw: u64 = random_u64() % 2_000_001;
    (raw as i64) - SCALE
}

/// A sub-pixel jitter offset, uniform over `[-SCALE/2, SCALE/2)`.
pub fn random_jitter() -> (j: i64)
    ensures
        -500_000 <= j < 500_000,
{
    let raw: u64 = random_u64() % 1_000_000;
    (raw as i64) - 500_000
}

/// A random direction on the unit sphere: sample the cube until the point
/// falls inside the unit ball (which a handful of tries all but guarantees),
/// then normalize; if every try misses, fall back to an axis so the result
/// is always a well-formed direction. Which direction comes out is chance.
pub fn random_on_sphere() -> (d: Dir3)
    ensures
        d.wf(),
{
    let s: i128 = SCALE as i128;
    proof {
        assert(s == 1_000_000);
    }
    let unit2: i128 = s * s;
    let mut tries: usize = 0;
    while tries < 16
        invariant
            tries <= 16,
        decreases 16 - tries,
    {
        let v = Vec3 { x: random_coord(), y: random_coord(), z: random_coord() };
        let n2: i128 = v.dot(v);
        if 0 < n2 && n2 <= unit2 {
            return Dir3::new(v);
        }
        tries = tries + 1;
    }
    Dir3::new(Vec3 { x: 0, y: 0, z: SCALE })
}

/// A random direction on the hemisphere around a normal: sample the sphere
/// and flip the sample if it points against the normal. Every outcome is a
/// well-formed direction on the normal's side.
pub fn random_on_hemisphere(normal: Dir3) -> (d: Dir3)
    requires
        normal.wf(),
    ensures
        d.wf(),
        spec_dot(d.vec(), normal.vec()) >= 0,
{
    let unit_sphere = random_on_sphere();
    if unit_sphere.as_vec3().dot(normal.as_vec3()) > 0 {
        unit_sphere
    } else {
        proof {
            lemma_dot_comm(unit_sphere.vec(), normal.vec());
            lemma_dot_neg(normal.vec(), unit_sphere.vec());
            lemma_dot_comm(normal.vec(), crate::vec3::spec_neg(unit_sphere.vec()));
        }
        unit_sphere.neg()
    }
}

} // verus!
