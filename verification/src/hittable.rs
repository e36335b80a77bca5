//! Hit records, the hit-testing contract, and the aggregate world scan.

use crate::fixed::abs_val;
use crate::material::Material;
use crate::objects::{
    lemma_sphere_hit_in_range, lemma_sphere_hit_narrow, spec_sphere_hit, Sphere,
};
use crate::ray::{Ray, T_MAX};
use crate::vec3::{spec_dot, Dir3, Vec3};
use std::ops::Range;
use vstd::prelude::*;

verus! {

/// One intersection of a ray with a surface.
#[derive(Clone, Copy, Debug, PartialEq, Eq, Structural)]
pub struct Hit {
    /// Where the ray met the surface.
    pub point: Vec3,
    /// The surface normal, always turned against the incoming ray: outward
    /// if the ray arrived from outside the solid, inward if from inside.
    pub normal: Dir3,
    /// True exactly when the geometric outward normal already opposed the
    /// ray, that is, the ray arrived from outside.
    pub front_face: bool,
    /// The ray parameter of the intersection.
    pub distance: i64,
    /// The material worn by the surface that was hit.
    pub material: Material,
}

/// A valid query range: both ends within the supported parameter band.
pub open spec fn range_wf(start: int, end: int) -> bool {
    -(T_MAX as int) <= start <= T_MAX as int && -(T_MAX as int) <= end <= T_MAX as int
}

/// What every produced hit guarantees: a well-formed normal that opposes the
/// incoming ray, a well-formed material, a distance inside the queried
/// range, and a point within one parameter bound of the ray's origin.
pub open spec fn hit_within(ray: Ray, start: int, end: int, r: Option<Hit>) -> bool {
    match r {
        Option::None => true,
        Option::Some(h) => h.normal.wf() && h.material.wf() && start <= h.distance < end
            && abs_val(h.point.x as int) <= abs_val(ray.origin.x as int) + T_MAX as int && abs_val(
            h.point.y as int,
        ) <= abs_val(ray.origin.y as int) + T_MAX as int && abs_val(h.point.z as int) <= abs_val(
            ray.origin.z as int,
        ) + T_MAX as int && spec_dot(ray.direction.vec(), h.normal.vec()) <= 0 && (h.front_face
            ==> spec_dot(ray.direction.vec(), h.normal.vec()) < 0),
    }
}

/// Anything a ray can intersect. Each implementor fixes its own exact
/// mathematical hit function; the executable test must compute exactly that,
/// and every hit it reports satisfies [`hit_within`].
pub trait Hittable {
    /// The shape's data is well formed.
    spec fn wf(&self) -> bool;

    /// The exact mathematical meaning of `hit`.
    spec fn hit_spec(&self, ray: Ray, start: int, end: int) -> Option<Hit>;

    /// The nearest intersection within `t_range`, if any; the range is
    /// half-open, admitting its start but not its end, for every implementor
    /// alike.
    fn hit(&self, ray: &Ray, t_range: Range<i64>) -> (r: Option<Hit>)
        requires
            self.wf(),
            ray.wf(),
            range_wf(t_range.start as int, t_range.end as int),
        ensures
            r == self.hit_spec(*ray, t_range.start as int, t_range.end as int),
            hit_within(*ray, t_range.start as int, t_range.end as int, r),
    ;
}

/// The state of the world scan after some prefix of the spheres: scan the
/// rest, narrowing the range's end to each hit found.
pub open spec fn spec_world_hit_loop(
    objs: Seq<Sphere>,
    i: int,
    ray: Ray,
    start: int,
    end: int,
    best: Option<Hit>,
) -> Option<Hit>
    decreases objs.len() - i,
{
    if i < 0 || i >= objs.len() {
        best
    } else {
        match spec_sphere_hit(objs[i], ray, start, end) {
            Option::Some(h) => spec_world_hit_loop(
                objs,
                i + 1,
                ray,
                start,
                h.distance as int,
                Option::Some(h),
            ),
            Option::None => spec_world_hit_loop(objs, i + 1, ray, start, end, best),
        }
    }
}

/// The exact meaning of the aggregate hit search over a sequence of spheres.
pub open spec fn spec_world_hit(objs: Seq<Sphere>, ray: Ray, start: int, end: int) -> Option<Hit> {
    spec_world_hit_loop(objs, 0, ray, start, end, Option::None)
}

/// The world scan's induction: from any mid-scan state whose range end
/// matches the best hit found so far, the scan ends on the closest hit among
/// that best one and whatever the remaining spheres report under the range
/// current at this point.
#[verifier::rlimit(100)]
proof fn lemma_world_loop_closest(
    objs: Seq<Sphere>,
    i: int,
    ray: Ray,
    start: int,
    end: int,
    best: Option<Hit>,
)
    requires
        0 <= i <= objs.len(),
        range_wf(start, end),
        match best {
            Option::Some(b) => b.distance == end,
            Option::None => true,
        },
    ensures
        ({
            let r = spec_world_hit_loop(objs, i, ray, start, end, best);
            &&& (r is None ==> best is None && (forall|j: int|
                i <= j < objs.len() ==> #[trigger] spec_sphere_hit(objs[j], ray, start, end)
                    is None))
            &&& (r matches Option::Some(h) ==> {
                &&& h.distance <= end
                &&& (best == Option::Some(h) || (exists|j: int|
                    i <= j < objs.len() && #[trigger] spec_sphere_hit(objs[j], ray, start, end)
                        == Option::Some(h)))
                &&& (forall|j: int|
                    i <= j < objs.len() ==> match #[trigger] spec_sphere_hit(
                        objs[j],
                        ray,
                        start,
                        end,
                    ) {
                        Option::Some(g) => h.distance <= g.distance,
                        Option::None => true,
                    })
            })
        }),
    decreases objs.len() - i,
{
    if i == objs.len() {
    } else {
        match spec_sphere_hit(objs[i], ray, start, end) {
            Option::Some(g) => {
                lemma_sphere_hit_in_range(objs[i], ray, start, end);
                let e2 = g.distance as int;
                lemma_world_loop_closest(objs, i + 1, ray, start, e2, Option::Some(g));
                let r = spec_world_hit_loop(objs, i + 1, ray, start, e2, Option::Some(g));
                assert(r is Some);
                let h = r->0;
                if Option::Some(h) != Option::Some(g) {
                    let jw = choose|j: int|
                        i + 1 <= j < objs.len() && #[trigger] spec_sphere_hit(
                            objs[j],
                            ray,
                            start,
                            e2,
                        ) == Option::Some(h);
                    lemma_sphere_hit_narrow(objs[jw], ray, start, end, e2);
                    assert(spec_sphere_hit(objs[jw], ray, start, end) == Option::Some(h));
                }
                assert forall|j: int| i <= j < objs.len() implies match #[trigger] spec_sphere_hit(
                    objs[j],
                    ray,
                    start,
                    end,
                ) {
                    Option::Some(gg) => h.distance <= gg.distance,
                    Option::None => true,
                } by {
                    if j == i {
                    } else {
                        lemma_sphere_hit_narrow(objs[j], ray, start, end, e2);
                    }
                }
            },
            Option::None => {
                lemma_world_loop_closest(objs, i + 1, ray, start, end, best);
            },
        }
    }
}

/// The aggregate hit search reports the closest per-primitive hit: it comes
/// up empty exactly when every sphere does, and otherwise its answer is one
/// of the per-primitive hits, at a distance no per-primitive hit undercuts —
/// whatever order the spheres stand in.
pub proof fn lemma_world_hit_closest(objs: Seq<Sphere>, ray: Ray, start: int, end: int)
    requires
        range_wf(start, end),
    ensures
        spec_world_hit(objs, ray, start, end) is None ==> (forall|j: int|
            0 <= j < objs.len() ==> #[trigger] spec_sphere_hit(objs[j], ray, start, end) is None),
        spec_world_hit(objs, ray, start, end) matches Option::Some(h) ==> {
            &&& (exists|j: int|
                0 <= j < objs.len() && #[trigger] spec_sphere_hit(objs[j], ray, start, end)
                    == Option::Some(h))
            &&& (forall|j: int|
                0 <= j < objs.len() ==> match #[trigger] spec_sphere_hit(objs[j], ray, start, end) {
                    Option::Some(g) => h.distance <= g.distance,
                    Option::None => true,
                })
        },
{
    lemma_world_loop_closest(objs, 0, ray, start, end, Option::None);
}

/// A world with nothing in it never reports a hit: every ray shows only the
/// background.
pub proof fn lemma_empty_world_misses(w: Hittables, ray: Ray, start: int, end: int)
    requires
        w.objects@.len() == 0,
    ensures
        w.hit_spec(ray, start, end) is None,
{
}

/// An ordered collection of primitives, scanned linearly for the nearest hit.
pub struct Hittables {
    pub objects: Vec<Sphere>,
}

impl Hittables {
    /// An empty world.
    pub fn new() -> (w: Hittables)
        ensures
            w.objects@ == Seq::<Sphere>::empty(),
    {
        Hittables { objects: Vec::new() }
    }

    /// Append a primitive to the scan order.
    pub fn add(&mut self, object: Sphere)
        ensures
            final(self).objects@ == old(self).objects@.push(object),
    {
        self.objects.push(object);
    }
}

impl Default for Hittables {
    /// The empty world.
    fn default() -> (w: Hittables)
        ensures
            w.objects@ == Seq::<Sphere>::empty(),
    {
        Hittables { objects: Vec::new() }
    }
}

impl Hittable for Hittables {
    /// Every sphere in the world is well formed.
    open spec fn wf(&self) -> bool {
        forall|i: int| 0 <= i < self.objects@.len() ==> (#[trigger] self.objects@[i]).wf()
    }

    open spec fn hit_spec(&self, ray: Ray, start: int, end: int) -> Option<Hit> {
        spec_world_hit(self.objects@, ray, start, end)
    }

    /// Scan every primitive, narrowing the valid range to the closest hit
    /// found so far; one pass reports the nearest intersection.
    fn hit(&self, ray: &Ray, t_range: Range<i64>) -> (r: Option<Hit>) {
        let start: i64 = t_range.start;
        let end0: i64 = t_range.end;
        let mut end: i64 = end0;
        let mut closest_hit: Option<Hit> = None;
        let n: usize = self.objects.len();
        let mut idx: usize = 0;
        while idx < n
            invariant
                0 <= idx <= n,
                n == self.objects@.len(),
                self.wf(),
                ray.wf(),
                range_wf(start as int, end0 as int),
                range_wf(start as int, end as int),
                closest_hit is None ==> end == end0,
                closest_hit matches Option::Some(b) ==> end == b.distance,
                hit_within(*ray, start as int, end0 as int, closest_hit),
                spec_world_hit(self.objects@, *ray, start as int, end0 as int)
                    == spec_world_hit_loop(
                    self.objects@,
                    idx as int,
                    *ray,
                    start as int,
                    end as int,
                    closest_hit,
                ),
            decreases n - idx,
        {
            let s: Sphere = self.objects[idx];
            if let Some(h) = s.hit(ray, start..end) {
                end = h.distance;
                closest_hit = Some(h);
            }
            idx = idx + 1;
        }
        closest_hit
    }
}

} // verus!
