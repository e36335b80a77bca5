use rt_one::fixed::SCALE;
use rt_one::hittable::{Hittable, Hittables};
use rt_one::material::{Lambertian, Material};
use rt_one::objects::Sphere;
use rt_one::ray::{Ray, T_MAX};
use rt_one::vec3::{Dir3, Vec3};

fn gray() -> Material {
    Material::Lambertian(Lambertian::linear_rgb(500_000, 500_000, 500_000))
}

fn sphere_at(x: i64, y: i64, z: i64, radius: i64) -> Sphere {
    Sphere { center: Vec3 { x, y, z }, radius, material: gray() }
}

fn ray_from_origin(dx: i64, dy: i64, dz: i64) -> Ray {
    Ray::new(Vec3 { x: 0, y: 0, z: 0 }, Dir3::new(Vec3 { x: dx, y: dy, z: dz }))
}

#[test]
fn outside_hit_is_front_face_at_positive_distance() {
    // Straight at a sphere half a unit across, one unit ahead.
    let s = sphere_at(0, 0, -SCALE, SCALE / 2);
    let r = ray_from_origin(0, 0, -SCALE);

    let hit = s.hit(&r, 0..T_MAX).unwrap();
    assert_eq!(hit.distance, 500_000);
    assert!(hit.front_face);
    assert_eq!(hit.point, Vec3 { x: 0, y: 0, z: -500_000 });
    assert_eq!(hit.normal.as_vec3(), Vec3 { x: 0, y: 0, z: SCALE });
}

#[test]
fn perpendicular_ray_misses() {
    // The ray's whole line misses: negative discriminant.
    let s = sphere_at(0, 0, -SCALE, SCALE / 2);
    let r = ray_from_origin(0, SCALE, 0);
    assert!(s.hit(&r, 0..T_MAX).is_none());
}

#[test]
fn sphere_behind_ray_is_not_hit() {
    // The line intersects, but only at negative parameters.
    let s = sphere_at(0, 0, SCALE, SCALE / 2);
    let r = ray_from_origin(0, 0, -SCALE);
    assert!(s.hit(&r, 0..T_MAX).is_none());
}

#[test]
fn normal_opposes_ray_from_inside_too() {
    // Origin on the surface; with the near root excluded, the exit hit is
    // reported as a back face whose normal still opposes the ray.
    let s = sphere_at(0, 0, -500_000, 500_000);
    let r = ray_from_origin(0, 0, -SCALE);

    let hit = s.hit(&r, 1..T_MAX).unwrap();
    assert_eq!(hit.distance, SCALE);
    assert!(!hit.front_face);
    let d = r.direction().as_vec3();
    let n = hit.normal.as_vec3();
    let dot = (d.x as i128) * (n.x as i128) + (d.y as i128) * (n.y as i128) + (d.z as i128)
        * (n.z as i128);
    assert!(dot <= 0);
}

#[test]
fn world_reports_nearest_hit_regardless_of_order() {
    let near = sphere_at(0, 0, -2 * SCALE, SCALE / 2);
    let far = sphere_at(0, 0, -4 * SCALE, SCALE / 2);
    let r = ray_from_origin(0, 0, -SCALE);

    let mut world = Hittables::new();
    world.add(far);
    world.add(near);
    let hit = world.hit(&r, 0..T_MAX).unwrap();
    assert_eq!(hit.distance, 1_500_000);

    let mut world2 = Hittables::new();
    world2.add(near);
    world2.add(far);
    let hit2 = world2.hit(&r, 0..T_MAX).unwrap();
    assert_eq!(hit2.distance, 1_500_000);
}

#[test]
fn empty_world_never_hits() {
    let world = Hittables::default();
    let r = ray_from_origin(0, SCALE, 0);
    assert!(world.hit(&r, 0..T_MAX).is_none());
}

#[test]
fn hit_sphere_gives_near_root_or_minus_one() {
    let s = sphere_at(0, 0, -SCALE, SCALE / 2);
    let toward = ray_from_origin(0, 0, -SCALE);
    assert_eq!(toward.hit_sphere(&s), 500_000);

    let sideways = ray_from_origin(0, SCALE, 0);
    assert_eq!(sideways.hit_sphere(&s), -SCALE);
}

#[test]
fn tangential_graze_is_a_single_root_hit() {
    // Origin on the surface, direction tangential: the discriminant is
    // exactly zero and both roots coincide at the origin itself.
    let s = sphere_at(0, 0, 0, 500_000);
    let r = Ray::new(
        Vec3 { x: 0, y: 500_000, z: 0 },
        Dir3::new(Vec3 { x: SCALE, y: 0, z: 0 }),
    );
    let hit = s.hit(&r, 0..T_MAX).unwrap();
    assert_eq!(hit.distance, 0);
    // Excluding the coincident root leaves nothing.
    assert!(s.hit(&r, 1..T_MAX).is_none());
}

#[test]
fn add_appends_objects() {
    let mut world = Hittables::new();
    assert_eq!(world.objects.len(), 0);
    world.add(sphere_at(0, 0, -SCALE, SCALE / 2));
    assert_eq!(world.objects.len(), 1);
    assert_eq!(world.objects[0].radius, SCALE / 2);
}

#[test]
fn facing_same_general_direction_is_the_dot_sign() {
    let r = ray_from_origin(0, 0, -SCALE);
    let up = Dir3::new(Vec3 { x: 0, y: 0, z: SCALE });
    let down = Dir3::new(Vec3 { x: 0, y: 0, z: -SCALE });
    assert!(!r.facing_same_general_direction(up));
    assert!(r.facing_same_general_direction(down));
}

#[test]
fn at_walks_the_ray() {
    let r = ray_from_origin(0, 0, -SCALE);
    assert_eq!(r.at(2_500_000), Vec3 { x: 0, y: 0, z: -2_500_000 });
    assert_eq!(r.at(0), Vec3 { x: 0, y: 0, z: 0 });
}
