use rt_one::color::LinearColor;
use rt_one::fixed::SCALE;
use rt_one::hittable::Hit;
use rt_one::material::{Dielectric, Lambertian, Material, Metal};
use rt_one::ray::Ray;
use rt_one::vec3::{Dir3, Vec3};

fn hit_with_normal(nx: i64, ny: i64, nz: i64, front_face: bool) -> Hit {
    Hit {
        point: Vec3 { x: 0, y: 0, z: -500_000 },
        normal: Dir3::new(Vec3 { x: nx, y: ny, z: nz }),
        front_face,
        distance: 500_000,
        material: Material::Lambertian(Lambertian::linear_rgb(500_000, 500_000, 500_000)),
    }
}

#[test]
fn lambertian_always_scatters() {
    let m = Lambertian::linear_rgb(100_000, 200_000, 500_000);
    let ray = Ray::new(Vec3 { x: 0, y: 0, z: 0 }, Dir3::new(Vec3 { x: 0, y: 0, z: -SCALE }));
    let hit = hit_with_normal(0, 0, SCALE, true);
    for _ in 0..100 {
        let s = m.scatter(&ray, &hit).unwrap();
        assert_eq!(s.attenuation, LinearColor { r: 100_000, g: 200_000, b: 500_000 });
        assert_eq!(s.ray.origin(), hit.point);
    }
}

#[test]
fn metal_without_fuzz_mirrors_exactly() {
    let m = Metal::linear_rgb(800_000, 800_000, 800_000);
    assert_eq!(m.fuzz, 0);
    // A three-four-five direction: exactly unit length in fixed point.
    let ray = Ray::new(
        Vec3 { x: 0, y: 800_000, z: 0 },
        Dir3::new(Vec3 { x: 600_000, y: -800_000, z: 0 }),
    );
    let hit = hit_with_normal(0, SCALE, 0, true);
    let s = m.scatter(&ray, &hit).unwrap();
    assert_eq!(s.ray.direction().as_vec3(), Vec3 { x: 600_000, y: 800_000, z: 0 });
    assert_eq!(s.attenuation, LinearColor { r: 800_000, g: 800_000, b: 800_000 });
}

#[test]
fn metal_absorbs_reflections_into_the_surface() {
    // The mirror of an outgoing direction dips below the surface: absorbed.
    let m = Metal::linear_rgb(800_000, 800_000, 800_000);
    let ray = Ray::new(
        Vec3 { x: 0, y: 0, z: 0 },
        Dir3::new(Vec3 { x: 600_000, y: 800_000, z: 0 }),
    );
    let hit = hit_with_normal(0, SCALE, 0, true);
    assert!(m.scatter(&ray, &hit).is_none());
}

#[test]
fn metal_new_clamps_fuzz() {
    let c = LinearColor { r: SCALE, g: SCALE, b: SCALE };
    assert_eq!(Metal::new(c, 2 * SCALE).fuzz, SCALE);
    assert_eq!(Metal::new(c, -5).fuzz, 0);
    assert_eq!(Metal::new(c, 300_000).fuzz, 300_000);
}

#[test]
fn dielectric_with_unit_index_does_not_bend() {
    let m = Dielectric::refraction_index(SCALE);
    let dir = Vec3 { x: 600_000, y: -800_000, z: 0 };
    let ray = Ray::new(Vec3 { x: 0, y: 800_000, z: 0 }, Dir3::new(dir));

    // Entering from outside.
    let front = hit_with_normal(0, SCALE, 0, true);
    let s = m.scatter(&ray, &front).unwrap();
    assert_eq!(s.ray.direction().as_vec3(), dir);

    // Leaving from inside: the hit normal opposes the ray as always.
    let back = hit_with_normal(0, SCALE, 0, false);
    let s2 = m.scatter(&ray, &back).unwrap();
    assert_eq!(s2.ray.direction().as_vec3(), dir);
}

#[test]
fn dielectric_with_higher_index_bends() {
    let m = Dielectric::refraction_index(1_500_000);
    assert_eq!(m.color, LinearColor { r: SCALE, g: SCALE, b: SCALE });
    let dir = Vec3 { x: 600_000, y: -800_000, z: 0 };
    let ray = Ray::new(Vec3 { x: 0, y: 800_000, z: 0 }, Dir3::new(dir));
    let hit = hit_with_normal(0, SCALE, 0, true);

    let s = m.scatter(&ray, &hit).unwrap();
    let out = s.ray.direction().as_vec3();
    assert_ne!(out, dir);
    // Refraction toward the normal: the sideways component shrinks.
    assert!(out.x < dir.x && out.x > 0);
    // Deterministic: the same inputs give the same direction.
    let s2 = m.scatter(&ray, &hit).unwrap();
    assert_eq!(s2.ray.direction().as_vec3(), out);
}

#[test]
fn dielectric_linear_rgb_defaults_to_glass() {
    let m = Dielectric::linear_rgb(900_000, 800_000, 700_000);
    assert_eq!(m.refractive_index, 1_500_000);
    assert_eq!(m.color, LinearColor { r: 900_000, g: 800_000, b: 700_000 });
}

#[test]
fn material_enum_dispatches_each_variant() {
    let ray = Ray::new(Vec3 { x: 0, y: 800_000, z: 0 }, Dir3::new(Vec3 {
        x: 600_000,
        y: -800_000,
        z: 0,
    }));
    let hit = hit_with_normal(0, SCALE, 0, true);

    let lam = Material::Lambertian(Lambertian::linear_rgb(100_000, 100_000, 100_000));
    assert!(lam.scatter(&ray, &hit).is_some());

    let met = Material::Metal(Metal::linear_rgb(800_000, 800_000, 800_000));
    let s = met.scatter(&ray, &hit).unwrap();
    assert_eq!(s.ray.direction().as_vec3(), Vec3 { x: 600_000, y: 800_000, z: 0 });

    let die = Material::Dielectric(Dielectric::refraction_index(SCALE));
    let s2 = die.scatter(&ray, &hit).unwrap();
    assert_eq!(s2.ray.direction().as_vec3(), Vec3 { x: 600_000, y: -800_000, z: 0 });
}
