use rt_one::fixed::SCALE;
use rt_one::random::{random_on_hemisphere, random_on_sphere};
use rt_one::vec3::{Dir3, Vec3};

#[test]
fn random_on_sphere_is_a_unit_bounded_direction() {
    for _ in 0..200 {
        let d = random_on_sphere().as_vec3();
        assert!(d.x.abs() <= SCALE && d.y.abs() <= SCALE && d.z.abs() <= SCALE);
        assert!(d.x != 0 || d.y != 0 || d.z != 0);
    }
}

#[test]
fn random_on_hemisphere_stays_on_the_normal_side() {
    let normal = Dir3::new(Vec3 { x: 0, y: SCALE, z: 0 });
    for _ in 0..200 {
        let d = random_on_hemisphere(normal).as_vec3();
        let dot = (d.x as i128) * 0 + (d.y as i128) * (SCALE as i128) + (d.z as i128) * 0;
        assert!(dot >= 0);
    }
}

#[test]
fn direction_construction_normalizes() {
    let d = Dir3::new(Vec3 { x: 2 * SCALE, y: 0, z: 0 });
    assert_eq!(d.as_vec3(), Vec3 { x: SCALE, y: 0, z: 0 });
    // An exactly unit vector is kept as it is.
    let u = Dir3::new(Vec3 { x: 600_000, y: -800_000, z: 0 });
    assert_eq!(u.as_vec3(), Vec3 { x: 600_000, y: -800_000, z: 0 });
    // The zero vector falls back to the positive z axis.
    let z = Dir3::new(Vec3 { x: 0, y: 0, z: 0 });
    assert_eq!(z.as_vec3(), Vec3 { x: 0, y: 0, z: SCALE });
}
