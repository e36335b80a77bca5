use rt_one::camera::Camera;
use rt_one::color::LinearColor;
use rt_one::fixed::SCALE;
use rt_one::hittable::Hittables;
use rt_one::material::{Lambertian, Material};
use rt_one::objects::Sphere;
use rt_one::ray::{Ray, T_MAX};
use rt_one::vec3::{Dir3, Vec3};

fn gray_sphere(z: i64, radius: i64) -> Sphere {
    Sphere {
        center: Vec3 { x: 0, y: 0, z },
        radius,
        material: Material::Lambertian(Lambertian::linear_rgb(500_000, 500_000, 500_000)),
    }
}

#[test]
fn default_camera_constants() {
    let c = Camera::with_samples_per_pixel(4);
    assert_eq!(c.im_width, 600);
    assert_eq!(c.im_height, 337);
    assert_eq!(c.aspect_ratio, 1_780_415);
    assert_eq!(c.viewport_height, 2_000_000);
    assert_eq!(c.viewport_width, 3_560_830);
    assert_eq!(c.du, Vec3 { x: 5_934, y: 0, z: 0 });
    assert_eq!(c.dv, Vec3 { x: 0, y: -5_934, z: 0 });
    assert_eq!(c.viewport_origin, Vec3 { x: -1_780_415, y: 1_000_000, z: -1_000_000 });
    assert_eq!(c.pixel00_origin, Vec3 { x: -1_777_448, y: 997_033, z: -1_000_000 });
    assert_eq!(c.samples_per_pixel, 4);
    assert_eq!(c.bounce, 0);
    assert_eq!(c.min_dist, 0);
    assert!(!c.srgb_output);

    let d = Camera::new();
    assert_eq!(d.samples_per_pixel, 1);
}

#[test]
fn get_ray_starts_at_the_camera() {
    let c = Camera::new();
    for _ in 0..20 {
        let r = c.get_ray(0, 0);
        assert_eq!(r.origin(), Vec3 { x: 0, y: 0, z: 0 });
        // The direction aims at the top-left pixel, jittered by at most one
        // pixel step after normalization slack.
        let d = r.direction().as_vec3();
        assert!(d.z < 0);
        assert!(d.x < 0 && d.y > 0);
    }
}

#[test]
fn bounce_budget_zero_is_black() {
    let c = Camera::new();
    let mut world = Hittables::new();
    world.add(gray_sphere(-SCALE, SCALE / 2));
    let ray = Ray::new(Vec3 { x: 0, y: 0, z: 0 }, Dir3::new(Vec3 { x: 0, y: 0, z: -SCALE }));
    let black = LinearColor { r: 0, g: 0, b: 0 };
    assert_eq!(c.world_color_bounce(&ray, &world, 0..T_MAX, 0), black);
    assert_eq!(c.world_color_bounce(&ray, &Hittables::new(), 0..T_MAX, 0), black);
    assert_eq!(ray.world_color_bounce(&world, 0..T_MAX, 0), black);
}

#[test]
fn one_bounce_on_a_gray_sphere_is_black() {
    // Depth one: the hit scatters, the recursion bottoms out at black, and
    // the albedo tints black to black — whatever the random scatter did.
    let c = Camera::new();
    let mut world = Hittables::new();
    world.add(gray_sphere(-SCALE, SCALE / 2));
    let ray = Ray::new(Vec3 { x: 0, y: 0, z: 0 }, Dir3::new(Vec3 { x: 0, y: 0, z: -SCALE }));
    for _ in 0..20 {
        let got = c.world_color_bounce(&ray, &world, 0..T_MAX, 1);
        assert_eq!(got, LinearColor { r: 0, g: 0, b: 0 });
    }
}

#[test]
fn empty_world_shows_the_sky() {
    let c = Camera::new();
    let world = Hittables::new();
    let up = Ray::new(Vec3 { x: 0, y: 0, z: 0 }, Dir3::new(Vec3 { x: 0, y: SCALE, z: 0 }));
    let down = Ray::new(Vec3 { x: 0, y: 0, z: 0 }, Dir3::new(Vec3 { x: 0, y: -SCALE, z: 0 }));

    let blue = LinearColor { r: 500_000, g: 700_000, b: SCALE };
    let white = LinearColor { r: SCALE, g: SCALE, b: SCALE };
    assert_eq!(c.world_color_bounce(&up, &world, 0..T_MAX, 50), blue);
    assert_eq!(c.world_color_bounce(&down, &world, 0..T_MAX, 50), white);
    assert_eq!(c.sky_color(&up), blue);
    assert_eq!(c.sky_color(&down), white);

    // Halfway up the gradient: the exact blend of white and sky blue.
    let level = Ray::new(Vec3 { x: 0, y: 0, z: 0 }, Dir3::new(Vec3 { x: 0, y: 0, z: -SCALE }));
    assert_eq!(c.sky_color(&level), LinearColor { r: 750_000, g: 850_000, b: SCALE });
}

#[test]
fn world_color_remaps_the_normal() {
    let c = Camera::new();
    let mut world = Hittables::new();
    world.add(gray_sphere(-SCALE, SCALE / 2));
    let ray = Ray::new(Vec3 { x: 0, y: 0, z: 0 }, Dir3::new(Vec3 { x: 0, y: 0, z: -SCALE }));
    // Normal (0, 0, 1) remaps to (0.5, 0.5, 1).
    let got = c.world_color(&ray, &world, 0..T_MAX);
    assert_eq!(got, LinearColor { r: 500_000, g: 500_000, b: SCALE });
    assert_eq!(ray.world_color(&world, 0..T_MAX), got);
}

#[test]
fn reflectance_bands() {
    let mut c = Camera::new();
    assert_eq!(c.reflectance(0), 500_000);
    c.reflectance_groups = true;
    assert_eq!(c.reflectance(0), 100_000);
    assert_eq!(c.reflectance(119), 100_000);
    assert_eq!(c.reflectance(120), 300_000);
    assert_eq!(c.reflectance(300), 500_000);
    assert_eq!(c.reflectance(599), 900_000);
}

#[test]
fn render_fills_three_bytes_per_pixel() {
    let mut world = Hittables::new();
    world.add(gray_sphere(-SCALE, SCALE / 2));
    world.add(gray_sphere(-100_500_000, 100 * SCALE));
    let c = Camera::new();
    let data = c.render(&world);
    assert_eq!(data.len(), 600 * 337 * 3);
}

#[test]
fn render_of_an_empty_world_is_all_sky() {
    // Every sample of every pixel is a sky tone, whatever the jitter: the
    // blue channel stays full and red never exceeds green in the gradient.
    let world = Hittables::new();
    let c = Camera::new();
    let data = c.render(&world);
    assert_eq!(data.len(), 600 * 337 * 3);
    let mut i: usize = 0;
    while i < data.len() {
        assert_eq!(data[i + 2], 255);
        assert!(data[i] <= data[i + 1]);
        i += 3;
    }
}

#[test]
fn center_ray_is_deterministic() {
    let c = Camera::new();
    let a = c.center_ray(0, 0);
    let b = c.center_ray(0, 0);
    assert_eq!(a.direction().as_vec3(), b.direction().as_vec3());
    assert_eq!(a.origin(), Vec3 { x: 0, y: 0, z: 0 });
    let d = a.direction().as_vec3();
    assert!(d.x < 0 && d.y > 0 && d.z < 0);
}

#[test]
fn fuzzless_metal_bounces_are_deterministic() {
    // With no fuzz anywhere, nothing in the path is chance: repeated
    // evaluations agree exactly, and the light only ever dims.
    let mut world = Hittables::new();
    world.add(Sphere {
        center: Vec3 { x: 0, y: 0, z: -SCALE },
        radius: SCALE / 2,
        material: Material::Metal(rt_one::material::Metal::linear_rgb(
            800_000, 800_000, 800_000,
        )),
    });
    let c = Camera::new();
    let ray = Ray::new(
        Vec3 { x: 0, y: 0, z: 0 },
        Dir3::new(Vec3 { x: 447_213, y: 0, z: -894_427 }),
    );
    let first = c.world_color_bounce(&ray, &world, 0..T_MAX, 5);
    for _ in 0..10 {
        let got = c.world_color_bounce(&ray, &world, 0..T_MAX, 5);
        assert_eq!(got, first);
        assert!(got.r <= SCALE && got.g <= SCALE && got.b <= SCALE);
    }
}

#[test]
fn render_with_bounces_and_gamma() {
    let mut world = Hittables::new();
    world.add(gray_sphere(-SCALE, SCALE / 2));
    let mut c = Camera::new();
    c.bounce = 3;
    c.min_dist = 1_000;
    c.srgb_output = true;
    let data = c.render(&world);
    assert_eq!(data.len(), 600 * 337 * 3);
}
