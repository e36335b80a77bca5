//! The camera: viewport setup, per-pixel ray generation with sub-pixel
//! jitter, and the frame driver that averages samples into an 8-bit buffer.

use crate::color::{
    encode_rgb8, gamma_encode_rgb8, lemma_color_mul_black_right, spec_black, spec_encode_rgb8,
    spec_gamma_encode_rgb8, LinearColor,
};
use crate::fixed::{
    abs_val, fp_mul, lemma_mul_bound_abs, lemma_tdiv_bound, tdiv, SCALE,
};
use crate::hittable::{range_wf, Hittable};
use crate::material::{spec_metal_mirror, Material};
use crate::random::random_jitter;
use crate::ray::{spec_sky_color, spec_world_color, Ray, T_MAX};
use crate::vec3::{
    dir_from, spec_normalize, spec_sub, spec_v3, Dir3, Vec3, POS_MAX,
};
use std::ops::Range;
use vstd::arithmetic::div_mod::{lemma_div_is_ordered, lemma_div_multiples_vanish};
use vstd::prelude::*;

verus! {

/// Largest camera-origin coordinate: far enough inside the geometry's band
/// that a full bounce budget cannot walk a ray out of it.
pub const CAM_POS_MAX: i64 = 1_000_000_000_000;

/// A fixed camera: a viewport one focal length ahead of the origin, spanned
/// by per-pixel steps, plus the sampling and output settings of a render.
pub struct Camera {
    pub im_width: usize,
    pub im_height: usize,
    pub aspect_ratio: i64,

    pub viewport_height: i64,
    pub viewport_width: i64,
    pub viewport_u: Vec3,
    pub viewport_v: Vec3,
    pub du: Vec3,
    pub dv: Vec3,
    pub viewport_origin: Vec3,
    pub pixel00_origin: Vec3,

    pub focal_length: i64,
    pub cam_origin: Vec3,

    pub samples_per_pixel: usize,
    pub bounce: usize,
    pub min_dist: i64,
    pub srgb_output: bool,

    /// If true, reflectance is banded by column in five groups from one
    /// tenth up to nine tenths.
    pub reflectance_groups: bool,
}

/// The default camera's exact contents: a 600 by 337 image (600 over
/// sixteen-ninths, rounded down), the aspect ratio recomputed from the
/// rounded height, a viewport two units tall one unit ahead, and whole-pixel
/// steps across it with pixels centered in their cells.
pub open spec fn spec_default_camera(samples: int) -> Camera {
    Camera {
        im_width: 600,
        im_height: 337,
        aspect_ratio: 1_780_415,
        viewport_height: 2_000_000,
        viewport_width: 3_560_830,
        viewport_u: Vec3 { x: 3_560_830, y: 0, z: 0 },
        viewport_v: Vec3 { x: 0, y: -2_000_000i64, z: 0 },
        du: Vec3 { x: 5_934, y: 0, z: 0 },
        dv: Vec3 { x: 0, y: -5_934i64, z: 0 },
        viewport_origin: Vec3 { x: -1_780_415i64, y: 1_000_000, z: -1_000_000i64 },
        pixel00_origin: Vec3 { x: -1_777_448i64, y: 997_033, z: -1_000_000i64 },
        focal_length: 1_000_000,
        cam_origin: Vec3 { x: 0, y: 0, z: 0 },
        samples_per_pixel: samples as usize,
        bounce: 0,
        min_dist: 0,
        srgb_output: false,
        reflectance_groups: false,
    }
}

/// The banded reflectance of a column: the column's position across the
/// width, floored to one of five whole steps, spread over `[0.1, 0.9]`.
pub open spec fn spec_reflectance(c: Camera, col: int) -> int {
    if c.reflectance_groups {
        let wp = (col * SCALE) / (c.im_width as int);
        (wp * 5 / (SCALE as int)) * SCALE / 10 * 2 + (SCALE as int) / 10
    } else {
        (SCALE as int) / 2
    }
}

/// The viewport point pixel `(row, col)` maps to, pushed inside its grid
/// cell by the fixed-point jitter offsets `(jx, jy)`.
pub open spec fn spec_pixel_point(cam: Camera, row: int, col: int, jx: int, jy: int) -> Vec3 {
    spec_v3(
        cam.pixel00_origin.x + row * cam.dv.x + col * cam.du.x + tdiv(jx * cam.du.x, SCALE as int)
            + tdiv(jy * cam.dv.x, SCALE as int),
        cam.pixel00_origin.y + row * cam.dv.y + col * cam.du.y + tdiv(jx * cam.du.y, SCALE as int)
            + tdiv(jy * cam.dv.y, SCALE as int),
        cam.pixel00_origin.z + row * cam.dv.z + col * cam.du.z + tdiv(jx * cam.du.z, SCALE as int)
            + tdiv(jy * cam.dv.z, SCALE as int),
    )
}

/// The ray from the camera toward that point: origin at the camera,
/// direction normalized from camera to point.
pub open spec fn spec_pixel_ray(cam: Camera, row: int, col: int, jx: int, jy: int) -> Ray {
    Ray {
        origin: cam.cam_origin,
        direction: dir_from(
            spec_normalize(spec_sub(spec_pixel_point(cam, row, col, jx, jy), cam.cam_origin)),
        ),
    }
}

/// The sum of the red channels of a sequence of sample colors.
pub open spec fn spec_sum_r(s: Seq<LinearColor>) -> int
    decreases s.len(),
{
    if s.len() == 0 {
        0
    } else {
        spec_sum_r(s.drop_last()) + s.last().r
    }
}

/// The sum of the green channels of a sequence of sample colors.
pub open spec fn spec_sum_g(s: Seq<LinearColor>) -> int
    decreases s.len(),
{
    if s.len() == 0 {
        0
    } else {
        spec_sum_g(s.drop_last()) + s.last().g
    }
}

/// The sum of the blue channels of a sequence of sample colors.
pub open spec fn spec_sum_b(s: Seq<LinearColor>) -> int
    decreases s.len(),
{
    if s.len() == 0 {
        0
    } else {
        spec_sum_b(s.drop_last()) + s.last().b
    }
}

/// What one sample's color must satisfy for a given ray: a valid color that
/// is exactly the normal-visualization shading when the bounce budget is
/// zero, and exactly the sky gradient whenever the ray misses the world.
pub open spec fn spec_sample_color_ok<W: Hittable>(
    cam: Camera,
    world: W,
    ray: Ray,
    color: LinearColor,
) -> bool {
    &&& color.wf()
    &&& (cam.bounce == 0 ==> color == spec_world_color(
        ray,
        world,
        cam.min_dist as int,
        T_MAX as int,
    ))
    &&& ((cam.bounce > 0 && world.hit_spec(ray, cam.min_dist as int, T_MAX as int) is None)
        ==> color == spec_sky_color(ray))
}

/// One color a single sample of pixel `(row, col)` may evaluate to: the
/// admissible shading of the pixel's ray for some jitter within the cell.
pub open spec fn spec_sample_ok<W: Hittable>(
    cam: Camera,
    world: W,
    row: int,
    col: int,
    color: LinearColor,
) -> bool {
    exists|jx: int, jy: int|
        -500_000 <= jx < 500_000 && -500_000 <= jy < 500_000 && spec_sample_color_ok(
            cam,
            world,
            #[trigger] spec_pixel_ray(cam, row, col, jx, jy),
            color,
        )
}

/// The byte one pixel channel quantizes to: the samples' average intensity,
/// encoded linearly, or gamma-encoded when sRGB output is on.
pub open spec fn spec_pixel_byte(cam: Camera, sum: int) -> int {
    let avg = sum / (cam.samples_per_pixel as int);
    if cam.srgb_output {
        spec_gamma_encode_rgb8(avg)
    } else {
        spec_encode_rgb8(avg)
    }
}

/// The three bytes of one rendered pixel encode, channel by channel, the
/// average over one admissible sample color per drawn sample.
pub open spec fn spec_pixel_bytes_ok<W: Hittable>(
    cam: Camera,
    world: W,
    row: int,
    col: int,
    b0: u8,
    b1: u8,
    b2: u8,
) -> bool {
    exists|samples: Seq<LinearColor>|
        #![trigger spec_sum_r(samples)]
        {
            &&& samples.len() == cam.samples_per_pixel
            &&& (forall|i: int|
                0 <= i < samples.len() ==> spec_sample_ok(
                    cam,
                    world,
                    row,
                    col,
                    #[trigger] samples[i],
                ))
            &&& b0 == spec_pixel_byte(cam, spec_sum_r(samples))
            &&& b1 == spec_pixel_byte(cam, spec_sum_g(samples))
            &&& b2 == spec_pixel_byte(cam, spec_sum_b(samples))
        }
}

/// Pixel `(row, col)` of a rendered buffer holds admissible bytes at its
/// row-major position.
pub open spec fn spec_pixel_emitted<W: Hittable>(
    cam: Camera,
    world: W,
    data: Seq<u8>,
    row: int,
    col: int,
) -> bool {
    spec_pixel_bytes_ok(
        cam,
        world,
        row,
        col,
        data[(row * cam.im_width + col) * 3],
        data[(row * cam.im_width + col) * 3 + 1],
        data[(row * cam.im_width + col) * 3 + 2],
    )
}

impl Camera {
    /// What rendering relies on: every stored point within the camera band,
    /// pixel steps within one unit, sane image and sampling sizes, a bounce
    /// budget the geometry's coordinate band can absorb, and a valid
    /// near-distance cutoff.
    pub open spec fn wf(self) -> bool {
        &&& self.cam_origin.bounded(CAM_POS_MAX as int)
        &&& self.pixel00_origin.bounded(CAM_POS_MAX as int)
        &&& self.du.bounded(SCALE as int)
        &&& self.dv.bounded(SCALE as int)
        &&& 0 < self.im_width <= 10_000
        &&& 0 < self.im_height <= 10_000
        &&& 1 <= self.samples_per_pixel <= 10_000
        &&& self.bounce <= 100
        &&& 0 <= self.min_dist <= T_MAX
    }

    /// The default camera, one sample per pixel.
    pub fn new() -> (c: Camera)
        ensures
            c == spec_default_camera(1),
            c.wf(),
    {
        Camera::with_samples_per_pixel(1)
    }

    /// The default 600-wide, sixteen-by-nine camera with a chosen sample
    /// count; every derived quantity is fixed by the width and the ratio.
    pub fn with_samples_per_pixel(samples: usize) -> (c: Camera)
        requires
            1 <= samples <= 10_000,
        ensures
            c == spec_default_camera(samples as int),
            c.wf(),
    {
        proof {
            assert(SCALE == 1_000_000i64);
        }
        let im_width: usize = 600;

        // the width/height relationship, recomputed below once the height
        // has been rounded to whole pixels
        let aspect0: i64 = (16 * SCALE) / 9;
        let height_fp: i64 = ((600 * (SCALE as i128) * (SCALE as i128) / (aspect0 as i128))
            as i64);
        let im_height_px: i64 = height_fp / SCALE;
        let im_height: usize = if im_height_px < 1 {
            1
        } else {
            im_height_px as usize
        };

        // recalc since the height was rounded to whole pixels
        let ih: i64 = im_height as i64;
        proof {
            assert(ih == 337i64);
            assert(600i64 * SCALE == 600_000_000i64);
            assert(600_000_000int / 337int == 1_780_415int);
            assert(2_000_000int / 337int == 5_934int);
        }
        let aspect_ratio: i64 = (600 * SCALE) / ih;

        let viewport_height: i64 = 2 * SCALE;
        let viewport_width: i64 = fp_mul(aspect_ratio, viewport_height);

        let focal_length: i64 = SCALE;
        let cam_origin = Vec3 { x: 0, y: 0, z: 0 };

        let viewport_u = Vec3 { x: viewport_width, y: 0, z: 0 };
        let viewport_v = Vec3 { x: 0, y: -viewport_height, z: 0 };

        let du_x: i64 = viewport_width / (im_width as i64);
        let dv_y: i64 = viewport_height / ih;
        let du = Vec3 { x: du_x, y: 0, z: 0 };
        let dv = Vec3 { x: 0, y: -dv_y, z: 0 };

        // Viewport is at the camera origin, one focal length forward
        // (negative z), offset back by half the viewport in each direction.
        let viewport_origin = Vec3 {
            x: -(viewport_width / 2),
            y: viewport_height / 2,
            z: -focal_length,
        };

        proof {
            assert(aspect0 == 1_777_777i64);
            assert(height_fp == 337_500_147i64);
            assert(im_height_px == 337i64);
            assert(im_height == 337usize);
            assert(aspect_ratio == 1_780_415i64);
            assert(viewport_width == 3_560_830i64);
            assert(du_x == 5_934i64);
            assert(dv_y == 5_934i64);
        }
        // Pixels sit in the middle of their grid cells.
        let pixel00_origin = Vec3 {
            x: viewport_origin.x + du_x / 2,
            y: viewport_origin.y - dv_y / 2,
            z: viewport_origin.z,
        };

        Camera {
            im_width,
            im_height,
            aspect_ratio,
            viewport_height,
            viewport_width,
            viewport_u,
            viewport_v,
            du,
            dv,
            viewport_origin,
            pixel00_origin,
            focal_length,
            cam_origin,
            samples_per_pixel: samples,
            bounce: 0,
            min_dist: 0,
            srgb_output: false,
            reflectance_groups: false,
        }
    }

    /// The ray through one pixel, jittered within the pixel's cell: origin
    /// at the camera, direction toward the jittered pixel point. Which cell
    /// offset is drawn is chance; for whatever was drawn, the ray is exactly
    /// [`spec_pixel_ray`] of it.
    pub fn get_ray(&self, row: usize, col: usize) -> (r: Ray)
        requires
            self.wf(),
            row < self.im_height,
            col < self.im_width,
        ensures
            r.origin == self.cam_origin,
            r.direction.wf(),
            r.wf(),
            exists|jx: int, jy: int|
                -500_000 <= jx < 500_000 && -500_000 <= jy < 500_000 && r
                    == #[trigger] spec_pixel_ray(*self, row as int, col as int, jx, jy),
    {
        proof {
            lemma_pixel_step_bound(row as int, self.dv.x as int);
            lemma_pixel_step_bound(row as int, self.dv.y as int);
            lemma_pixel_step_bound(row as int, self.dv.z as int);
            lemma_pixel_step_bound(col as int, self.du.x as int);
            lemma_pixel_step_bound(col as int, self.du.y as int);
            lemma_pixel_step_bound(col as int, self.du.z as int);
        }
        let pixel = Vec3 {
            x: self.pixel00_origin.x + (row as i64) * self.dv.x + (col as i64) * self.du.x,
            y: self.pixel00_origin.y + (row as i64) * self.dv.y + (col as i64) * self.du.y,
            z: self.pixel00_origin.z + (row as i64) * self.dv.z + (col as i64) * self.du.z,
        };
        let jx: i64 = random_jitter();
        let jy: i64 = random_jitter();
        proof {
            lemma_jitter_step_bound(jx as int, self.du.x as int);
            lemma_jitter_step_bound(jx as int, self.du.y as int);
            lemma_jitter_step_bound(jx as int, self.du.z as int);
            lemma_jitter_step_bound(jy as int, self.dv.x as int);
            lemma_jitter_step_bound(jy as int, self.dv.y as int);
            lemma_jitter_step_bound(jy as int, self.dv.z as int);
        }
        let pixel = Vec3 {
            x: pixel.x + fp_mul(jx, self.du.x) + fp_mul(jy, self.dv.x),
            y: pixel.y + fp_mul(jx, self.du.y) + fp_mul(jy, self.dv.y),
            z: pixel.z + fp_mul(jx, self.du.z) + fp_mul(jy, self.dv.z),
        };
        // Unit direction from camera to pixel
        let dir = Vec3 {
            x: pixel.x - self.cam_origin.x,
            y: pixel.y - self.cam_origin.y,
            z: pixel.z - self.cam_origin.z,
        };
        let r = Ray::new(self.cam_origin, Dir3::new(dir));
        proof {
            assert(pixel == spec_pixel_point(*self, row as int, col as int, jx as int, jy as int));
            assert(r == spec_pixel_ray(*self, row as int, col as int, jx as int, jy as int));
        }
        r
    }

    /// The ray through the exact center of pixel `(row, col)`: the
    /// jitter-free counterpart of [`Camera::get_ray`], fully deterministic.
    pub fn center_ray(&self, row: usize, col: usize) -> (r: Ray)
        requires
            self.wf(),
            row < self.im_height,
            col < self.im_width,
        ensures
            r == spec_pixel_ray(*self, row as int, col as int, 0, 0),
            r.origin == self.cam_origin,
            r.direction.wf(),
            r.wf(),
    {
        proof {
            lemma_pixel_step_bound(row as int, self.dv.x as int);
            lemma_pixel_step_bound(row as int, self.dv.y as int);
            lemma_pixel_step_bound(row as int, self.dv.z as int);
            lemma_pixel_step_bound(col as int, self.du.x as int);
            lemma_pixel_step_bound(col as int, self.du.y as int);
            lemma_pixel_step_bound(col as int, self.du.z as int);
            lemma_zero_jitter_step(self.du.x as int);
            lemma_zero_jitter_step(self.du.y as int);
            lemma_zero_jitter_step(self.du.z as int);
            lemma_zero_jitter_step(self.dv.x as int);
            lemma_zero_jitter_step(self.dv.y as int);
            lemma_zero_jitter_step(self.dv.z as int);
        }
        let pixel = Vec3 {
            x: self.pixel00_origin.x + (row as i64) * self.dv.x + (col as i64) * self.du.x,
            y: self.pixel00_origin.y + (row as i64) * self.dv.y + (col as i64) * self.du.y,
            z: self.pixel00_origin.z + (row as i64) * self.dv.z + (col as i64) * self.du.z,
        };
        let dir = Vec3 {
            x: pixel.x - self.cam_origin.x,
            y: pixel.y - self.cam_origin.y,
            z: pixel.z - self.cam_origin.z,
        };
        let r = Ray::new(self.cam_origin, Dir3::new(dir));
        proof {
            assert(pixel == spec_pixel_point(*self, row as int, col as int, 0, 0));
            assert(r == spec_pixel_ray(*self, row as int, col as int, 0, 0));
        }
        r
    }

    /// The column's reflectance: one half everywhere, unless column banding
    /// is on, in which case five bands from one tenth up to nine tenths.
    pub fn reflectance(&self, col: usize) -> (r: i64)
        requires
            self.wf(),
            col < self.im_width,
        ensures
            r == spec_reflectance(*self, col as int),
            0 <= r <= SCALE,
    {
        if self.reflectance_groups {
            proof {
                lemma_mul_bound_abs(col as int, SCALE as int, 10_000, SCALE as int);
                lemma_reflectance_bounds(col as int, self.im_width as int);
            }
            // range: [0.0, 1.0)
            let width_percentage: i64 = (((col as i128) * (SCALE as i128)) as i64) / (
            self.im_width as i64);
            // range: [0.0, 5.0)
            let reflectance: i64 = width_percentage * 5;
            // steps: [0.0, 1.0, 2.0, 3.0, 4.0]
            let reflectance: i64 = (reflectance / SCALE) * SCALE;
            // steps: [0.0, 0.1, 0.2, 0.3, 0.4]
            let reflectance: i64 = reflectance / 10;
            // steps: [0.0, 0.2, 0.4, 0.6, 0.8]
            let reflectance: i64 = reflectance * 2;
            // steps: [0.1, 0.3, 0.5, 0.7, 0.9]
            let reflectance: i64 = reflectance + SCALE / 10;

            reflectance
        } else {
            SCALE / 2
        }
    }

    /// The sky behind a ray; the gradient is the ray's own.
    pub fn sky_color(&self, ray: &Ray) -> (c: LinearColor)
        requires
            ray.direction.wf(),
        ensures
            c == spec_sky_color(*ray),
            c.wf(),
    {
        ray.sky_color()
    }

    /// Normal-visualization shading of one ray against a world.
    pub fn world_color<W: Hittable>(&self, ray: &Ray, world: &W, range: Range<i64>) -> (c:
        LinearColor)
        requires
            world.wf(),
            ray.wf(),
            range_wf(range.start as int, range.end as int),
        ensures
            c == spec_world_color(*ray, *world, range.start as int, range.end as int),
            c.wf(),
    {
        ray.world_color(world, range)
    }

    /// Full recursive shading of one ray: query the world, scatter at the
    /// nearest hit by its material, recurse on the scattered ray with one
    /// less bounce, and tint the recursive light by the material's albedo.
    /// Black when the budget runs out or the material absorbs the ray; the
    /// sky gradient on a miss.
    pub fn world_color_bounce<W: Hittable>(
        &self,
        ray: &Ray,
        world: &W,
        range: Range<i64>,
        bounce: usize,
    ) -> (c: LinearColor)
        requires
            world.wf(),
            ray.direction.wf(),
            bounce <= 100,
            ray.origin.bounded(POS_MAX - (bounce as int) * (T_MAX as int)),
            range_wf(range.start as int, range.end as int),
        ensures
            c.wf(),
            bounce == 0 ==> c == spec_black(),
            bounce > 0 && world.hit_spec(*ray, range.start as int, range.end as int) is None ==> c
                == spec_sky_color(*ray),
            bounce == 1 && world.hit_spec(*ray, range.start as int, range.end as int) is Some ==> c
                == spec_black(),
            bounce >= 1 && (world.hit_spec(*ray, range.start as int, range.end as int) matches
                Option::Some(h) && h.material matches Material::Metal(m) && m.fuzz == 0
                && spec_metal_mirror(m, *ray, h) is None) ==> c == spec_black(),
        decreases bounce,
    {
        // either exhaust the bounces (dark!) or return the sky, dimmed by
        // the albedo of everything hit along the way
        if bounce == 0 {
            return LinearColor::black();
        }
        let start: i64 = range.start;
        let end: i64 = range.end;
        match world.hit(ray, range) {
            Some(hit) => {
                match hit.material.scatter(ray, &hit) {
                    Some(scattered) => {
                        let rec = self.world_color_bounce(
                            &scattered.ray,
                            world,
                            start..end,
                            bounce - 1,
                        );
                        proof {
                            if bounce == 1 {
                                lemma_color_mul_black_right(scattered.attenuation);
                            }
                        }
                        scattered.attenuation.mul(rec)
                    },
                    None => LinearColor::black(),
                }
            },
            None => self.sky_color(ray),
        }
    }

    /// Render the whole frame: for every pixel, average the shading of
    /// `samples_per_pixel` jittered rays and quantize to three 8-bit
    /// channels — gamma-encoded when sRGB output is on — row-major, top row
    /// first. Every pixel of the buffer encodes such an average of
    /// admissible sample colors: [`spec_pixel_emitted`] at its position.
    pub fn render<W: Hittable>(&self, world: &W) -> (data: Vec<u8>)
        requires
            self.wf(),
            world.wf(),
        ensures
            data.len() == self.im_height * self.im_width * 3,
            forall|row: int, col: int|
                0 <= row < self.im_height && 0 <= col < self.im_width
                    ==> #[trigger] spec_pixel_emitted(*self, *world, data@, row, col),
    {
        let mut data: Vec<u8> = Vec::new();
        let w: usize = self.im_width;
        let h: usize = self.im_height;
        let samples: usize = self.samples_per_pixel;
        let mut row: usize = 0;
        while row < h
            invariant
                self.wf(),
                world.wf(),
                w == self.im_width,
                h == self.im_height,
                samples == self.samples_per_pixel,
                row <= h,
                data.len() == row * w * 3,
                forall|r0: int, c0: int|
                    0 <= r0 < row && 0 <= c0 < w ==> #[trigger] spec_pixel_emitted(
                        *self,
                        *world,
                        data@,
                        r0,
                        c0,
                    ),
            decreases h - row,
        {
            let mut col: usize = 0;
            while col < w
                invariant
                    self.wf(),
                    world.wf(),
                    w == self.im_width,
                    h == self.im_height,
                    samples == self.samples_per_pixel,
                    row < h,
                    col <= w,
                    data.len() == row * w * 3 + col * 3,
                    forall|r0: int, c0: int|
                        0 <= r0 < row && 0 <= c0 < w ==> #[trigger] spec_pixel_emitted(
                            *self,
                            *world,
                            data@,
                            r0,
                            c0,
                        ),
                    forall|c0: int|
                        0 <= c0 < col ==> #[trigger] spec_pixel_emitted(
                            *self,
                            *world,
                            data@,
                            row as int,
                            c0,
                        ),
                decreases w - col,
            {
                let ghost mut taken: Seq<LinearColor> = Seq::empty();
                let mut sum_r: u64 = 0;
                let mut sum_g: u64 = 0;
                let mut sum_b: u64 = 0;
                let mut s: usize = 0;
                while s < samples
                    invariant
                        self.wf(),
                        world.wf(),
                        samples == self.samples_per_pixel,
                        row < self.im_height,
                        col < self.im_width,
                        s <= samples,
                        sum_r <= s * (SCALE as u64),
                        sum_g <= s * (SCALE as u64),
                        sum_b <= s * (SCALE as u64),
                        taken.len() == s,
                        sum_r as int == spec_sum_r(taken),
                        sum_g as int == spec_sum_g(taken),
                        sum_b as int == spec_sum_b(taken),
                        forall|i: int|
                            0 <= i < taken.len() ==> spec_sample_ok(
                                *self,
                                *world,
                                row as int,
                                col as int,
                                #[trigger] taken[i],
                            ),
                    decreases samples - s,
                {
                    let ray = self.get_ray(row, col);
                    let color = if self.bounce > 0 {
                        self.world_color_bounce(&ray, world, self.min_dist..T_MAX, self.bounce)
                    } else {
                        self.world_color(&ray, world, self.min_dist..T_MAX)
                    };
                    proof {
                        assert((s + 1) * (SCALE as int) == s * (SCALE as int) + SCALE)
                            by (nonlinear_arith);
                        let (jx, jy) = choose|jx: int, jy: int|
                            -500_000 <= jx < 500_000 && -500_000 <= jy < 500_000 && ray
                                == #[trigger] spec_pixel_ray(
                                *self,
                                row as int,
                                col as int,
                                jx,
                                jy,
                            );
                        assert(spec_sample_color_ok(
                            *self,
                            *world,
                            spec_pixel_ray(*self, row as int, col as int, jx, jy),
                            color,
                        ));
                        assert(spec_sample_ok(*self, *world, row as int, col as int, color));
                        assert(taken.push(color).drop_last() =~= taken);
                        taken = taken.push(color);
                    }
                    sum_r = sum_r + (color.r as u64);
                    sum_g = sum_g + (color.g as u64);
                    sum_b = sum_b + (color.b as u64);
                    s = s + 1;
                }
                proof {
                    lemma_sample_average_in_unit(sum_r as int, samples as int);
                    lemma_sample_average_in_unit(sum_g as int, samples as int);
                    lemma_sample_average_in_unit(sum_b as int, samples as int);
                }
                let avg_r: i64 = (sum_r / (samples as u64)) as i64;
                let avg_g: i64 = (sum_g / (samples as u64)) as i64;
                let avg_b: i64 = (sum_b / (samples as u64)) as i64;
                let b0: u8;
                let b1: u8;
                let b2: u8;
                if self.srgb_output {
                    b0 = gamma_encode_rgb8(avg_r);
                    b1 = gamma_encode_rgb8(avg_g);
                    b2 = gamma_encode_rgb8(avg_b);
                } else {
                    b0 = encode_rgb8(avg_r);
                    b1 = encode_rgb8(avg_g);
                    b2 = encode_rgb8(avg_b);
                }
                proof {
                    assert(b0 == spec_pixel_byte(*self, spec_sum_r(taken)));
                    assert(b1 == spec_pixel_byte(*self, spec_sum_g(taken)));
                    assert(b2 == spec_pixel_byte(*self, spec_sum_b(taken)));
                    assert(spec_pixel_bytes_ok(
                        *self,
                        *world,
                        row as int,
                        col as int,
                        b0,
                        b1,
                        b2,
                    ));
                }
                let ghost before: Seq<u8> = data@;
                data.push(b0);
                data.push(b1);
                data.push(b2);
                proof {
                    lemma_pixel_slot_in_prefix(w as int, row as int, col as int);
                    assert(data@[(row as int * w + col) * 3] == b0);
                    assert(data@[(row as int * w + col) * 3 + 1] == b1);
                    assert(data@[(row as int * w + col) * 3 + 2] == b2);
                    assert(spec_pixel_emitted(*self, *world, data@, row as int, col as int));
                    assert forall|r0: int, c0: int|
                        0 <= r0 < row && 0 <= c0 < w implies #[trigger] spec_pixel_emitted(
                        *self,
                        *world,
                        data@,
                        r0,
                        c0,
                    ) by {
                        lemma_pixel_slot_before(w as int, row as int, col as int, r0, c0);
                        assert(spec_pixel_emitted(*self, *world, before, r0, c0));
                    }
                    assert forall|c0: int| 0 <= c0 < col implies #[trigger] spec_pixel_emitted(
                        *self,
                        *world,
                        data@,
                        row as int,
                        c0,
                    ) by {
                        lemma_pixel_slot_before(w as int, row as int, col as int, row as int, c0);
                        assert(spec_pixel_emitted(*self, *world, before, row as int, c0));
                    }
                }
                col = col + 1;
            }
            proof {
                assert((row + 1) * (w as int) * 3 == row * (w as int) * 3 + (w as int) * 3)
                    by (nonlinear_arith);
            }
            row = row + 1;
        }
        data
    }
}

/// One whole-pixel step across the viewport stays well inside the machine
/// range.
proof fn lemma_pixel_step_bound(steps: int, d: int)
    requires
        0 <= steps <= 10_000,
        abs_val(d) <= SCALE as int,
    ensures
        abs_val(steps * d) <= 10_000 * (SCALE as int),
{
    lemma_mul_bound_abs(steps, d, 10_000, SCALE as int);
}

/// The bytes of the pixel being emitted begin exactly at the buffer's
/// current end.
proof fn lemma_pixel_slot_in_prefix(w: int, row: int, col: int)
    requires
        0 <= row,
        0 <= col,
    ensures
        (row * w + col) * 3 == row * w * 3 + col * 3,
{
    assert((row * w + col) * 3 == row * w * 3 + col * 3) by (nonlinear_arith);
}

/// A pixel emitted earlier sits wholly inside the buffer's prefix.
proof fn lemma_pixel_slot_before(w: int, row: int, col: int, r0: int, c0: int)
    requires
        0 <= c0 < w,
        0 <= r0,
        0 <= col,
        r0 < row || (r0 == row && c0 < col),
    ensures
        0 <= (r0 * w + c0) * 3,
        (r0 * w + c0) * 3 + 2 < row * w * 3 + col * 3,
{
    assert(0 <= (r0 * w + c0) * 3 && (r0 * w + c0) * 3 + 2 < row * w * 3 + col * 3)
        by (nonlinear_arith)
        requires
            0 <= c0 < w,
            0 <= r0,
            0 <= col,
            r0 < row || (r0 == row && c0 < col),
    ;
}

/// A zero jitter contributes nothing to the pixel point.
proof fn lemma_zero_jitter_step(d: int)
    ensures
        tdiv(0 * d, SCALE as int) == 0,
{
    assert(0 * d == 0) by (nonlinear_arith);
    vstd::arithmetic::div_mod::lemma_div_of0(SCALE as int);
}

/// One jitter offset scaled by a pixel step stays within one unit.
proof fn lemma_jitter_step_bound(j: int, d: int)
    requires
        abs_val(j) <= SCALE as int,
        abs_val(d) <= SCALE as int,
    ensures
        abs_val(tdiv(j * d, SCALE as int)) <= SCALE as int,
{
    lemma_mul_bound_abs(j, d, SCALE as int, SCALE as int);
    lemma_tdiv_bound(j * d, SCALE as int, (SCALE as int) * (SCALE as int));
    lemma_div_multiples_vanish(SCALE as int, SCALE as int);
}

/// The per-column percentage stays inside `[0, SCALE)` and each step of the
/// banding arithmetic inside its own small range.
proof fn lemma_reflectance_bounds(col: int, w: int)
    requires
        0 <= col < w,
        0 < w,
    ensures
        0 <= (col * SCALE) / w < SCALE as int,
        0 <= (col * SCALE) / w * 5 < 5 * (SCALE as int),
        0 <= (col * SCALE) / w * 5 / (SCALE as int) <= 5,
        0 <= ((col * SCALE) / w * 5 / (SCALE as int)) * SCALE <= 5 * (SCALE as int),
        0 <= ((col * SCALE) / w * 5 / (SCALE as int)) * SCALE / 10 * 2 + (SCALE as int) / 10
            <= SCALE as int,
{
    vstd::arithmetic::div_mod::lemma_div_pos_is_pos(col * SCALE, w);
    assert(col * SCALE >= 0) by (nonlinear_arith)
        requires col >= 0;
    assert(col * SCALE < w * SCALE) by (nonlinear_arith)
        requires col < w;
    vstd::arithmetic::div_mod::lemma_multiply_divide_lt(col * SCALE, w, SCALE as int);
    let wp = (col * SCALE) / w;
    assert(0 <= wp * 5 < 5 * (SCALE as int)) by (nonlinear_arith)
        requires 0 <= wp < SCALE as int;
    lemma_div_is_ordered(0, wp * 5, SCALE as int);
    lemma_div_is_ordered(wp * 5, 5 * (SCALE as int), SCALE as int);
    lemma_div_multiples_vanish(5, SCALE as int);
    assert((SCALE as int) * 5 == 5 * (SCALE as int)) by (nonlinear_arith);
    let steps = wp * 5 / (SCALE as int);
    assert(0 <= steps <= 5);
    assert(0 <= steps * SCALE <= 5 * (SCALE as int)) by (nonlinear_arith)
        requires 0 <= steps <= 5;
    lemma_div_is_ordered(0, steps * SCALE, 10);
    lemma_div_is_ordered(steps * SCALE, 5 * (SCALE as int), 10);
}

/// The average of sample sums that each stayed within one unit stays within
/// one unit.
proof fn lemma_sample_average_in_unit(sum: int, samples: int)
    requires
        0 < samples,
        0 <= sum <= samples * (SCALE as int),
    ensures
        0 <= sum / samples <= SCALE as int,
{
    lemma_div_is_ordered(0, sum, samples);
    lemma_div_is_ordered(sum, samples * (SCALE as int), samples);
    lemma_div_multiples_vanish(SCALE as int, samples);
    assert(samples * (SCALE as int) == samples * (SCALE as int));
}

} // verus!
