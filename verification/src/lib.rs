//! A small recursive ray tracer over exact fixed-point arithmetic.
//!
//! Geometry, colors and ray parameters are encoded as signed integers scaled
//! by [`fixed::SCALE`]; every operation of the rendering core is specified by
//! an exact mathematical twin, so sphere intersection, the aggregate world
//! scan, material scattering and the recursive color integrator are verified
//! down to the rounding of each division and square root.

pub mod camera;
pub mod color;
pub mod fixed;
pub mod hittable;
pub mod material;
pub mod objects;
pub mod ppm;
pub mod random;
pub mod ray;
pub mod vec3;
