//! A path tracer over spheres: vector algebra, bounding boxes and the slab
//! test, sphere intersection, a bounding-volume hierarchy, diffuse, metal
//! and glass materials, the path integrator and the per-scanline renderer.
//!
//! Coordinates, colors and ray parameters are fixed-point integers with
//! `vector::SCALE` units to `1.0`, so every intersection test, scattering
//! rule and pixel formula is exact integer arithmetic with a proved
//! contract. Random numbers come from `rand`'s seeded generator; the
//! functions that draw them state what holds for every draw, and each has a
//! companion (`scatter_with`, `get_ray_with`) that takes the draw as an
//! argument and states the exact result.

pub mod arith;
pub mod vector;
pub mod aabb;
pub mod models;
pub mod bvh;
pub mod random;
pub mod material;
pub mod world;
pub mod camera;
pub mod renderer;
