//! A path-tracing renderer over fixed-point arithmetic.
//!
//! Geometry, materials, camera and the recursive radiance estimator all
//! work on 16.16 fixed-point values, so every step of the rendering
//! pipeline carries a precise contract.

pub mod fixed;
pub mod vec3;
pub mod rng;
pub mod ray;
pub mod material;
pub mod shape;
pub mod camera;
pub mod tracer;
pub mod render;
pub mod laws;
