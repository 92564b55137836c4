//! A recursive path-tracing renderer with a verified core.
//!
//! Geometry and radiometry are carried in fixed-point arithmetic: every
//! quantity is an `i64` holding its real value scaled by `math::SCALE`.
//! Cameras fire jittered sample rays at a scene of spheres, rays scatter off
//! diffuse or mirror materials, and the recursive radiance function
//! accumulates attenuated contributions until a ray escapes to the background
//! gradient or the depth budget runs out.

pub mod camera;
pub mod hit;
pub mod interval;
pub mod material;
pub mod math;
pub mod ray;
pub mod rng;
pub mod sphere;
pub mod vector;
pub mod world;
