//! A Monte-Carlo path tracer core with verified fixed-point geometry.
//!
//! Every geometric and color quantity is an `i64` holding a real value
//! scaled by [`fixed::SCALE`]; all arithmetic is exact integer arithmetic
//! whose behaviour is stated in the function contracts.

pub mod camera;
pub mod fixed;
pub mod material;
pub mod ray;
pub mod render;
pub mod rng;
pub mod shape;
pub mod sphere;
pub mod vec3;

pub use camera::Camera;
pub use fixed::SCALE;
pub use material::Material;
pub use ray::Ray;
pub use shape::Shape;
pub use sphere::Sphere;
pub use vec3::Vec3;
