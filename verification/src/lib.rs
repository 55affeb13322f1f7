//! A small ray tracer over fixed-point arithmetic.
//!
//! Geometry is carried in signed 64-bit fixed-point values with `SCALE`
//! ticks per world unit, so every computation is exact integer arithmetic
//! and each function's contract pins its result down completely.

pub mod math;
pub mod vec3;
pub mod geom;
pub mod scene;
pub mod render;
pub mod image;
