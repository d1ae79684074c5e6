//! Order-level core of a sphere path tracer.
//!
//! Coordinates and ray parameters are carried as order keys: signed integers
//! that compare exactly as the quantities they stand for. Everything here only
//! compares such keys, so it is exact; the floating-point arithmetic that
//! produces them lives with the caller.
pub mod aabb;
pub mod sphere;
pub mod probe;
pub mod bvh;
pub mod world;
