//! The discrete core of a CPU ray tracer: raster storage, the row-major walk
//! over its pixels, the static split of scanlines among render workers, the
//! choice of the nearest hit in a scene, the course of a light path under its
//! bounce budget, and the plain-text PPM encoding of the finished image.
//!
//! Everything here works on integers and bytes. Vectors, intersections and
//! materials are real-number computations and live with the program that
//! drives this library.

pub mod colors;
pub mod integrator;
pub mod pixelbuffer;
pub mod ppm;
pub mod scene;
pub mod schedule;
