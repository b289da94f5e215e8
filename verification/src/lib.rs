//! The discrete core of a sphere ray tracer.
//!
//! Everything a renderer decides without doing arithmetic on reals lives
//! here: how two single-precision numbers are ordered, which root of a
//! sphere's quadratic counts as the hit, which object of a scene is struck
//! first, when a light path ends, which rows of the image each worker owns,
//! and where every finished pixel lands in the output image.
pub mod scalar;
pub mod sphere;
pub mod scene;
pub mod integrator;
pub mod schedule;
pub mod canvas;
pub mod material;
pub mod validate;
