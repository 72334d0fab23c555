//! Fixed-width, multi-word two's-complement fixed-point numbers for deep
//! Mandelbrot zooms, and the coordinate manager that resizes them.

pub mod algebra;
pub mod binary32;
pub mod float;
pub mod gpu;
pub mod primitives;
pub mod words;
