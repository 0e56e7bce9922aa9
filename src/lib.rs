//! Verified core of a small ray tracer: tolerant equality, square-matrix
//! index algebra, a pixel canvas and its plain-text image encoding.

pub mod canvas;
pub mod float_eq;
pub mod matrix;
pub mod ppm;
