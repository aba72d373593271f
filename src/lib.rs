//! Escape-time rendering of the Mandelbrot set: the text parser for pairs of
//! numbers, the escape-time iteration, and the row-major grid renderer.

pub mod escape;
pub mod parse;
pub mod render;
