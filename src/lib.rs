//! Rendering the Mandelbrot set into a grayscale pixel buffer: the parts of
//! the work that are exact integer and text logic.

pub mod pair;
pub mod band;
pub mod render;
