//! Escape-time rendering of the Mandelbrot set into an 8-bit grayscale raster.
//!
//! The floating-point work (mapping a pixel to a point of the complex plane,
//! squaring and adding complex numbers) is done by the caller. This library
//! holds the decisions around it: when an orbit has escaped or is taken as
//! bounded, which byte a pixel gets, and in which order the pixels of the
//! raster are laid out.
pub mod escape;
pub mod raster;
