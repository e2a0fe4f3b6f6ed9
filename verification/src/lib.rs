//! Palette quantization and dithering of raw RGB pixel buffers.
//!
//! A pixel buffer is a flat sequence of 8-bit samples, three per pixel in
//! the order red, green, blue, rows stored top to bottom without padding.
//! [`dither::dither`] changes such a buffer in place so that every pixel
//! holds a color of the selected palette.
//!
//! All arithmetic is exact: kernel weights and thresholds are fractions
//! with an integer numerator and a common divisor, and every function's
//! result is stated over mathematical integers and sequences.
//!
//! - [`palette`]: colors, the built-in palettes, the nearest-color mapper.
//! - [`raster`]: how pixels lie in a buffer; quantization without dithering.
//! - [`diffusion`]: error diffusion with a kernel.
//! - [`ordered`]: ordered dithering with a threshold matrix.
//! - [`dither`]: the methods, their tables and the dispatcher.
//! - [`tables`]: what holds of the built-in kernels and matrices.

pub mod diffusion;
pub mod dither;
pub mod ordered;
pub mod palette;
pub mod raster;
pub mod tables;
