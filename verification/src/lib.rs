//! Pixel rasters for Mandelbrot rendering and complex-plane image transforms.
//!
//! The crate holds the integer side of both pipelines: how pixels are laid
//! out in raster order, how the bounding box of a pixel set is found, and how
//! a set of moved pixels is put back into a deterministic order.

pub mod convert;
pub mod order;
pub mod raster;
pub mod render;
pub mod sort;
