//! A small software rasterization library: packed RGB colors and a
//! line rasterizer that writes straight segments into a row-major
//! pixel buffer.

pub mod color;
pub mod raster;
