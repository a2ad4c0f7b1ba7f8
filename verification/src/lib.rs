//! A minimal software rasterizer: an RGBA pixel buffer together with
//! integer scan-conversion algorithms (point, Bresenham line, midpoint
//! circle, triangle outline) that write into it.

pub mod buffer;
pub mod circle;
pub mod color;
pub mod geom;
pub mod line;
pub mod raster;
