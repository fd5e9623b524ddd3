//! A minimal raster-image library: a dense grid of RGB pixels with
//! bounds-checked access, line and filled-circle rasterization, and a
//! plain-text (PPM) serializer.
//!
//! The grid uses a bottom-left origin: cell (0, 0) is the bottom-left
//! corner and y grows upward.

pub mod arith;
pub mod geometry;
pub mod image;
pub mod pixel;
pub mod render;

pub use geometry::Coord;
pub use geometry::lerp;
pub use image::ImagePPM;
pub use pixel::Pixel;
pub use render::PpmFormat;
