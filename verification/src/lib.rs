//! A CPU software rasterizer: triangles with per-vertex colors are filled
//! into an RGBA8 pixel buffer by barycentric interpolation, in a scalar
//! reference path, an 8-lane path, and block-skipping variants of both.

pub mod boxfill;
pub mod canvas;
pub mod fill;
pub mod geometry;
pub mod laws;
pub mod line;
pub mod wide;
pub mod wideblock;

pub use canvas::GlaciersCanvas;
pub use geometry::Rgb;
pub use geometry::Triangle;
pub use geometry::Vec3i;
pub use geometry::Vertex;
