//! A small software rasterizer: geometric primitives (pixels, lines, circles,
//! polygons) are scan-converted into an in-memory color buffer using
//! integer-only midpoint algorithms, with alpha compositing.

pub mod canvas;
pub mod circle;
pub mod clamp;
pub mod color;
pub mod drawables;
pub mod laws;
pub mod line;
pub mod polygon;
pub mod polyline;
