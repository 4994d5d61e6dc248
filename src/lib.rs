//! A small 2D geometry kernel on integer pixel coordinates: point algebra,
//! two segment clipping algorithms, line rasterization and alpha compositing.

pub mod color;
pub mod point;
pub mod segment;
pub mod draw;

pub mod clipping;
pub mod scene;
