//! A small software rasterizer: a pixel buffer with bounds-checked (or
//! wrapped) pixel writes, Bresenham line drawing, scanline triangle fill and
//! bitmap-font text, each stated over a mathematical model of the buffer.
pub mod canvas;
pub mod line;
pub mod triangle;
pub mod text;

pub use canvas::Canvas;
pub use text::TextError;
pub use triangle::{ScreenPoint, ScreenTriangle};
