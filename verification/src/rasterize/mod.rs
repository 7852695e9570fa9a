//! Rasterization: Bresenham line drawing, scanline triangle filling and a
//! simple framebuffer.

pub mod framebuffer;
pub mod line;
pub mod triangle;

pub use self::framebuffer::Framebuffer;
pub use self::line::bresenham_line;
pub use self::triangle::scanline_triangle;
