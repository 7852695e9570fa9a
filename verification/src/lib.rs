//! Computer graphics fundamentals: integer rasterization (Bresenham lines,
//! scanline triangles, a framebuffer) and the pixel-level drawing of agent
//! scenes, each with a machine-checked contract.

pub mod agent_viz;
pub mod rasterize;

pub use rasterize::framebuffer::Framebuffer;
pub use rasterize::line::bresenham_line;
pub use rasterize::triangle::scanline_triangle;
