# lau_computer_graphics

Computer graphics fundamentals. The integer core is a Verus-verified library
(`src/`):

- `rasterize::line` — Bresenham's line algorithm, specified as the error-term
  walk it performs, with the shape of every line proved (length, endpoints,
  8-connected steps toward the end point, every pixel within half a pixel of
  the ideal segment).
- `rasterize::triangle` — scanline triangle filling with exact (rational)
  edge crossings, proved to yield exactly the integer points inside the
  triangle (none when all three vertices share a row), in scan order.
- `rasterize::framebuffer` — a framebuffer of packed colours with bounds-checked
  reads and writes and line drawing.
- `agent_viz` — drawing a scene of on-screen agents and their interactions
  (lines, then 3x3 markers on top) and packing RGB channels.

`app/` holds the floating-point side (colour models, transforms, projections,
shading, ray tracing, Bézier curves, agent scenes over nalgebra), which maps
scenes to pixels and calls the library to draw them.
