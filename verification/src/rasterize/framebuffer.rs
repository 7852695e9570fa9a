//! A framebuffer of packed `u32` colours, one row per scanline.
use vstd::prelude::*;

use super::line::{bresenham_line, line_points};

verus! {

/// A simple framebuffer for rasterization: `pixels[y][x]` is the colour at
/// column `x` of row `y`.
#[derive(Clone)]
pub struct Framebuffer {
    pub width: usize,
    pub height: usize,
    pub pixels: Vec<Vec<u32>>,
}

/// Whether `(x, y)` addresses a pixel of a `width` x `height` grid.
pub open spec fn in_grid(width: int, height: int, x: int, y: int) -> bool {
    0 <= x < width && 0 <= y < height
}

/// The grid `g` with the pixel at `(x, y)` set to `color` when `(x, y)` lies
/// on it, and unchanged otherwise.
pub open spec fn grid_set(g: Seq<Seq<u32>>, width: int, height: int, x: int, y: int, color: u32) -> Seq<Seq<u32>> {
    if in_grid(width, height, x, y) {
        g.update(y, g[y].update(x, color))
    } else {
        g
    }
}

/// The grid `g` after every point of `pts` has been set to `color`, in order.
pub open spec fn grid_paint(g: Seq<Seq<u32>>, width: int, height: int, pts: Seq<(i32, i32)>, color: u32) -> Seq<Seq<u32>>
    decreases pts.len(),
{
    if pts.len() == 0 {
        g
    } else {
        grid_set(
            grid_paint(g, width, height, pts.drop_last(), color),
            width,
            height,
            pts.last().0 as int,
            pts.last().1 as int,
            color,
        )
    }
}

/// A `width` x `height` grid every pixel of which is `color`.
pub open spec fn grid_filled(width: int, height: int, color: u32) -> Seq<Seq<u32>> {
    Seq::new(height as nat, |y: int| Seq::new(width as nat, |x: int| color))
}

/// Whether `g` and `h` have the same number of rows, each of the same
/// length.
pub open spec fn same_shape(g: Seq<Seq<u32>>, h: Seq<Seq<u32>>) -> bool {
    g.len() == h.len() && forall|y: int| 0 <= y < g.len() ==> #[trigger] g[y].len() == h[y].len()
}

/// Whether `g` has `height` rows of `width` pixels each.
pub open spec fn grid_shaped(g: Seq<Seq<u32>>, width: int, height: int) -> bool {
    g.len() == height && forall|y: int| 0 <= y < height ==> #[trigger] g[y].len() == width
}

impl View for Framebuffer {
    type V = Seq<Seq<u32>>;

    open spec fn view(&self) -> Seq<Seq<u32>> {
        Seq::new(self.pixels@.len(), |y: int| self.pixels@[y]@)
    }
}

impl Framebuffer {
    /// The pixel rows match the declared width and height.
    pub open spec fn wf(&self) -> bool {
        grid_shaped(self@, self.width as int, self.height as int)
    }

    /// Whether `(x, y)` addresses a pixel of this framebuffer.
    pub open spec fn contains(&self, x: int, y: int) -> bool {
        in_grid(self.width as int, self.height as int, x, y)
    }

    /// A framebuffer of the given size with every pixel 0.
    pub fn new(width: usize, height: usize) -> (fb: Self)
        ensures
            fb.wf(),
            fb.width == width,
            fb.height == height,
            fb@ == grid_filled(width as int, height as int, 0),
    {
        let mut pixels: Vec<Vec<u32>> = Vec::new();
        let mut y: usize = 0;
        while y < height
            invariant
                y <= height,
                pixels@.len() == y,
                forall|r: int|
                    0 <= r < y ==> #[trigger] pixels@[r]@ == Seq::new(width as nat, |x: int| 0u32),
            decreases height - y,
        {
            let mut row: Vec<u32> = Vec::new();
            let mut x: usize = 0;
            while x < width
                invariant
                    x <= width,
                    row@ == Seq::new(x as nat, |c: int| 0u32),
                decreases width - x,
            {
                row.push(0);
                x = x + 1;
            }
            pixels.push(row);
            y = y + 1;
        }
        let fb = Framebuffer { width, height, pixels };
        assert(fb@ =~= grid_filled(width as int, height as int, 0));
        fb
    }

    /// Whether `(x, y)`, when it lies on the framebuffer, names a pixel that
    /// `pixels` holds (which every well-formed framebuffer does).
    pub open spec fn addressable(&self, x: int, y: int) -> bool {
        self.contains(x, y) ==> y < self@.len() && x < self@[y].len()
    }

    /// Sets the pixel at `(x, y)` to `color`; a point off the framebuffer
    /// leaves it unchanged.
    pub fn set_pixel(&mut self, x: i32, y: i32, color: u32)
        requires
            old(self).addressable(x as int, y as int),
        ensures
            final(self).width == old(self).width,
            final(self).height == old(self).height,
            same_shape(final(self)@, old(self)@),
            old(self).wf() ==> final(self).wf(),
            0 <= x < old(self).width && 0 <= y < old(self).height ==> final(self)@[y as int][x as int]
                == color,
            !(0 <= x < old(self).width && 0 <= y < old(self).height) ==> final(self)@ == old(self)@,
            final(self)@ == grid_set(
                old(self)@,
                old(self).width as int,
                old(self).height as int,
                x as int,
                y as int,
                color,
            ),
    {
        if x >= 0 && (x as usize) < self.width && y >= 0 && (y as usize) < self.height {
            let xi = x as usize;
            let yi = y as usize;
            assert(self.pixels@[yi as int]@.len() == self@[yi as int].len());
            self.pixels[yi][xi] = color;
            assert(self@ =~= grid_set(
                old(self)@,
                old(self).width as int,
                old(self).height as int,
                x as int,
                y as int,
                color,
            ));
        }
    }

    /// The pixel at `(x, y)`, or `None` when `(x, y)` is off the framebuffer.
    pub fn get_pixel(&self, x: i32, y: i32) -> (color: Option<u32>)
        requires
            self.addressable(x as int, y as int),
        ensures
            0 <= x < self.width && 0 <= y < self.height ==> color == Some(self@[y as int][x as int]),
            !(0 <= x < self.width && 0 <= y < self.height) ==> color is None,
            color == (if self.contains(x as int, y as int) {
                Some(self@[y as int][x as int])
            } else {
                None
            }),
    {
        if x >= 0 && (x as usize) < self.width && y >= 0 && (y as usize) < self.height {
            let xi = x as usize;
            let yi = y as usize;
            assert(self.pixels@[yi as int]@.len() == self@[yi as int].len());
            Some(self.pixels[yi][xi])
        } else {
            None
        }
    }

    /// Draws a line using Bresenham's algorithm: every point of the line that
    /// lies on the framebuffer is set to `color`.
    pub fn draw_line(&mut self, x0: i32, y0: i32, x1: i32, y1: i32, color: u32)
        requires
            forall|k: int|
                0 <= k < line_points(x0, y0, x1, y1).len() ==> old(self).addressable(
                    (#[trigger] line_points(x0, y0, x1, y1)[k]).0 as int,
                    line_points(x0, y0, x1, y1)[k].1 as int,
                ),
        ensures
            final(self).width == old(self).width,
            final(self).height == old(self).height,
            same_shape(final(self)@, old(self)@),
            old(self).wf() ==> final(self).wf(),
            final(self)@ == grid_paint(
                old(self)@,
                old(self).width as int,
                old(self).height as int,
                line_points(x0, y0, x1, y1),
                color,
            ),
    {
        let points = bresenham_line(x0, y0, x1, y1);
        let n = points.len();
        let mut k: usize = 0;
        while k < n
            invariant
                k <= n,
                n == points@.len(),
                points@ == line_points(x0, y0, x1, y1),
                forall|j: int|
                    0 <= j < n ==> old(self).addressable(
                        (#[trigger] points@[j]).0 as int,
                        points@[j].1 as int,
                    ),
                self.width == old(self).width,
                self.height == old(self).height,
                same_shape(self@, old(self)@),
                self@ == grid_paint(
                    old(self)@,
                    old(self).width as int,
                    old(self).height as int,
                    points@.take(k as int),
                    color,
                ),
            decreases n - k,
        {
            let (px, py) = points[k];
            assert(old(self).addressable(points@[k as int].0 as int, points@[k as int].1 as int));
            self.set_pixel(px, py, color);
            assert(points@.take(k + 1).drop_last() =~= points@.take(k as int));
            k = k + 1;
        }
        assert(points@.take(n as int) =~= points@);
    }
}

/// Read after write: setting an on-grid pixel makes it read back as the new
/// colour, every other pixel keeps its value, and the grid keeps its shape.
pub proof fn lemma_set_then_get(
    g: Seq<Seq<u32>>,
    width: int,
    height: int,
    x: int,
    y: int,
    color: u32,
    qx: int,
    qy: int,
)
    requires
        grid_shaped(g, width, height),
        0 <= qx < width,
        0 <= qy < height,
    ensures
        grid_shaped(grid_set(g, width, height, x, y, color), width, height),
        grid_set(g, width, height, x, y, color)[qy][qx] == (if qx == x && qy == y {
            color
        } else {
            g[qy][qx]
        }),
{
}

/// Painting a list of points with one colour: an on-grid pixel ends up with
/// that colour exactly when it is one of the points, and keeps its value
/// otherwise, whatever the order of the points.
pub proof fn lemma_paint_cell(
    g: Seq<Seq<u32>>,
    width: int,
    height: int,
    pts: Seq<(i32, i32)>,
    color: u32,
    px: i32,
    py: i32,
)
    requires
        grid_shaped(g, width, height),
        0 <= px < width,
        0 <= py < height,
    ensures
        grid_shaped(grid_paint(g, width, height, pts, color), width, height),
        grid_paint(g, width, height, pts, color)[py as int][px as int] == (if pts.contains(
            (px, py),
        ) {
            color
        } else {
            g[py as int][px as int]
        }),
    decreases pts.len(),
{
    if pts.len() > 0 {
        let init = pts.drop_last();
        let last = pts.last();
        lemma_paint_cell(g, width, height, init, color, px, py);
        let prev = grid_paint(g, width, height, init, color);
        lemma_set_then_get(prev, width, height, last.0 as int, last.1 as int, color, px as int, py as int);
        assert(pts =~= init.push(last));
        if init.contains((px, py)) {
            let k = choose|k: int| 0 <= k < init.len() && init[k] == (px, py);
            assert(pts[k] == (px, py));
        }
        if pts.contains((px, py)) && last != (px, py) {
            let k = choose|k: int| 0 <= k < pts.len() && pts[k] == (px, py);
            assert(init[k] == (px, py));
        }
        if last == (px, py) {
            assert(pts[pts.len() - 1] == (px, py));
        }
    }
}

/// Painting points keeps the grid's shape.
pub proof fn lemma_paint_shaped(g: Seq<Seq<u32>>, width: int, height: int, pts: Seq<(i32, i32)>, color: u32)
    requires
        grid_shaped(g, width, height),
    ensures
        grid_shaped(grid_paint(g, width, height, pts, color), width, height),
    decreases pts.len(),
{
    if pts.len() > 0 {
        lemma_paint_shaped(g, width, height, pts.drop_last(), color);
    }
}

/// A pixel is on a framebuffer exactly when its column is in `0..width` and
/// its row in `0..height`.
pub proof fn lemma_contains_bounds(fb: Framebuffer, x: int, y: int)
    ensures
        fb.contains(x, y) <==> (0 <= x < fb.width && 0 <= y < fb.height),
{
}

/// On a well-formed framebuffer every pixel in `0..width` x `0..height` can
/// be read and written, and setting it to a colour makes it read back as
/// that colour.
pub proof fn lemma_well_formed_pixels(fb: Framebuffer, x: i32, y: i32, color: u32)
    requires
        fb.wf(),
        0 <= x < fb.width,
        0 <= y < fb.height,
    ensures
        fb.addressable(x as int, y as int),
        fb.contains(x as int, y as int),
        grid_set(fb@, fb.width as int, fb.height as int, x as int, y as int, color)[y as int][x as int]
            == color,
{
}

} // verus!
