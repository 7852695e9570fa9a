use lau_computer_graphics::rasterize::framebuffer::Framebuffer;
use lau_computer_graphics::rasterize::line::bresenham_line;
use lau_computer_graphics::rasterize::triangle::scanline_triangle;

fn is_neighbour_step(p: (i32, i32), q: (i32, i32)) -> bool {
    (p.0 - q.0).abs() <= 1 && (p.1 - q.1).abs() <= 1 && p != q
}

#[test]
fn bresenham_steep_exact_points() {
    let pts = bresenham_line(0, 0, 1, 5);
    assert_eq!(pts, vec![(0, 0), (0, 1), (0, 2), (1, 3), (1, 4), (1, 5)]);
}

#[test]
fn bresenham_shallow_exact_points() {
    let pts = bresenham_line(0, 0, 6, 2);
    assert_eq!(pts, vec![(0, 0), (1, 0), (2, 1), (3, 1), (4, 1), (5, 2), (6, 2)]);
}

#[test]
fn bresenham_negative_octant() {
    let pts = bresenham_line(2, 3, -2, 1);
    assert_eq!(pts.len(), 5);
    assert_eq!(pts[0], (2, 3));
    assert_eq!(pts[4], (-2, 1));
    for w in pts.windows(2) {
        assert!(is_neighbour_step(w[0], w[1]));
        assert_eq!(w[1].0, w[0].0 - 1);
    }
}

#[test]
fn bresenham_shape_on_many_lines() {
    for &(x0, y0, x1, y1) in &[(0, 0, 7, 3), (-4, 9, 3, -2), (10, 10, 10, -5), (1, 1, -6, 1), (0, 0, -3, -8)] {
        let pts = bresenham_line(x0, y0, x1, y1);
        let steps = ((x1 - x0) as i32).abs().max(((y1 - y0) as i32).abs()) as usize;
        assert_eq!(pts.len(), steps + 1);
        assert_eq!(pts[0], (x0, y0));
        assert_eq!(*pts.last().unwrap(), (x1, y1));
        for w in pts.windows(2) {
            assert!(is_neighbour_step(w[0], w[1]));
            assert!((w[1].0 - x1).abs() <= (w[0].0 - x1).abs());
            assert!((w[1].1 - y1).abs() <= (w[0].1 - y1).abs());
        }
    }
}

#[test]
fn bresenham_extreme_coordinates() {
    let pts = bresenham_line(i32::MAX, i32::MIN, i32::MAX - 3, i32::MIN + 1);
    assert_eq!(pts.len(), 4);
    assert_eq!(pts[0], (i32::MAX, i32::MIN));
    assert_eq!(pts[3], (i32::MAX - 3, i32::MIN + 1));
}

#[test]
fn scanline_triangle_exact_points() {
    let pts = scanline_triangle(0, 0, 4, 0, 2, 4);
    let expected = vec![
        (0, 0), (1, 0), (2, 0), (3, 0), (4, 0),
        (1, 1), (2, 1), (3, 1),
        (1, 2), (2, 2), (3, 2),
        (2, 3),
        (2, 4),
    ];
    assert_eq!(pts, expected);
}

#[test]
fn scanline_triangle_flat_is_empty() {
    assert!(scanline_triangle(0, 0, 4, 0, 2, 0).is_empty());
}

#[test]
fn scanline_triangle_flat_top_includes_top_row() {
    // The two upper vertices share row 4, which is filled too.
    let pts = scanline_triangle(0, 0, 4, 4, 0, 4);
    for x in 0..=4 {
        assert!(pts.contains(&(x, 4)));
    }
    assert!(pts.contains(&(3, 3)));
    assert!(pts.contains(&(0, 3)));
    assert!(!pts.contains(&(4, 3)));
    assert!(!pts.contains(&(5, 4)));
}

#[test]
fn scanline_triangle_flat_top_exact_points() {
    let pts = scanline_triangle(0, 0, -2, 2, 2, 2);
    assert_eq!(
        pts,
        vec![(0, 0), (-1, 1), (0, 1), (1, 1), (-2, 2), (-1, 2), (0, 2), (1, 2), (2, 2)]
    );
}

#[test]
fn scanline_triangle_flat_bottom_exact_points() {
    let pts = scanline_triangle(-2, 0, 2, 0, 0, 2);
    assert_eq!(
        pts,
        vec![(-2, 0), (-1, 0), (0, 0), (1, 0), (2, 0), (-1, 1), (0, 1), (1, 1), (0, 2)]
    );
}

#[test]
fn scanline_triangle_vertex_order_irrelevant() {
    let a = scanline_triangle(1, -2, 7, 3, -3, 5);
    let b = scanline_triangle(-3, 5, 1, -2, 7, 3);
    let c = scanline_triangle(7, 3, -3, 5, 1, -2);
    assert_eq!(a, b);
    assert_eq!(a, c);
}

fn orient(p: (i32, i32), q: (i32, i32), r: (i32, i32)) -> i64 {
    (q.0 - p.0) as i64 * (r.1 - p.1) as i64 - (q.1 - p.1) as i64 * (r.0 - p.0) as i64
}

fn check_inside_and_ordered(v0: (i32, i32), v1: (i32, i32), v2: (i32, i32)) {
    let inside = |p: (i32, i32)| {
        let (a, b, c) = (orient(v0, v1, p), orient(v1, v2, p), orient(v2, v0, p));
        (a >= 0 && b >= 0 && c >= 0) || (a <= 0 && b <= 0 && c <= 0)
    };
    let pts = scanline_triangle(v0.0, v0.1, v1.0, v1.1, v2.0, v2.1);
    for y in -12..=12 {
        for x in -12..=12 {
            assert_eq!(pts.contains(&(x, y)), inside((x, y)), "at ({}, {})", x, y);
        }
    }
    for w in pts.windows(2) {
        assert!(w[0].1 < w[1].1 || (w[0].1 == w[1].1 && w[0].0 < w[1].0));
    }
}

#[test]
fn scanline_triangle_points_inside_and_ordered() {
    check_inside_and_ordered((1, -2), (7, 3), (-3, 5));
    check_inside_and_ordered((-5, 4), (6, 4), (0, -7));
    check_inside_and_ordered((-5, -4), (6, -4), (9, 8));
    check_inside_and_ordered((2, -9), (-8, 1), (10, 10));
}

#[test]
fn bresenham_within_half_a_pixel() {
    for &(x0, y0, x1, y1) in &[(0, 0, 7, 3), (-4, 9, 3, -2), (5, 5, -9, 1), (0, 0, -3, -8), (2, 1, 13, 6)] {
        let steps = ((x1 - x0) as i64).abs().max(((y1 - y0) as i64).abs());
        for (px, py) in bresenham_line(x0, y0, x1, y1) {
            let c = (py - y0) as i64 * (x1 - x0) as i64 - (px - x0) as i64 * (y1 - y0) as i64;
            assert!((2 * c).abs() <= steps);
        }
    }
}

#[test]
fn framebuffer_new_is_black() {
    let fb = Framebuffer::new(3, 2);
    assert_eq!(fb.width, 3);
    assert_eq!(fb.height, 2);
    assert_eq!(fb.pixels, vec![vec![0u32; 3]; 2]);
}

#[test]
fn framebuffer_set_outside_is_ignored() {
    let mut fb = Framebuffer::new(4, 4);
    fb.set_pixel(-1, 2, 7);
    fb.set_pixel(4, 0, 7);
    fb.set_pixel(0, 4, 7);
    fb.set_pixel(2, -3, 7);
    assert_eq!(fb.pixels, vec![vec![0u32; 4]; 4]);
    assert_eq!(fb.get_pixel(0, -1), None);
    assert_eq!(fb.get_pixel(0, 4), None);
}

#[test]
fn framebuffer_set_touches_one_pixel() {
    let mut fb = Framebuffer::new(4, 3);
    fb.set_pixel(3, 2, 9);
    fb.set_pixel(1, 0, 5);
    fb.set_pixel(1, 0, 6);
    assert_eq!(fb.pixels, vec![vec![0, 6, 0, 0], vec![0, 0, 0, 0], vec![0, 0, 0, 9]]);
    assert_eq!(fb.get_pixel(3, 2), Some(9));
}

#[test]
fn framebuffer_draw_line_clips_and_keeps_rest() {
    let mut fb = Framebuffer::new(3, 3);
    fb.set_pixel(2, 0, 4);
    fb.draw_line(-2, -2, 5, 5, 1);
    assert_eq!(fb.pixels, vec![vec![1, 0, 4], vec![0, 1, 0], vec![0, 0, 1]]);
}

#[test]
fn framebuffer_wider_rows_than_declared() {
    // Rows longer than `width`: on-grid pixels are still addressable.
    let mut fb = Framebuffer { width: 2, height: 2, pixels: vec![vec![0; 4], vec![0; 4]] };
    fb.set_pixel(1, 1, 8);
    fb.set_pixel(3, 0, 8);
    assert_eq!(fb.get_pixel(1, 1), Some(8));
    assert_eq!(fb.get_pixel(3, 0), None);
    assert_eq!(fb.pixels, vec![vec![0, 0, 0, 0], vec![0, 8, 0, 0]]);
}
