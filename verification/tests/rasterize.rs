use lau_computer_graphics::rasterize::framebuffer::Framebuffer;
use lau_computer_graphics::rasterize::line::bresenham_line;
use lau_computer_graphics::rasterize::triangle::scanline_triangle;

#[test]
fn test_bresenham_horizontal() {
    let pts = bresenham_line(0, 0, 5, 0);
    assert_eq!(pts.len(), 6);
    for i in 0..=5 {
        assert_eq!(pts[i], (i as i32, 0));
    }
}

#[test]
fn test_bresenham_vertical() {
    let pts = bresenham_line(3, 2, 3, 5);
    assert_eq!(pts.len(), 4);
    assert_eq!(pts[0], (3, 2));
    assert_eq!(pts[3], (3, 5));
}

#[test]
fn test_bresenham_diagonal() {
    let pts = bresenham_line(0, 0, 3, 3);
    assert_eq!(pts.len(), 4);
    for i in 0..=3 {
        assert_eq!(pts[i], (i as i32, i as i32));
    }
}

#[test]
fn test_bresenham_reverse() {
    let pts = bresenham_line(5, 0, 0, 0);
    assert_eq!(pts.len(), 6);
    assert_eq!(pts[0], (5, 0));
    assert_eq!(pts[5], (0, 0));
}

#[test]
fn test_bresenham_single_point() {
    let pts = bresenham_line(3, 3, 3, 3);
    assert_eq!(pts, vec![(3, 3)]);
}

#[test]
fn test_scanline_triangle_basic() {
    let pts = scanline_triangle(0, 0, 4, 0, 2, 4);
    assert!(!pts.is_empty());
    // Should contain the centroid area
    assert!(pts.contains(&(2, 2)));
}

#[test]
fn test_scanline_triangle_flat() {
    let _pts = scanline_triangle(0, 0, 4, 0, 2, 0);
    // Degenerate: all y=0, should have limited or no fill
    // Points may be limited since height is 0
}

#[test]
fn test_framebuffer_set_get() {
    let mut fb = Framebuffer::new(10, 10);
    fb.set_pixel(5, 5, 0xFF0000);
    assert_eq!(fb.get_pixel(5, 5), Some(0xFF0000));
    assert_eq!(fb.get_pixel(-1, 0), None);
    assert_eq!(fb.get_pixel(10, 0), None);
}

#[test]
fn test_framebuffer_draw_line() {
    let mut fb = Framebuffer::new(20, 20);
    fb.draw_line(0, 0, 5, 0, 0xFFFFFF);
    for x in 0..=5 {
        assert_eq!(fb.get_pixel(x, 0), Some(0xFFFFFF));
    }
}

#[test]
fn test_bresenham_steep() {
    let pts = bresenham_line(0, 0, 1, 5);
    assert_eq!(pts.len(), 6);
    assert_eq!(pts[0], (0, 0));
    assert_eq!(pts[5], (1, 5));
}
