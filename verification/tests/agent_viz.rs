use lau_computer_graphics::agent_viz::{pack_rgb, render_screen, ScreenAgent, ScreenLink};
use lau_computer_graphics::rasterize::line::bresenham_line;

#[test]
fn pack_rgb_channels() {
    assert_eq!(pack_rgb(0xFF, 0x80, 0x01), 0xFF8001);
    assert_eq!(pack_rgb(0, 0, 0), 0);
    assert_eq!(pack_rgb(255, 255, 255), 0xFFFFFF);
    assert_eq!(pack_rgb(0x12, 0x34, 0x56), 0x123456);
}

#[test]
fn render_markers_over_links() {
    let agents = vec![
        ScreenAgent { x: 2, y: 2, color: 0xFF0000 },
        ScreenAgent { x: 17, y: 17, color: 0x0000FF },
    ];
    let links = vec![ScreenLink { from: 0, to: 1, color: 0x7F7F7F }];
    let fb = render_screen(20, 20, &agents, &links);
    assert_eq!(fb.width, 20);
    assert_eq!(fb.height, 20);
    // Markers are 3x3 and on top of the line.
    for dx in -1..=1 {
        for dy in -1..=1 {
            assert_eq!(fb.get_pixel(2 + dx, 2 + dy), Some(0xFF0000));
            assert_eq!(fb.get_pixel(17 + dx, 17 + dy), Some(0x0000FF));
        }
    }
    // The link shows between the markers.
    assert_eq!(fb.get_pixel(10, 10), Some(0x7F7F7F));
    // Background stays black.
    assert_eq!(fb.get_pixel(0, 19), Some(0));
    let drawn: usize = fb.pixels.iter().flatten().filter(|&&p| p != 0).count();
    assert_eq!(drawn, 9 + 9 + 12);
    // Two columns from a centre is past the marker.
    assert_eq!(fb.get_pixel(4, 2), Some(0));
}

#[test]
fn render_later_marker_wins() {
    let agents = vec![
        ScreenAgent { x: 5, y: 5, color: 1 },
        ScreenAgent { x: 6, y: 5, color: 2 },
    ];
    let fb = render_screen(12, 12, &agents, &vec![]);
    assert_eq!(fb.get_pixel(4, 5), Some(1));
    assert_eq!(fb.get_pixel(5, 5), Some(2));
    assert_eq!(fb.get_pixel(7, 6), Some(2));
    assert_eq!(fb.get_pixel(8, 5), Some(0));
    assert_eq!(fb.get_pixel(3, 5), Some(0));
}

#[test]
fn render_skips_links_to_missing_agents() {
    let agents = vec![ScreenAgent { x: 1, y: 1, color: 3 }];
    let links = vec![
        ScreenLink { from: 0, to: 5, color: 9 },
        ScreenLink { from: 7, to: 0, color: 9 },
    ];
    let fb = render_screen(10, 10, &agents, &links);
    assert!(fb.pixels.iter().flatten().all(|&p| p == 0 || p == 3));
}

#[test]
fn render_single_agent_is_a_3x3_square() {
    let agents = vec![ScreenAgent { x: 5, y: 5, color: 1 }];
    let fb = render_screen(10, 10, &agents, &vec![]);
    for y in 0..10 {
        for x in 0..10 {
            let expected = if (x - 5i32).abs() <= 1 && (y - 5i32).abs() <= 1 { 1 } else { 0 };
            assert_eq!(fb.get_pixel(x, y), Some(expected));
        }
    }
}

#[test]
fn render_clips_markers_at_the_border() {
    let agents = vec![ScreenAgent { x: 0, y: 9, color: 4 }];
    let fb = render_screen(10, 10, &agents, &vec![]);
    let drawn: usize = fb.pixels.iter().flatten().filter(|&&p| p == 4).count();
    assert_eq!(drawn, 4);
}

#[test]
fn render_line_matches_bresenham() {
    let agents = vec![
        ScreenAgent { x: 3, y: 30, color: 0 },
        ScreenAgent { x: 40, y: 8, color: 0 },
    ];
    let links = vec![ScreenLink { from: 1, to: 0, color: 5 }];
    let fb = render_screen(50, 50, &agents, &links);
    for (x, y) in bresenham_line(40, 8, 3, 30) {
        assert_eq!(fb.get_pixel(x, y), Some(if (x - 3).abs() <= 1 && (y - 30).abs() <= 1 || (x - 40).abs() <= 1 && (y - 8).abs() <= 1 { 0 } else { 5 }));
    }
}
