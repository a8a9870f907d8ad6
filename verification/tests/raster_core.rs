//! Buffer primitives: construction, clear, bounds-checked point writes.

use glaciers::GlaciersCanvas;
use glaciers::Rgb;
use glaciers::Triangle;
use glaciers::Vec3i;
use glaciers::Vertex;

fn core_all_zero(c: &GlaciersCanvas) -> bool {
    let (w, h) = c.size();
    for y in 0..h {
        for x in 0..w {
            if c.get_pixel((x, y)) != Some([0, 0, 0, 0]) {
                return false;
            }
        }
    }
    true
}

#[test]
fn size_reports_dimensions() {
    let c = GlaciersCanvas::new(17, 9);
    assert_eq!(c.size(), (17, 9));
}

#[test]
fn new_canvas_is_cleared() {
    let c = GlaciersCanvas::new(8, 8);
    assert!(core_all_zero(&c));
}

#[test]
fn clear_resets_every_pixel() {
    let mut c = GlaciersCanvas::new(16, 16);
    c.draw_point((3, 4), [10, 20, 30, 40]);
    c.draw_point((15, 15), [1, 2, 3, 4]);
    c.clear();
    assert!(core_all_zero(&c));
}

#[test]
fn draw_point_writes_all_four_channels() {
    let mut c = GlaciersCanvas::new(10, 10);
    c.draw_point((7, 2), [11, 22, 33, 44]);
    assert_eq!(c.get_pixel((7, 2)), Some([11, 22, 33, 44]));
    assert_eq!(c.get_pixel((2, 7)), Some([0, 0, 0, 0]));
}

#[test]
fn draw_point_at_size_is_noop() {
    let mut c = GlaciersCanvas::new(10, 10);
    c.draw_point((10, 5), [255, 255, 255, 255]);
    c.draw_point((5, 10), [255, 255, 255, 255]);
    c.draw_point((10, 10), [255, 255, 255, 255]);
    assert!(core_all_zero(&c));
}

#[test]
fn draw_point_far_out_of_bounds_is_noop() {
    let mut c = GlaciersCanvas::new(10, 10);
    c.draw_point((u32::MAX, 0), [255, 255, 255, 255]);
    c.draw_point((0, u32::MAX), [255, 255, 255, 255]);
    c.draw_point((u32::MAX, u32::MAX), [255, 255, 255, 255]);
    assert!(core_all_zero(&c));
}

#[test]
fn draw_point_does_not_corrupt_neighbors() {
    let mut c = GlaciersCanvas::new(4, 4);
    c.draw_point((1, 1), [9, 9, 9, 9]);
    c.draw_point((2, 1), [7, 7, 7, 7]);
    assert_eq!(c.get_pixel((1, 1)), Some([9, 9, 9, 9]));
    assert_eq!(c.get_pixel((2, 1)), Some([7, 7, 7, 7]));
    assert_eq!(c.get_pixel((0, 1)), Some([0, 0, 0, 0]));
    assert_eq!(c.get_pixel((3, 1)), Some([0, 0, 0, 0]));
    assert_eq!(c.get_pixel((1, 0)), Some([0, 0, 0, 0]));
    assert_eq!(c.get_pixel((1, 2)), Some([0, 0, 0, 0]));
}

#[test]
fn zero_size_canvas_is_safe() {
    let mut c = GlaciersCanvas::new(0, 0);
    assert_eq!(c.size(), (0, 0));
    assert_eq!(c.get_pixel((0, 0)), None);
    c.clear();
    c.draw_point((0, 0), [1, 2, 3, 4]);
    let t = Triangle::new([
        Vertex::new(Vec3i::new(0, 0, 0), Rgb::new(255, 0, 0)),
        Vertex::new(Vec3i::new(0, 4, 0), Rgb::new(0, 255, 0)),
        Vertex::new(Vec3i::new(4, 0, 0), Rgb::new(0, 0, 255)),
    ]);
    c.draw_triangle(&t);
    c.draw_triangle_wide(&t);
    c.draw_triangle_box(&t, false);
    c.draw_triangle_wide_box(&t, false);
    assert_eq!(c.get_pixel((0, 0)), None);
}

#[test]
fn draw_line_horizontal_inclusive() {
    let mut c = GlaciersCanvas::new(10, 10);
    c.draw_line(Vec3i::new(2, 3, 0), Vec3i::new(7, 3, 0), [5, 6, 7, 8]);
    for x in 2..=7 {
        assert_eq!(c.get_pixel((x, 3)), Some([5, 6, 7, 8]));
    }
    assert_eq!(c.get_pixel((1, 3)), Some([0, 0, 0, 0]));
    assert_eq!(c.get_pixel((8, 3)), Some([0, 0, 0, 0]));
}

#[test]
fn draw_line_diagonal_inclusive() {
    let mut c = GlaciersCanvas::new(10, 10);
    c.draw_line(Vec3i::new(0, 0, 0), Vec3i::new(4, 4, 0), [1, 1, 1, 1]);
    for k in 0..=4 {
        assert_eq!(c.get_pixel((k, k)), Some([1, 1, 1, 1]));
    }
    assert_eq!(c.get_pixel((5, 5)), Some([0, 0, 0, 0]));
}

#[test]
fn draw_line_single_point() {
    let mut c = GlaciersCanvas::new(10, 10);
    c.draw_line(Vec3i::new(4, 4, 0), Vec3i::new(4, 4, 0), [2, 3, 4, 5]);
    assert_eq!(c.get_pixel((4, 4)), Some([2, 3, 4, 5]));
    assert_eq!(c.get_pixel((4, 5)), Some([0, 0, 0, 0]));
}

#[test]
fn draw_line_clips_out_of_canvas() {
    let mut c = GlaciersCanvas::new(5, 5);
    c.draw_line(Vec3i::new(-3, 2, 0), Vec3i::new(8, 2, 0), [9, 9, 9, 9]);
    for x in 0..5 {
        assert_eq!(c.get_pixel((x, 2)), Some([9, 9, 9, 9]));
    }
}

#[test]
fn wireframe_colors_the_vertices() {
    let mut c = GlaciersCanvas::new(20, 20);
    let t = Triangle::new([
        Vertex::new(Vec3i::new(2, 2, 0), Rgb::new(255, 0, 0)),
        Vertex::new(Vec3i::new(2, 17, 0), Rgb::new(0, 255, 0)),
        Vertex::new(Vec3i::new(17, 2, 0), Rgb::new(0, 0, 255)),
    ]);
    c.draw_triangle_wireframe(&t, [200, 100, 50, 255]);
    assert_eq!(c.get_pixel((2, 2)), Some([200, 100, 50, 255]));
    assert_eq!(c.get_pixel((2, 17)), Some([200, 100, 50, 255]));
    assert_eq!(c.get_pixel((17, 2)), Some([200, 100, 50, 255]));
    // A pixel far from all three edges stays untouched.
    assert_eq!(c.get_pixel((12, 12)), Some([0, 0, 0, 0]));
}
