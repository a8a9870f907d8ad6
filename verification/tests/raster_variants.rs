//! The 8-lane fill and the block-skipping fills, held against the scalar
//! reference fill.

use glaciers::GlaciersCanvas;
use glaciers::Rgb;
use glaciers::Triangle;
use glaciers::Vec3i;
use glaciers::Vertex;

fn var_canvases_equal(a: &GlaciersCanvas, b: &GlaciersCanvas) -> bool {
    let (w, h) = a.size();
    if b.size() != (w, h) {
        return false;
    }
    for y in 0..h {
        for x in 0..w {
            if a.get_pixel((x, y)) != b.get_pixel((x, y)) {
                return false;
            }
        }
    }
    true
}

/// Every pixel of `part` equals the same pixel of `whole` or is untouched
/// (still cleared): the block-skipping fills' guarantee.
fn var_subset_of(part: &GlaciersCanvas, whole: &GlaciersCanvas) -> bool {
    let (w, h) = part.size();
    for y in 0..h {
        for x in 0..w {
            let p = part.get_pixel((x, y));
            if p != whole.get_pixel((x, y)) && p != Some([0, 0, 0, 0]) {
                return false;
            }
        }
    }
    true
}

fn var_rgb_triangle(v0: (i32, i32), v1: (i32, i32), v2: (i32, i32)) -> Triangle {
    Triangle::new([
        Vertex::new(Vec3i::new(v0.0, v0.1, 0), Rgb::new(255, 40, 0)),
        Vertex::new(Vec3i::new(v1.0, v1.1, 0), Rgb::new(0, 255, 120)),
        Vertex::new(Vec3i::new(v2.0, v2.1, 0), Rgb::new(30, 0, 255)),
    ])
}

#[test]
fn scalar_and_wide_agree_width_multiple_of_8() {
    // Bounding box width 16: a whole number of 8-pixel spans.
    let t = var_rgb_triangle((0, 0), (0, 16), (16, 0));
    assert!(t.is_visible());
    let mut a = GlaciersCanvas::new(24, 24);
    let mut b = GlaciersCanvas::new(24, 24);
    a.draw_triangle(&t);
    b.draw_triangle_wide(&t);
    assert!(var_canvases_equal(&a, &b));
}

#[test]
fn scalar_and_wide_agree_odd_width() {
    // Box width 13: the last span runs past the box's right edge and its
    // excess lanes must be discarded.
    let t = var_rgb_triangle((0, 0), (0, 13), (13, 0));
    assert!(t.is_visible());
    let mut a = GlaciersCanvas::new(20, 20);
    let mut b = GlaciersCanvas::new(20, 20);
    a.draw_triangle(&t);
    b.draw_triangle_wide(&t);
    assert!(var_canvases_equal(&a, &b));
}

#[test]
fn scalar_and_wide_agree_large_scene() {
    let t = var_rgb_triangle((10, 90), (90, 90), (50, 10));
    assert!(t.is_visible());
    let mut a = GlaciersCanvas::new(100, 100);
    let mut b = GlaciersCanvas::new(100, 100);
    a.draw_triangle(&t);
    b.draw_triangle_wide(&t);
    assert!(var_canvases_equal(&a, &b));
}

#[test]
fn box_fill_is_subset_of_scalar_fill() {
    // A fat triangle: box aspect ratio 1, so the blocking scan runs.
    let t = var_rgb_triangle((5, 5), (5, 90), (90, 5));
    assert!(t.is_visible());
    let mut full = GlaciersCanvas::new(100, 100);
    let mut boxed = GlaciersCanvas::new(100, 100);
    full.draw_triangle(&t);
    boxed.draw_triangle_box(&t, false);
    assert!(var_subset_of(&boxed, &full));
    // An interior pixel of a corner-covered block is certainly written.
    assert_eq!(boxed.get_pixel((6, 6)), full.get_pixel((6, 6)));
    assert_ne!(boxed.get_pixel((6, 6)), Some([0, 0, 0, 0]));
}

#[test]
fn box_fill_lopsided_box_equals_scalar_fill() {
    // Box 90 wide and 3 tall: the aspect-ratio policy picks the plain row
    // scan, which is the full fill.
    let t = var_rgb_triangle((0, 0), (0, 3), (90, 0));
    assert!(t.is_visible());
    let mut full = GlaciersCanvas::new(100, 16);
    let mut boxed = GlaciersCanvas::new(100, 16);
    full.draw_triangle(&t);
    boxed.draw_triangle_box(&t, false);
    assert!(var_canvases_equal(&boxed, &full));
}

#[test]
fn box_fill_thin_diagonal_sliver_subset() {
    // A thin diagonal sliver whose square bounding box keeps the blocking
    // scan on: blocks it misses stay cleared, everything written matches
    // the scalar fill.
    let t = var_rgb_triangle((0, 0), (78, 80), (80, 78));
    assert!(t.is_visible());
    let mut full = GlaciersCanvas::new(100, 100);
    let mut boxed = GlaciersCanvas::new(100, 100);
    full.draw_triangle(&t);
    boxed.draw_triangle_box(&t, false);
    assert!(var_subset_of(&boxed, &full));
}

#[test]
fn wide_box_fill_is_subset_of_scalar_fill() {
    let t = var_rgb_triangle((5, 5), (5, 90), (90, 5));
    let mut full = GlaciersCanvas::new(100, 100);
    let mut boxed = GlaciersCanvas::new(100, 100);
    full.draw_triangle(&t);
    boxed.draw_triangle_wide_box(&t, false);
    assert!(var_subset_of(&boxed, &full));
    assert_eq!(boxed.get_pixel((6, 6)), full.get_pixel((6, 6)));
    assert_ne!(boxed.get_pixel((6, 6)), Some([0, 0, 0, 0]));
}

#[test]
fn wide_box_fill_thin_triangle_subset() {
    // Near-axis-aligned thin triangles are the walk's hard case: the sound
    // guarantee still holds.
    let t = var_rgb_triangle((0, 0), (2, 90), (6, 1));
    assert!(t.is_visible());
    let mut full = GlaciersCanvas::new(100, 100);
    let mut boxed = GlaciersCanvas::new(100, 100);
    full.draw_triangle(&t);
    boxed.draw_triangle_wide_box(&t, false);
    assert!(var_subset_of(&boxed, &full));
    // The walk always works the block holding the topmost vertex, here
    // (0, 0), so that covered corner pixel is certainly written.
    assert_eq!(boxed.get_pixel((0, 0)), full.get_pixel((0, 0)));
    assert_ne!(boxed.get_pixel((0, 0)), Some([0, 0, 0, 0]));
}

#[test]
fn outline_mode_is_diagnostic_only_elsewhere() {
    // With outlining on, the fill may frame tested blocks, but a rejected
    // triangle still draws nothing at all.
    let rejected = var_rgb_triangle((0, 0), (16, 0), (0, 16));
    assert!(!rejected.is_visible());
    let mut c = GlaciersCanvas::new(32, 32);
    c.draw_triangle_box(&rejected, true);
    c.draw_triangle_wide_box(&rejected, true);
    assert!(var_subset_of(&c, &GlaciersCanvas::new(32, 32)));
}

#[test]
fn box_outline_mode_runs_on_visible_triangle() {
    let t = var_rgb_triangle((5, 5), (5, 60), (60, 5));
    let mut c = GlaciersCanvas::new(64, 64);
    c.draw_triangle_box(&t, true);
    let mut cw = GlaciersCanvas::new(64, 64);
    cw.draw_triangle_wide_box(&t, true);
    // Both ran to completion and produced some pixels.
    assert_ne!(c.get_pixel((6, 6)), Some([0, 0, 0, 0]));
    assert_ne!(cw.get_pixel((6, 6)), Some([0, 0, 0, 0]));
}
