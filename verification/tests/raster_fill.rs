//! Triangle model and the scalar fill: winding, bounding boxes, coverage,
//! interpolation.

use glaciers::GlaciersCanvas;
use glaciers::Rgb;
use glaciers::Triangle;
use glaciers::Vec3i;
use glaciers::Vertex;

fn fill_count_written(c: &GlaciersCanvas) -> u32 {
    let (w, h) = c.size();
    let mut n: u32 = 0;
    for y in 0..h {
        for x in 0..w {
            if c.get_pixel((x, y)) != Some([0, 0, 0, 0]) {
                n += 1;
            }
        }
    }
    n
}

fn fill_white(pos: (i32, i32)) -> Vertex {
    Vertex::new(Vec3i::new(pos.0, pos.1, 0), Rgb::new(255, 255, 255))
}

#[test]
fn aabb_is_componentwise_min_max_after_new() {
    let t = Triangle::new([
        Vertex::new(Vec3i::new(3, 7, 1), Rgb::new(0, 0, 0)),
        Vertex::new(Vec3i::new(-2, 9, 5), Rgb::new(0, 0, 0)),
        Vertex::new(Vec3i::new(4, -1, 0), Rgb::new(0, 0, 0)),
    ]);
    assert_eq!((t.aabb.0.x, t.aabb.0.y, t.aabb.0.z), (-2, -1, 0));
    assert_eq!((t.aabb.1.x, t.aabb.1.y, t.aabb.1.z), (4, 9, 5));
}

#[test]
fn recompute_aabb_tracks_vertex_edits() {
    let mut t = Triangle::new([fill_white((0, 0)), fill_white((10, 0)), fill_white((0, 10))]);
    t.vertices[0] = fill_white((-5, 20));
    t.recompute_aabb();
    assert_eq!((t.aabb.0.x, t.aabb.0.y), (-5, 0));
    assert_eq!((t.aabb.1.x, t.aabb.1.y), (10, 20));
}

#[test]
fn is_visible_accepts_only_negative_winding() {
    // Negative signed area: accepted.
    let accepted = Triangle::new([fill_white((0, 0)), fill_white((0, 4)), fill_white((4, 0))]);
    assert!(accepted.is_visible());
    // The same corners in the opposite order: rejected.
    let rejected = Triangle::new([fill_white((0, 0)), fill_white((4, 0)), fill_white((0, 4))]);
    assert!(!rejected.is_visible());
    // Zero area (collinear): rejected.
    let degenerate = Triangle::new([fill_white((0, 0)), fill_white((5, 5)), fill_white((10, 10))]);
    assert!(!degenerate.is_visible());
}

#[test]
fn winding_rejection_no_fill_method_writes() {
    // These vertices in this order have positive signed area: the rejected
    // winding. Every fill method must leave the buffer untouched.
    let t = Triangle::new([
        Vertex::new(Vec3i::new(10, 90, 0), Rgb::new(255, 0, 0)),
        Vertex::new(Vec3i::new(50, 10, 0), Rgb::new(0, 255, 0)),
        Vertex::new(Vec3i::new(90, 90, 0), Rgb::new(0, 0, 255)),
    ]);
    assert!(!t.is_visible());
    let mut c = GlaciersCanvas::new(100, 100);
    c.draw_triangle(&t);
    assert_eq!(fill_count_written(&c), 0);
    c.draw_triangle_wide(&t);
    assert_eq!(fill_count_written(&c), 0);
    c.draw_triangle_box(&t, false);
    assert_eq!(fill_count_written(&c), 0);
    c.draw_triangle_wide_box(&t, false);
    assert_eq!(fill_count_written(&c), 0);
    c.draw_triangle_box(&t, true);
    assert_eq!(fill_count_written(&c), 0);
    c.draw_triangle_wide_box(&t, true);
    assert_eq!(fill_count_written(&c), 0);
}

#[test]
fn degenerate_triangle_no_writes() {
    let t = Triangle::new([fill_white((0, 0)), fill_white((5, 5)), fill_white((10, 10))]);
    let mut c = GlaciersCanvas::new(16, 16);
    c.draw_triangle(&t);
    c.draw_triangle_wide(&t);
    c.draw_triangle_box(&t, false);
    c.draw_triangle_wide_box(&t, false);
    assert_eq!(fill_count_written(&c), 0);
}

#[test]
fn small_right_triangle_exact_coverage() {
    // x >= 0, y >= 0, x + y <= 4: exactly 15 covered pixels, all white.
    let t = Triangle::new([fill_white((0, 0)), fill_white((0, 4)), fill_white((4, 0))]);
    assert!(t.is_visible());
    let mut c = GlaciersCanvas::new(8, 8);
    c.draw_triangle(&t);
    assert_eq!(fill_count_written(&c), 15);
    for y in 0..8u32 {
        for x in 0..8u32 {
            let expect = x + y <= 4;
            let px = c.get_pixel((x, y)).unwrap();
            if expect {
                assert_eq!(px, [255, 255, 255, 255]);
            } else {
                assert_eq!(px, [0, 0, 0, 0]);
            }
        }
    }
}

#[test]
fn example_scene_centroid_and_coverage() {
    // A 100 x 100 buffer; the triangle over corners (10,90), (50,10),
    // (90,90), ordered with the accepted winding, red/blue/green at the
    // corners. About half of its 81 x 81 bounding box is covered, the pixel
    // at the centroid (50, 63) blends to roughly the average of the three
    // colors, and the corner pixel (0, 0) stays cleared.
    let t = Triangle::new([
        Vertex::new(Vec3i::new(10, 90, 0), Rgb::new(255, 0, 0)),
        Vertex::new(Vec3i::new(90, 90, 0), Rgb::new(0, 0, 255)),
        Vertex::new(Vec3i::new(50, 10, 0), Rgb::new(0, 255, 0)),
    ]);
    assert!(t.is_visible());
    let mut c = GlaciersCanvas::new(100, 100);
    c.clear();
    c.draw_triangle(&t);
    let n = fill_count_written(&c);
    assert!(3000 <= n && n <= 3400, "covered {} pixels", n);
    let centroid = c.get_pixel((50, 63)).unwrap();
    assert_eq!(centroid, [84, 86, 84, 255]);
    for i in 0..3 {
        assert!(80 <= centroid[i] && centroid[i] <= 90);
    }
    assert_eq!(c.get_pixel((0, 0)), Some([0, 0, 0, 0]));
}

#[test]
fn fill_never_writes_outside_aabb() {
    let t = Triangle::new([
        Vertex::new(Vec3i::new(10, 90, 0), Rgb::new(255, 0, 0)),
        Vertex::new(Vec3i::new(90, 90, 0), Rgb::new(0, 0, 255)),
        Vertex::new(Vec3i::new(50, 10, 0), Rgb::new(0, 255, 0)),
    ]);
    let mut c = GlaciersCanvas::new(100, 100);
    c.draw_triangle(&t);
    for y in 0..100u32 {
        for x in 0..100u32 {
            if x < 10 || x > 90 || y < 10 || y > 90 {
                assert_eq!(c.get_pixel((x, y)), Some([0, 0, 0, 0]));
            }
        }
    }
}

#[test]
fn partially_offscreen_triangle_is_truncated() {
    let t = Triangle::new([
        fill_white((-10, -10)),
        fill_white((-10, 30)),
        fill_white((30, -10)),
    ]);
    assert!(t.is_visible());
    let mut c = GlaciersCanvas::new(20, 20);
    c.draw_triangle(&t);
    // Covered region within the canvas: x + y <= 20.
    assert_eq!(c.get_pixel((0, 0)), Some([255, 255, 255, 255]));
    assert_eq!(c.get_pixel((10, 10)), Some([255, 255, 255, 255]));
    assert_eq!(c.get_pixel((19, 1)), Some([255, 255, 255, 255]));
    assert_eq!(c.get_pixel((19, 19)), Some([0, 0, 0, 0]));
    assert_eq!(c.get_pixel((19, 2)), Some([0, 0, 0, 0]));
}

#[test]
fn later_draws_overwrite_earlier_ones() {
    let red = Triangle::new([
        Vertex::new(Vec3i::new(0, 0, 0), Rgb::new(255, 0, 0)),
        Vertex::new(Vec3i::new(0, 8, 0), Rgb::new(255, 0, 0)),
        Vertex::new(Vec3i::new(8, 0, 0), Rgb::new(255, 0, 0)),
    ]);
    let blue = Triangle::new([
        Vertex::new(Vec3i::new(0, 0, 0), Rgb::new(0, 0, 255)),
        Vertex::new(Vec3i::new(0, 4, 0), Rgb::new(0, 0, 255)),
        Vertex::new(Vec3i::new(4, 0, 0), Rgb::new(0, 0, 255)),
    ]);
    let mut c = GlaciersCanvas::new(16, 16);
    c.draw_triangle(&red);
    c.draw_triangle(&blue);
    assert_eq!(c.get_pixel((1, 1)), Some([0, 0, 255, 255]));
    assert_eq!(c.get_pixel((6, 1)), Some([255, 0, 0, 255]));
}
