//! The scalar fill: for every pixel of the triangle's bounding box, test the
//! three edge functions and write the barycentric color blend when the pixel
//! is covered. `fill_result` is the exact statement of what any full fill
//! (scalar or 8-lane) leaves in the buffer.

use vstd::prelude::*;

use crate::canvas::GlaciersCanvas;
use crate::canvas::dims_same;
use crate::canvas::same_pixel;
use crate::geometry::Triangle;
use crate::geometry::edge_function;
use crate::geometry::interp_channel;
use crate::geometry::lemma_edge_identities;

verus! {

/// Pixel (x, y) of the canvas holds the triangle's interpolated color.
pub open spec fn shaded_pixel(t: Triangle, c: GlaciersCanvas, x: int, y: int) -> bool {
    forall|i: int| 0 <= i < 4 ==> c.chan(x, y, i) == t.shade_chan(x, y, i)
}

/// What a full fill of the triangle does to the buffer: an invisible
/// triangle (zero area or the rejected winding) changes nothing; otherwise
/// every covered pixel of the bounding box now holds the interpolated color
/// and every other pixel of the buffer is untouched.
pub open spec fn fill_result(pre: GlaciersCanvas, post: GlaciersCanvas, t: Triangle) -> bool {
    &&& dims_same(pre, post)
    &&& post.wf()
    &&& (!t.visible() ==> post.bytes() == pre.bytes())
    &&& (t.visible() ==> forall|x: int, y: int|
        pre.in_bounds(x, y) ==> if t.in_aabb(x, y) && t.covered(x, y) {
            shaded_pixel(t, post, x, y)
        } else {
            same_pixel(pre, post, x, y)
        })
}

/// Pixels of the bounding box that a row-major scan has already visited when
/// it stands at column `x_done` of row `y_done`.
pub open spec fn scanned(t: Triangle, x: int, y: int, y_done: int, x_done: int) -> bool {
    t.in_aabb(x, y) && (y < y_done || (y == y_done && x < x_done))
}

/// The fill loops' invariant: every visited covered pixel already holds its
/// interpolated color, and nothing else has been touched.
pub open spec fn fill_partial(
    pre: GlaciersCanvas,
    cur: GlaciersCanvas,
    t: Triangle,
    y_done: int,
    x_done: int,
) -> bool {
    &&& dims_same(pre, cur)
    &&& cur.wf()
    &&& forall|x: int, y: int|
        pre.in_bounds(x, y) ==> if scanned(t, x, y, y_done, x_done) && t.covered(x, y) {
            shaded_pixel(t, cur, x, y)
        } else {
            same_pixel(pre, cur, x, y)
        }
}

/// What a block-skipping fill guarantees: every pixel is either untouched or
/// a covered pixel of the bounding box holding exactly the interpolated
/// color. Unlike `fill_result` this allows under-coverage: a block none of
/// whose corners is covered is skipped whole, so covered pixels of thin
/// slivers crossing it may stay unwritten.
pub open spec fn box_fill_result(pre: GlaciersCanvas, post: GlaciersCanvas, t: Triangle) -> bool {
    &&& dims_same(pre, post)
    &&& post.wf()
    &&& forall|x: int, y: int|
        pre.in_bounds(x, y) ==> (same_pixel(pre, post, x, y) || (t.in_aabb(x, y) && t.covered(
            x,
            y,
        ) && shaded_pixel(t, post, x, y)))
}

/// `box_fill_result` composes: two block-skipping passes in sequence are one.
pub proof fn lemma_box_fill_compose(
    c0: GlaciersCanvas,
    c1: GlaciersCanvas,
    c2: GlaciersCanvas,
    t: Triangle,
)
    requires
        box_fill_result(c0, c1, t),
        box_fill_result(c1, c2, t),
    ensures
        box_fill_result(c0, c2, t),
{
    assert forall|x: int, y: int|
        c0.in_bounds(x, y) implies (same_pixel(c0, c2, x, y) || (t.in_aabb(x, y) && t.covered(x, y)
        && shaded_pixel(t, c2, x, y))) by {
        assert(c1.in_bounds(x, y));
    }
}

/// A pixel that already holds its interpolated color keeps it across any
/// further block-skipping pass: such a pass either leaves the pixel alone or
/// rewrites the same color.
pub proof fn lemma_shaded_persists(
    c1: GlaciersCanvas,
    c2: GlaciersCanvas,
    t: Triangle,
    x: int,
    y: int,
)
    requires
        box_fill_result(c1, c2, t),
        c1.in_bounds(x, y),
        shaded_pixel(t, c1, x, y),
    ensures
        shaded_pixel(t, c2, x, y),
{
}

/// Every covered pixel of the canvas within the 8-by-8 block at (bx, by)
/// holds its interpolated color.
pub open spec fn block_filled(cur: GlaciersCanvas, t: Triangle, bx: int, by: int) -> bool {
    forall|x2: int, y2: int|
        cur.in_bounds(x2, y2) && bx <= x2 < bx + 8 && by <= y2 < by + 8 && t.covered(x2, y2)
            ==> shaded_pixel(t, cur, x2, y2)
}

/// A filled block stays filled across any further block-skipping pass.
pub proof fn lemma_block_filled_persists(
    c1: GlaciersCanvas,
    c2: GlaciersCanvas,
    t: Triangle,
    bx: int,
    by: int,
)
    requires
        block_filled(c1, t, bx, by),
        box_fill_result(c1, c2, t),
    ensures
        block_filled(c2, t, bx, by),
{
    assert forall|x2: int, y2: int|
        c2.in_bounds(x2, y2) && bx <= x2 < bx + 8 && by <= y2 < by + 8 && t.covered(
            x2,
            y2,
        ) implies shaded_pixel(t, c2, x2, y2) by {
        assert(c1.in_bounds(x2, y2));
        lemma_shaded_persists(c1, c2, t, x2, y2);
    }
}

/// A full fill is in particular a sound block-skipping fill.
pub proof fn lemma_fill_refines_box_fill(pre: GlaciersCanvas, post: GlaciersCanvas, t: Triangle)
    requires
        t.visible(),
        fill_result(pre, post, t),
    ensures
        box_fill_result(pre, post, t),
{
}

impl GlaciersCanvas {
    /// The scalar reference fill: tests every pixel of the bounding box
    /// against the three edge functions and writes each covered pixel's
    /// interpolated color, with out-of-buffer pixels dropped.
    pub fn draw_triangle(&mut self, triangle: &Triangle)
        requires
            old(self).wf(),
            triangle.wf(),
        ensures
            final(self).wf(),
            fill_result(*old(self), *final(self), *triangle),
    {
        if !triangle.is_visible() {
            return ;
        }
        self.fill_rows(triangle);
    }

    /// The row-major per-pixel scan over the whole bounding box: the body of
    /// the scalar fill, also used by the block-skipping fill for triangles
    /// whose box is too lopsided for blocking to pay.
    #[verifier::loop_isolation(false)]
    pub(crate) fn fill_rows(&mut self, triangle: &Triangle)
        requires
            old(self).wf(),
            triangle.wf(),
            triangle.visible(),
        ensures
            final(self).wf(),
            fill_result(*old(self), *final(self), *triangle),
    {
        let a = triangle.vertices[0].pos;
        let b = triangle.vertices[1].pos;
        let c = triangle.vertices[2].pos;
        let col0 = triangle.vertices[0].color;
        let col1 = triangle.vertices[1].color;
        let col2 = triangle.vertices[2].color;
        let abc = edge_function(
            a.x as i64,
            a.y as i64,
            b.x as i64,
            b.y as i64,
            c.x as i64,
            c.y as i64,
        );
        let min_x: i64 = triangle.aabb.0.x as i64;
        let max_x: i64 = triangle.aabb.1.x as i64;
        let min_y: i64 = triangle.aabb.0.y as i64;
        let max_y: i64 = triangle.aabb.1.y as i64;

        let mut y: i64 = min_y;
        while y <= max_y
            invariant
                min_y <= y <= max_y + 1,
                fill_partial(*old(self), *self, *triangle, y as int, min_x as int),
            decreases max_y + 1 - y,
        {
            let mut x: i64 = min_x;
            while x <= max_x
                invariant
                    min_x <= x <= max_x + 1,
                    fill_partial(*old(self), *self, *triangle, y as int, x as int),
                decreases max_x + 1 - x,
            {
                let ghost mid = *self;
                let abp = edge_function(a.x as i64, a.y as i64, b.x as i64, b.y as i64, x, y);
                let bcp = edge_function(b.x as i64, b.y as i64, c.x as i64, c.y as i64, x, y);
                let cap = edge_function(c.x as i64, c.y as i64, a.x as i64, a.y as i64, x, y);
                if abp <= 0 && bcp <= 0 && cap <= 0 {
                    proof {
                        lemma_edge_identities(
                            a.x as int,
                            a.y as int,
                            b.x as int,
                            b.y as int,
                            c.x as int,
                            c.y as int,
                            x as int,
                            y as int,
                        );
                    }
                    let r = interp_channel(bcp, cap, abp, abc, col0.r, col1.r, col2.r);
                    let g = interp_channel(bcp, cap, abp, abc, col0.g, col1.g, col2.g);
                    let bl = interp_channel(bcp, cap, abp, abc, col0.b, col1.b, col2.b);
                    self.draw_point_clipped(x, y, [r, g, bl, 255]);
                    proof {
                        let t = *triangle;
                        let pre = *old(self);
                        assert(t.covered(x as int, y as int));
                        assert forall|x2: int, y2: int| pre.in_bounds(x2, y2) implies (if scanned(
                            t,
                            x2,
                            y2,
                            y as int,
                            x as int + 1,
                        ) && t.covered(x2, y2) {
                            shaded_pixel(t, *self, x2, y2)
                        } else {
                            same_pixel(pre, *self, x2, y2)
                        }) by {
                            if x2 == x as int && y2 == y as int {
                                assert(self.pixel_is(x2, y2, [r, g, bl, 255u8]));
                                assert(self.chan(x2, y2, 0) == r);
                                assert(self.chan(x2, y2, 1) == g);
                                assert(self.chan(x2, y2, 2) == bl);
                                assert(self.chan(x2, y2, 3) == 255u8);
                                assert(t.shade_chan(x2, y2, 0) == r);
                                assert(t.shade_chan(x2, y2, 1) == g);
                                assert(t.shade_chan(x2, y2, 2) == bl);
                                assert(shaded_pixel(t, *self, x2, y2));
                            } else {
                                assert(mid.in_bounds(x2, y2));
                                assert(same_pixel(mid, *self, x2, y2));
                                assert(scanned(t, x2, y2, y as int, x as int + 1) == scanned(
                                    t,
                                    x2,
                                    y2,
                                    y as int,
                                    x as int,
                                ));
                            }
                        }
                    }
                } else {
                    proof {
                        assert(!triangle.covered(x as int, y as int));
                    }
                }
                x = x + 1;
            }
            y = y + 1;
        }
    }
}

} // verus!
