//! The scalar block-skipping fill: the canvas is walked in 8-by-8 pixel
//! blocks; a block none of whose four corners passes the coverage test is
//! skipped whole, any other block is filled per pixel. A pure classification
//! of the bounding box's aspect ratio decides whether blocking is used at
//! all or the plain row scan runs instead.

use vstd::prelude::*;

use crate::canvas::GlaciersCanvas;
use crate::canvas::dims_same;
use crate::canvas::same_pixel;
use crate::fill::block_filled;
use crate::fill::box_fill_result;
use crate::fill::lemma_block_filled_persists;
use crate::fill::lemma_box_fill_compose;
use crate::fill::lemma_fill_refines_box_fill;
use crate::fill::shaded_pixel;
use crate::geometry::Triangle;
use crate::geometry::Vec3i;
use crate::geometry::edge_function;
use crate::geometry::interp_channel;
use crate::geometry::lemma_covered_in_aabb;
use crate::geometry::lemma_edge_identities;

verus! {

/// Whether the blocking scan is chosen for a bounding box of the given
/// extents: its aspect ratio (width over height) lies within [0.4, 1.6].
/// Outside that window — thin or lopsided boxes — the plain row scan wins.
pub open spec fn spec_block_scan(w: int, h: int) -> bool {
    h > 0 && 5 * w >= 2 * h && 5 * w <= 8 * h
}

/// Some corner of the 8-by-8 block at (bx, by) passes the coverage test:
/// the probe by which the blocking scan decides to work a block.
pub open spec fn corner_covered(t: Triangle, bx: int, by: int) -> bool {
    ||| t.covered(bx, by)
    ||| t.covered(bx, by + 7)
    ||| t.covered(bx + 7, by)
    ||| t.covered(bx + 7, by + 7)
}

/// The traversal-strategy policy, as an executable test of the same ratio.
pub fn block_scan_policy(w: i64, h: i64) -> (r: bool)
    requires
        0 <= w < 0x1_0000_0000,
        0 <= h < 0x1_0000_0000,
    ensures
        r == spec_block_scan(w as int, h as int),
{
    h > 0 && 5 * w >= 2 * h && 5 * w <= 8 * h
}

/// The coverage test of one point, as the fills run it.
pub(crate) fn covered_at(triangle: &Triangle, px: i64, py: i64) -> (r: bool)
    requires
        -0x2_0000_0000 <= px <= 0x2_0000_0000,
        -0x2_0000_0000 <= py <= 0x2_0000_0000,
    ensures
        r == triangle.covered(px as int, py as int),
{
    let a = triangle.vertices[0].pos;
    let b = triangle.vertices[1].pos;
    let c = triangle.vertices[2].pos;
    let abp = edge_function(a.x as i64, a.y as i64, b.x as i64, b.y as i64, px, py);
    let bcp = edge_function(b.x as i64, b.y as i64, c.x as i64, c.y as i64, px, py);
    let cap = edge_function(c.x as i64, c.y as i64, a.x as i64, a.y as i64, px, py);
    abp <= 0 && bcp <= 0 && cap <= 0
}

/// Saturates a block coordinate into the line primitive's 32-bit range; only
/// the diagnostic outlines need this, far off any drawable pixel.
fn clamp_to_i32(v: i64) -> (r: i32)
    ensures
        r as int == if v < i32::MIN as int {
            i32::MIN as int
        } else if v > i32::MAX as int {
            i32::MAX as int
        } else {
            v as int
        },
{
    if v < i32::MIN as i64 {
        i32::MIN
    } else if v > i32::MAX as i64 {
        i32::MAX
    } else {
        v as i32
    }
}

impl GlaciersCanvas {
    /// Draws the rectangle with the given corners: the diagnostic outline of
    /// one tested block (green for a block that was worked, red for one that
    /// was skipped). Diagnostic only: with outlining off no fill draws it.
    pub(crate) fn outline_rect(&mut self, x0: i64, y0: i64, x1: i64, y1: i64, color: [u8; 4])
        requires
            old(self).wf(),
        ensures
            final(self).wf(),
            dims_same(*old(self), *final(self)),
    {
        let p00 = Vec3i { x: clamp_to_i32(x0), y: clamp_to_i32(y0), z: 0 };
        let p01 = Vec3i { x: clamp_to_i32(x0), y: clamp_to_i32(y1), z: 0 };
        let p10 = Vec3i { x: clamp_to_i32(x1), y: clamp_to_i32(y0), z: 0 };
        let p11 = Vec3i { x: clamp_to_i32(x1), y: clamp_to_i32(y1), z: 0 };
        self.draw_line(p00, p01, color);
        self.draw_line(p01, p11, color);
        self.draw_line(p11, p10, color);
        self.draw_line(p10, p00, color);
    }

    /// Fills one 8-by-8 block with the ordinary per-pixel algorithm: every
    /// covered pixel of the block gets its interpolated color, nothing else
    /// is touched.
    #[verifier::loop_isolation(false)]
    pub(crate) fn fill_block(&mut self, triangle: &Triangle, abc: i128, bx: i64, by: i64)
        requires
            old(self).wf(),
            triangle.wf(),
            triangle.visible(),
            abc == triangle.abc(),
            -0x1_0000_0000 <= bx <= 0x1_0000_0000,
            -0x1_0000_0000 <= by <= 0x1_0000_0000,
        ensures
            final(self).wf(),
            box_fill_result(*old(self), *final(self), *triangle),
            block_filled(*final(self), *triangle, bx as int, by as int),
    {
        let a = triangle.vertices[0].pos;
        let b = triangle.vertices[1].pos;
        let c = triangle.vertices[2].pos;
        let col0 = triangle.vertices[0].color;
        let col1 = triangle.vertices[1].color;
        let col2 = triangle.vertices[2].color;
        let ghost t = *triangle;
        let mut y: i64 = by;
        while y < by + 8
            invariant
                by <= y <= by + 8,
                box_fill_result(*old(self), *self, t),
                forall|x2: int, y2: int|
                    old(self).in_bounds(x2, y2) && bx as int <= x2 < bx as int + 8 && by as int
                        <= y2 < y as int && t.covered(x2, y2) ==> shaded_pixel(t, *self, x2, y2),
            decreases by + 8 - y,
        {
            let mut x: i64 = bx;
            while x < bx + 8
                invariant
                    bx <= x <= bx + 8,
                    box_fill_result(*old(self), *self, t),
                    forall|x2: int, y2: int|
                        old(self).in_bounds(x2, y2) && bx as int <= x2 < bx as int + 8 && (by as int
                            <= y2 < y as int || (y2 == y as int && bx as int <= x2 < x as int))
                            && t.covered(x2, y2) ==> shaded_pixel(t, *self, x2, y2),
                decreases bx + 8 - x,
            {
                let ghost mid = *self;
                let abp = edge_function(a.x as i64, a.y as i64, b.x as i64, b.y as i64, x, y);
                let bcp = edge_function(b.x as i64, b.y as i64, c.x as i64, c.y as i64, x, y);
                let cap = edge_function(c.x as i64, c.y as i64, a.x as i64, a.y as i64, x, y);
                if abp <= 0 && bcp <= 0 && cap <= 0 {
                    proof {
                        lemma_edge_identities(
                            a.x as int,
                            a.y as int,
                            b.x as int,
                            b.y as int,
                            c.x as int,
                            c.y as int,
                            x as int,
                            y as int,
                        );
                        lemma_covered_in_aabb(t, x as int, y as int);
                    }
                    let r = interp_channel(bcp, cap, abp, abc, col0.r, col1.r, col2.r);
                    let g = interp_channel(bcp, cap, abp, abc, col0.g, col1.g, col2.g);
                    let bl = interp_channel(bcp, cap, abp, abc, col0.b, col1.b, col2.b);
                    self.draw_point_clipped(x, y, [r, g, bl, 255]);
                    proof {
                        assert(t.covered(x as int, y as int));
                        assert(mid.in_bounds(x as int, y as int) ==> shaded_pixel(
                            t,
                            *self,
                            x as int,
                            y as int,
                        )) by {
                            if mid.in_bounds(x as int, y as int) {
                                assert(self.pixel_is(x as int, y as int, [r, g, bl, 255u8]));
                                assert(self.chan(x as int, y as int, 0) == r);
                                assert(self.chan(x as int, y as int, 1) == g);
                                assert(self.chan(x as int, y as int, 2) == bl);
                                assert(self.chan(x as int, y as int, 3) == 255u8);
                                assert(t.shade_chan(x as int, y as int, 0) == r);
                                assert(t.shade_chan(x as int, y as int, 1) == g);
                                assert(t.shade_chan(x as int, y as int, 2) == bl);
                            }
                        }
                        assert forall|x2: int, y2: int| old(self).in_bounds(x2, y2) implies (
                        same_pixel(*old(self), *self, x2, y2) || (t.in_aabb(x2, y2) && t.covered(
                            x2,
                            y2,
                        ) && shaded_pixel(t, *self, x2, y2))) by {
                            if !(x2 == x as int && y2 == y as int) {
                                assert(mid.in_bounds(x2, y2));
                                assert(same_pixel(mid, *self, x2, y2));
                            }
                        }
                        assert forall|x2: int, y2: int|
                            old(self).in_bounds(x2, y2) && bx as int <= x2 < bx as int + 8 && (
                        by as int <= y2 < y as int || (y2 == y as int && bx as int <= x2 < x as int
                            + 1)) && t.covered(x2, y2) implies shaded_pixel(t, *self, x2, y2) by {
                            if !(x2 == x as int && y2 == y as int) {
                                assert(mid.in_bounds(x2, y2));
                                assert(shaded_pixel(t, mid, x2, y2));
                                assert(same_pixel(mid, *self, x2, y2));
                            }
                        }
                    }
                } else {
                    proof {
                        assert(!t.covered(x as int, y as int));
                    }
                }
                x = x + 1;
            }
            y = y + 1;
        }
    }

    /// The scalar block-skipping fill. When the bounding box's aspect ratio
    /// suits blocking, 8-by-8 blocks are corner-tested and only blocks with
    /// a covered corner are filled per pixel; after a row of blocks has
    /// produced work, the first fully skipped block ends that row early.
    /// Otherwise the plain row scan runs. With `show_outline` each tested
    /// block is framed for inspection; without it the result is a sound
    /// under-approximation of the full fill, and on the row-scan path the
    /// full fill itself.
    #[verifier::loop_isolation(false)]
    pub fn draw_triangle_box(&mut self, triangle: &Triangle, show_outline: bool)
        requires
            old(self).wf(),
            triangle.wf(),
        ensures
            final(self).wf(),
            dims_same(*old(self), *final(self)),
            !triangle.visible() ==> final(self).bytes() == old(self).bytes(),
            triangle.visible() && !show_outline ==> box_fill_result(
                *old(self),
                *final(self),
                *triangle,
            ),
            triangle.visible() && !show_outline && !spec_block_scan(
                triangle.aabb.1.x as int - triangle.aabb.0.x as int,
                triangle.aabb.1.y as int - triangle.aabb.0.y as int,
            ) ==> crate::fill::fill_result(*old(self), *final(self), *triangle),
            triangle.visible() && !show_outline && spec_block_scan(
                triangle.aabb.1.x as int - triangle.aabb.0.x as int,
                triangle.aabb.1.y as int - triangle.aabb.0.y as int,
            ) && corner_covered(*triangle, triangle.aabb.0.x as int, triangle.aabb.0.y as int)
                ==> block_filled(
                *final(self),
                *triangle,
                triangle.aabb.0.x as int,
                triangle.aabb.0.y as int,
            ),
    {
        if !triangle.is_visible() {
            return ;
        }
        let ghost t = *triangle;
        let a = triangle.vertices[0].pos;
        let b = triangle.vertices[1].pos;
        let c = triangle.vertices[2].pos;
        let abc = edge_function(
            a.x as i64,
            a.y as i64,
            b.x as i64,
            b.y as i64,
            c.x as i64,
            c.y as i64,
        );
        let min_x: i64 = triangle.aabb.0.x as i64;
        let max_x: i64 = triangle.aabb.1.x as i64;
        let min_y: i64 = triangle.aabb.0.y as i64;
        let max_y: i64 = triangle.aabb.1.y as i64;

        if block_scan_policy(max_x - min_x, max_y - min_y) {
            proof {
                assert(min_x <= max_x);
                assert(min_y <= max_y);
            }
            let mut y: i64 = min_y;
            while y <= max_y
                invariant
                    min_y <= y,
                    self.wf(),
                    dims_same(*old(self), *self),
                    !show_outline ==> box_fill_result(*old(self), *self, t),
                    !show_outline && y > min_y && corner_covered(t, min_x as int, min_y as int)
                        ==> block_filled(*self, t, min_x as int, min_y as int),
                decreases max_y + 8 - y,
            {
                let mut x: i64 = min_x;
                let mut pass = false;
                let mut stop = false;
                while x <= max_x && !stop
                    invariant
                        min_x <= x,
                        stop ==> x > min_x,
                        self.wf(),
                        dims_same(*old(self), *self),
                        !show_outline ==> box_fill_result(*old(self), *self, t),
                        !show_outline && (y > min_y || x > min_x) && corner_covered(
                            t,
                            min_x as int,
                            min_y as int,
                        ) ==> block_filled(*self, t, min_x as int, min_y as int),
                    decreases max_x + 8 - x,
                {
                    let ghost before = *self;
                    let c00 = covered_at(triangle, x, y);
                    let c01 = covered_at(triangle, x, y + 7);
                    let c10 = covered_at(triangle, x + 7, y);
                    let c11 = covered_at(triangle, x + 7, y + 7);
                    if c00 || c01 || c10 || c11 {
                        // At least one corner is inside: work the block.
                        self.fill_block(triangle, abc, x, y);
                        proof {
                            if !show_outline {
                                lemma_box_fill_compose(*old(self), before, *self, t);
                                if block_filled(before, t, min_x as int, min_y as int) {
                                    lemma_block_filled_persists(
                                        before,
                                        *self,
                                        t,
                                        min_x as int,
                                        min_y as int,
                                    );
                                }
                            }
                        }
                        if show_outline {
                            self.outline_rect(x, y, x + 7, y + 7, [0, 0xff, 0, 0xff]);
                        }
                        pass = true;
                    } else {
                        if show_outline {
                            self.outline_rect(x, y, x + 7, y + 7, [0xff, 0, 0, 0xff]);
                        }
                        if pass {
                            stop = true;
                        }
                    }
                    x = x + 8;
                }
                y = y + 8;
            }
        } else {
            if show_outline {
                self.outline_rect(min_x, min_y, max_x, max_y, [0, 0xff, 0, 0xff]);
            }
            let ghost before = *self;
            self.fill_rows(triangle);
            proof {
                if !show_outline {
                    assert(before == *old(self));
                    lemma_fill_refines_box_fill(*old(self), *self, t);
                }
            }
        }
    }
}

} // verus!
