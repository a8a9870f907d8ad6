//! The 8-lane block-skipping fill: blocks sized to the lane width are filled
//! with the 8-lane span evaluation, and the canvas is traversed by a
//! two-sided stepping walk — from the block row of the topmost vertex down
//! and from the block row of the bottommost vertex up, each row's search
//! seeded at the previous row's span midpoint and expanded left and right
//! until blocks stop producing work, both halves stopping at the triangle's
//! vertical midpoint.

use vstd::prelude::*;

use crate::canvas::GlaciersCanvas;
use crate::canvas::dims_same;
use crate::canvas::same_pixel;
use crate::fill::block_filled;
use crate::fill::box_fill_result;
use crate::fill::lemma_block_filled_persists;
use crate::fill::lemma_box_fill_compose;
use crate::fill::shaded_pixel;
use crate::geometry::Triangle;
use crate::geometry::edge_function;
use crate::geometry::interp_channel;
use crate::geometry::lemma_covered_in_aabb;
use crate::geometry::lemma_edge_identities;

verus! {

/// The column where the downward half of the walk starts: the x of the last
/// listed vertex whose y attains the box's top edge.
pub open spec fn top_seed_x(t: Triangle) -> int {
    if t.v(2).pos.y as int == t.aabb.0.y as int {
        t.v(2).pos.x as int
    } else if t.v(1).pos.y as int == t.aabb.0.y as int {
        t.v(1).pos.x as int
    } else {
        t.v(0).pos.x as int
    }
}

/// The column where the upward half of the walk starts: the x of the last
/// listed vertex whose y attains the box's bottom edge.
pub open spec fn bottom_seed_x(t: Triangle) -> int {
    if t.v(2).pos.y as int == t.aabb.1.y as int {
        t.v(2).pos.x as int
    } else if t.v(1).pos.y as int == t.aabb.1.y as int {
        t.v(1).pos.x as int
    } else {
        t.v(0).pos.x as int
    }
}

impl GlaciersCanvas {
    /// Fills one 8-by-8 block with the 8-lane span evaluation and reports
    /// whether any lane was written — the walk's probe for whether a block
    /// row still produces work. With `show_outline` the block is framed
    /// green when it drew and red when it did not.
    #[verifier::loop_isolation(false)]
    pub(crate) fn wide_block(
        &mut self,
        triangle: &Triangle,
        abc: i128,
        bx: i64,
        by: i64,
        show_outline: bool,
    ) -> (drawn: bool)
        requires
            old(self).wf(),
            triangle.wf(),
            triangle.visible(),
            abc == triangle.abc(),
            -0x1_0000_0000 <= bx <= 0x1_0000_0000,
            -0x1_0000_0000 <= by <= 0x1_0000_0000,
        ensures
            final(self).wf(),
            dims_same(*old(self), *final(self)),
            !show_outline ==> box_fill_result(*old(self), *final(self), *triangle),
            !show_outline ==> block_filled(*final(self), *triangle, bx as int, by as int),
    {
        let a = triangle.vertices[0].pos;
        let b = triangle.vertices[1].pos;
        let c = triangle.vertices[2].pos;
        let col0 = triangle.vertices[0].color;
        let col1 = triangle.vertices[1].color;
        let col2 = triangle.vertices[2].color;
        let ghost t = *triangle;
        let mut has_drawn = false;
        let mut y: i64 = by;
        while y < by + 8
            invariant
                by <= y <= by + 8,
                self.wf(),
                dims_same(*old(self), *self),
                box_fill_result(*old(self), *self, t),
                forall|x2: int, y2: int|
                    old(self).in_bounds(x2, y2) && bx as int <= x2 < bx as int + 8 && by as int
                        <= y2 < y as int && t.covered(x2, y2) ==> shaded_pixel(t, *self, x2, y2),
            decreases by + 8 - y,
        {
            // Evaluate the whole span of this block row before writing.
            let mut abp_l: [i128; 8] = [0; 8];
            let mut bcp_l: [i128; 8] = [0; 8];
            let mut cap_l: [i128; 8] = [0; 8];
            let mut mask: [bool; 8] = [false; 8];
            let mut any = false;
            let mut i: usize = 0;
            while i < crate::wide::LANES
                invariant
                    i <= 8,
                    forall|j: int|
                        0 <= j < i as int ==> abp_l@[j] as int == t.abp(bx as int + j, y as int),
                    forall|j: int|
                        0 <= j < i as int ==> bcp_l@[j] as int == t.bcp(bx as int + j, y as int),
                    forall|j: int|
                        0 <= j < i as int ==> cap_l@[j] as int == t.cap(bx as int + j, y as int),
                    forall|j: int|
                        0 <= j < i as int ==> -0x20_0000_0000_0000_0000 <= #[trigger] abp_l@[j]
                            <= 0x20_0000_0000_0000_0000,
                    forall|j: int|
                        0 <= j < i as int ==> -0x20_0000_0000_0000_0000 <= #[trigger] bcp_l@[j]
                            <= 0x20_0000_0000_0000_0000,
                    forall|j: int|
                        0 <= j < i as int ==> -0x20_0000_0000_0000_0000 <= #[trigger] cap_l@[j]
                            <= 0x20_0000_0000_0000_0000,
                    forall|j: int|
                        0 <= j < i as int ==> mask@[j] == t.covered(bx as int + j, y as int),
                    any || (forall|j: int| 0 <= j < i as int ==> !mask@[j]),
                decreases 8 - i,
            {
                let lx = bx + i as i64;
                let abp = edge_function(a.x as i64, a.y as i64, b.x as i64, b.y as i64, lx, y);
                let bcp = edge_function(b.x as i64, b.y as i64, c.x as i64, c.y as i64, lx, y);
                let cap = edge_function(c.x as i64, c.y as i64, a.x as i64, a.y as i64, lx, y);
                let m = abp <= 0 && bcp <= 0 && cap <= 0;
                abp_l[i] = abp;
                bcp_l[i] = bcp;
                cap_l[i] = cap;
                mask[i] = m;
                if m {
                    any = true;
                }
                i = i + 1;
            }
            if any {
                // Write each covered lane's blended color.
                let mut i: usize = 0;
                while i < crate::wide::LANES
                    invariant
                        i <= 8,
                        self.wf(),
                        dims_same(*old(self), *self),
                        box_fill_result(*old(self), *self, t),
                        forall|x2: int, y2: int|
                            old(self).in_bounds(x2, y2) && bx as int <= x2 < bx as int + 8 && (
                        by as int <= y2 < y as int || (y2 == y as int && bx as int <= x2 < bx as int
                            + i as int)) && t.covered(x2, y2) ==> shaded_pixel(t, *self, x2, y2),
                        forall|j: int|
                            0 <= j < 8 ==> abp_l@[j] as int == t.abp(bx as int + j, y as int),
                        forall|j: int|
                            0 <= j < 8 ==> bcp_l@[j] as int == t.bcp(bx as int + j, y as int),
                        forall|j: int|
                            0 <= j < 8 ==> cap_l@[j] as int == t.cap(bx as int + j, y as int),
                        forall|j: int|
                            0 <= j < 8 ==> -0x20_0000_0000_0000_0000 <= #[trigger] abp_l@[j]
                                <= 0x20_0000_0000_0000_0000,
                        forall|j: int|
                            0 <= j < 8 ==> -0x20_0000_0000_0000_0000 <= #[trigger] bcp_l@[j]
                                <= 0x20_0000_0000_0000_0000,
                        forall|j: int|
                            0 <= j < 8 ==> -0x20_0000_0000_0000_0000 <= #[trigger] cap_l@[j]
                                <= 0x20_0000_0000_0000_0000,
                        forall|j: int|
                            0 <= j < 8 ==> mask@[j] == t.covered(bx as int + j, y as int),
                    decreases 8 - i,
                {
                    if mask[i] {
                        let ghost mid = *self;
                        let ghost lx = bx as int + i as int;
                        proof {
                            lemma_edge_identities(
                                a.x as int,
                                a.y as int,
                                b.x as int,
                                b.y as int,
                                c.x as int,
                                c.y as int,
                                lx,
                                y as int,
                            );
                            lemma_covered_in_aabb(t, lx, y as int);
                        }
                        let bcp = bcp_l[i];
                        let cap = cap_l[i];
                        let abp = abp_l[i];
                        let r = interp_channel(bcp, cap, abp, abc, col0.r, col1.r, col2.r);
                        let g = interp_channel(bcp, cap, abp, abc, col0.g, col1.g, col2.g);
                        let bl = interp_channel(bcp, cap, abp, abc, col0.b, col1.b, col2.b);
                        self.draw_point_clipped(bx + i as i64, y, [r, g, bl, 255]);
                        has_drawn = true;
                        proof {
                            assert(t.covered(lx, y as int));
                            assert(mid.in_bounds(lx, y as int) ==> shaded_pixel(
                                t,
                                *self,
                                lx,
                                y as int,
                            )) by {
                                if mid.in_bounds(lx, y as int) {
                                    assert(self.pixel_is(lx, y as int, [r, g, bl, 255u8]));
                                    assert(self.chan(lx, y as int, 0) == r);
                                    assert(self.chan(lx, y as int, 1) == g);
                                    assert(self.chan(lx, y as int, 2) == bl);
                                    assert(self.chan(lx, y as int, 3) == 255u8);
                                    assert(t.shade_chan(lx, y as int, 0) == r);
                                    assert(t.shade_chan(lx, y as int, 1) == g);
                                    assert(t.shade_chan(lx, y as int, 2) == bl);
                                }
                            }
                            assert forall|x2: int, y2: int|
                                old(self).in_bounds(x2, y2) implies (same_pixel(
                                *old(self),
                                *self,
                                x2,
                                y2,
                            ) || (t.in_aabb(x2, y2) && t.covered(x2, y2) && shaded_pixel(
                                t,
                                *self,
                                x2,
                                y2,
                            ))) by {
                                if !(x2 == lx && y2 == y as int) {
                                    assert(mid.in_bounds(x2, y2));
                                    assert(same_pixel(mid, *self, x2, y2));
                                }
                            }
                            assert forall|x2: int, y2: int|
                                old(self).in_bounds(x2, y2) && bx as int <= x2 < bx as int + 8 && (
                            by as int <= y2 < y as int || (y2 == y as int && bx as int <= x2 < bx as int
                                + i as int + 1)) && t.covered(x2, y2) implies shaded_pixel(
                                t,
                                *self,
                                x2,
                                y2,
                            ) by {
                                if !(x2 == lx && y2 == y as int) {
                                    assert(mid.in_bounds(x2, y2));
                                    assert(shaded_pixel(t, mid, x2, y2));
                                    assert(same_pixel(mid, *self, x2, y2));
                                }
                            }
                        }
                    } else {
                        proof {
                            assert(!t.covered(bx as int + i as int, y as int));
                        }
                    }
                    i = i + 1;
                }
            } else {
                // No lane of this block row is covered: the row is complete
                // with nothing to draw.
                proof {
                    assert forall|x2: int, y2: int|
                        old(self).in_bounds(x2, y2) && bx as int <= x2 < bx as int + 8 && y2
                            == y as int && t.covered(x2, y2) implies shaded_pixel(
                        t,
                        *self,
                        x2,
                        y2,
                    ) by {
                        assert(!mask@[x2 - bx as int]);
                        assert(!t.covered(x2, y2));
                    }
                }
            }
            y = y + 1;
        }
        if show_outline {
            if has_drawn {
                self.outline_rect(bx, by, bx + 7, by + 7, [0, 0xff, 0, 0xff]);
            } else {
                self.outline_rect(bx, by, bx + 7, by + 7, [0xff, 0, 0, 0xff]);
            }
        }
        has_drawn
    }

    /// Walks one block row outward from the seed column `x`: left from
    /// `x - 8` until a block stops producing work or the box's left edge is
    /// passed, and right from `x` until a block stops producing work or the
    /// box's right edge is passed. Returns the row's working span, for
    /// seeding the next row.
    #[verifier::loop_isolation(false)]
    fn walk_block_row(
        &mut self,
        triangle: &Triangle,
        abc: i128,
        x: i64,
        y: i64,
        min_x: i64,
        max_x: i64,
        show_outline: bool,
    ) -> (span: (i64, i64))
        requires
            old(self).wf(),
            triangle.wf(),
            triangle.visible(),
            abc == triangle.abc(),
            min_x == triangle.aabb.0.x as int,
            max_x == triangle.aabb.1.x as int,
            min_x <= x <= max_x + 8,
            -0x8000_0000 <= y <= 0x8000_0000,
        ensures
            final(self).wf(),
            dims_same(*old(self), *final(self)),
            !show_outline ==> box_fill_result(*old(self), *final(self), *triangle),
            !show_outline ==> block_filled(*final(self), *triangle, x as int, y as int),
            min_x <= span.0 <= max_x + 8,
            min_x <= span.1 <= max_x + 8,
    {
        let ghost t = *triangle;
        let mut row_min: i64 = min_x;
        let mut row_max: i64 = max_x;
        // Expand left from the seed.
        let mut xl: i64 = x - 8;
        let mut ldone = false;
        while !ldone
            invariant
                self.wf(),
                dims_same(*old(self), *self),
                !show_outline ==> box_fill_result(*old(self), *self, t),
                !ldone ==> min_x - 8 <= xl <= max_x,
                ldone ==> min_x <= row_min <= max_x + 8,
                row_min == min_x || ldone,
            decreases xl - (min_x - 16), (if ldone { 0int } else { 1int }),
        {
            let ghost before = *self;
            let drawn = self.wide_block(triangle, abc, xl, y, show_outline);
            proof {
                if !show_outline {
                    lemma_box_fill_compose(*old(self), before, *self, t);
                }
            }
            if !drawn {
                row_min = xl + 8;
                ldone = true;
            } else if xl < min_x {
                ldone = true;
            } else {
                xl = xl - 8;
            }
        }
        // Expand right from the seed.
        let mut xr: i64 = x;
        let mut rdone = false;
        while !rdone && xr <= max_x + 8
            invariant
                self.wf(),
                dims_same(*old(self), *self),
                !show_outline ==> box_fill_result(*old(self), *self, t),
                x <= xr <= max_x + 16,
                rdone ==> min_x <= row_max <= max_x + 8,
                row_max == max_x || rdone,
                rdone ==> x <= row_max,
                !show_outline && (xr > x || rdone) ==> block_filled(*self, t, x as int, y as int),
            decreases max_x + 16 - xr, (if rdone { 0int } else { 1int }),
        {
            let ghost before = *self;
            let drawn = self.wide_block(triangle, abc, xr, y, show_outline);
            proof {
                if !show_outline {
                    lemma_box_fill_compose(*old(self), before, *self, t);
                    if block_filled(before, t, x as int, y as int) {
                        lemma_block_filled_persists(before, *self, t, x as int, y as int);
                    }
                }
            }
            if !drawn {
                row_max = xr;
                rdone = true;
            } else {
                xr = xr + 8;
            }
        }
        (row_min, row_max)
    }

    /// The 8-lane block-skipping fill, traversing by the two-sided stepping
    /// walk: top half downward from the topmost vertex's block row, bottom
    /// half upward from the bottommost vertex's, each row seeded at the
    /// previous row's span midpoint, both halves ending past the triangle's
    /// vertical midpoint. Without outlining the result is a sound
    /// under-approximation of the full fill — every written pixel is a
    /// covered pixel of the bounding box holding its interpolated color —
    /// and the two blocks where the walk starts are filled completely.
    #[verifier::loop_isolation(false)]
    pub fn draw_triangle_wide_box(&mut self, triangle: &Triangle, show_outline: bool)
        requires
            old(self).wf(),
            triangle.wf(),
        ensures
            final(self).wf(),
            dims_same(*old(self), *final(self)),
            !triangle.visible() ==> final(self).bytes() == old(self).bytes(),
            triangle.visible() && !show_outline ==> box_fill_result(
                *old(self),
                *final(self),
                *triangle,
            ),
            triangle.visible() && !show_outline ==> block_filled(
                *final(self),
                *triangle,
                top_seed_x(*triangle),
                triangle.aabb.0.y as int,
            ),
            triangle.visible() && !show_outline ==> block_filled(
                *final(self),
                *triangle,
                bottom_seed_x(*triangle),
                triangle.aabb.1.y as int,
            ),
    {
        if !triangle.is_visible() {
            return ;
        }
        let ghost t = *triangle;
        let a = triangle.vertices[0].pos;
        let b = triangle.vertices[1].pos;
        let c = triangle.vertices[2].pos;
        let abc = edge_function(
            a.x as i64,
            a.y as i64,
            b.x as i64,
            b.y as i64,
            c.x as i64,
            c.y as i64,
        );
        let min_x: i64 = triangle.aabb.0.x as i64;
        let max_x: i64 = triangle.aabb.1.x as i64;
        let min_y: i64 = triangle.aabb.0.y as i64;
        let max_y: i64 = triangle.aabb.1.y as i64;

        // The walk starts at the blocks holding the topmost and bottommost
        // vertices.
        let mut top_start_x: i64 = min_x;
        let mut bottom_start_x: i64 = min_x;
        if a.y as i64 == min_y {
            top_start_x = a.x as i64;
        }
        if a.y as i64 == max_y {
            bottom_start_x = a.x as i64;
        }
        if b.y as i64 == min_y {
            top_start_x = b.x as i64;
        }
        if b.y as i64 == max_y {
            bottom_start_x = b.x as i64;
        }
        if c.y as i64 == min_y {
            top_start_x = c.x as i64;
        }
        if c.y as i64 == max_y {
            bottom_start_x = c.x as i64;
        }
        proof {
            // Some vertex attains each extreme of the box, so the seeds are
            // always vertex columns.
            assert(a.y as int == t.aabb.0.y as int || b.y as int == t.aabb.0.y as int || c.y as int
                == t.aabb.0.y as int);
            assert(a.y as int == t.aabb.1.y as int || b.y as int == t.aabb.1.y as int || c.y as int
                == t.aabb.1.y as int);
            assert(top_start_x as int == top_seed_x(t));
            assert(bottom_start_x as int == bottom_seed_x(t));
        }

        let half_y: i64 = min_y + ((max_y - min_y) as u64 / 2) as i64;

        // Top half, walking down.
        let mut y: i64 = min_y;
        let mut x: i64 = top_start_x;
        let mut done = false;
        while !done
            invariant
                self.wf(),
                dims_same(*old(self), *self),
                !show_outline ==> box_fill_result(*old(self), *self, t),
                min_x <= x <= max_x + 8,
                !done ==> min_y <= y <= half_y,
                done ==> y > min_y,
                y == min_y ==> x as int == top_seed_x(t),
                !show_outline && y > min_y ==> block_filled(*self, t, top_seed_x(t), min_y as int),
            decreases half_y + 8 - y,
        {
            let ghost before = *self;
            let span = self.walk_block_row(triangle, abc, x, y, min_x, max_x, show_outline);
            proof {
                if !show_outline {
                    lemma_box_fill_compose(*old(self), before, *self, t);
                    if y > min_y {
                        lemma_block_filled_persists(before, *self, t, top_seed_x(t), min_y as int);
                    }
                }
            }
            y = y + 8;
            if y >= half_y {
                done = true;
            } else {
                x = if span.1 >= span.0 {
                    span.0 + ((span.1 - span.0) as u64 / 2) as i64
                } else {
                    span.0
                };
            }
        }
        // Bottom half, walking up.
        let mut y: i64 = max_y;
        let mut x: i64 = bottom_start_x;
        let mut done = false;
        while !done
            invariant
                self.wf(),
                dims_same(*old(self), *self),
                !show_outline ==> box_fill_result(*old(self), *self, t),
                min_x <= x <= max_x + 8,
                !done ==> half_y <= y <= max_y,
                done ==> y < max_y,
                y == max_y ==> x as int == bottom_seed_x(t),
                !show_outline ==> block_filled(*self, t, top_seed_x(t), min_y as int),
                !show_outline && y < max_y ==> block_filled(
                    *self,
                    t,
                    bottom_seed_x(t),
                    max_y as int,
                ),
            decreases y + 8 - half_y,
        {
            let ghost before = *self;
            let span = self.walk_block_row(triangle, abc, x, y, min_x, max_x, show_outline);
            proof {
                if !show_outline {
                    lemma_box_fill_compose(*old(self), before, *self, t);
                    lemma_block_filled_persists(before, *self, t, top_seed_x(t), min_y as int);
                    if y < max_y {
                        lemma_block_filled_persists(
                            before,
                            *self,
                            t,
                            bottom_seed_x(t),
                            max_y as int,
                        );
                    }
                }
            }
            y = y - 8;
            if y < half_y {
                done = true;
            } else {
                x = if span.1 >= span.0 {
                    span.0 + ((span.1 - span.0) as u64 / 2) as i64
                } else {
                    span.0
                };
            }
        }
    }
}

} // verus!
