//! The 8-lane fill: the same pixels and the same colors as the scalar fill,
//! restructured so that each iteration evaluates one span of `LANES`
//! horizontally adjacent pixels at once — the three edge values and the
//! coverage mask are computed for the whole span before any lane is written,
//! and a span whose mask is empty is skipped outright.

use vstd::prelude::*;

use crate::canvas::GlaciersCanvas;
use crate::canvas::same_pixel;
use crate::fill::fill_partial;
use crate::fill::fill_result;
use crate::fill::scanned;
use crate::fill::shaded_pixel;
use crate::geometry::Triangle;
use crate::geometry::edge_function;
use crate::geometry::interp_channel;
use crate::geometry::lemma_covered_in_aabb;
use crate::geometry::lemma_edge_identities;

verus! {

/// How many horizontally adjacent pixels one wide iteration evaluates. The
/// algorithms depend only on this width being consistent between the wide
/// paths and the blocking factor, not on its particular value.
pub const LANES: usize = 8;

impl GlaciersCanvas {
    /// The 8-lane fill. It produces a buffer byte-identical to
    /// `draw_triangle`'s: the span loop may reach past the right edge of the
    /// bounding box, but a lane is written only when its coverage test
    /// passes, and a covered pixel never lies outside the box.
    #[verifier::loop_isolation(false)]
    pub fn draw_triangle_wide(&mut self, triangle: &Triangle)
        requires
            old(self).wf(),
            triangle.wf(),
        ensures
            final(self).wf(),
            fill_result(*old(self), *final(self), *triangle),
    {
        if !triangle.is_visible() {
            return ;
        }
        let ghost t = *triangle;
        let a = triangle.vertices[0].pos;
        let b = triangle.vertices[1].pos;
        let c = triangle.vertices[2].pos;
        let col0 = triangle.vertices[0].color;
        let col1 = triangle.vertices[1].color;
        let col2 = triangle.vertices[2].color;
        let abc = edge_function(
            a.x as i64,
            a.y as i64,
            b.x as i64,
            b.y as i64,
            c.x as i64,
            c.y as i64,
        );
        let min_x: i64 = triangle.aabb.0.x as i64;
        let max_x: i64 = triangle.aabb.1.x as i64;
        let min_y: i64 = triangle.aabb.0.y as i64;
        let max_y: i64 = triangle.aabb.1.y as i64;

        let mut y: i64 = min_y;
        while y <= max_y
            invariant
                min_y <= y <= max_y + 1,
                fill_partial(*old(self), *self, t, y as int, min_x as int),
            decreases max_y + 1 - y,
        {
            let mut x: i64 = min_x;
            while x <= max_x
                invariant
                    min_x <= x,
                    fill_partial(*old(self), *self, t, y as int, x as int),
                decreases max_x + 8 - x,
            {
                // Evaluate the whole span: edge values and coverage mask for
                // all lanes, before anything is written.
                let mut abp_l: [i128; 8] = [0; 8];
                let mut bcp_l: [i128; 8] = [0; 8];
                let mut cap_l: [i128; 8] = [0; 8];
                let mut mask: [bool; 8] = [false; 8];
                let mut any = false;
                let mut i: usize = 0;
                while i < LANES
                    invariant
                        i <= 8,
                        forall|j: int|
                            0 <= j < i as int ==> abp_l@[j] as int == t.abp(
                                x as int + j,
                                y as int,
                            ),
                        forall|j: int|
                            0 <= j < i as int ==> bcp_l@[j] as int == t.bcp(
                                x as int + j,
                                y as int,
                            ),
                        forall|j: int|
                            0 <= j < i as int ==> cap_l@[j] as int == t.cap(
                                x as int + j,
                                y as int,
                            ),
                        forall|j: int|
                            0 <= j < i as int ==> -0x20_0000_0000_0000_0000 <= #[trigger] abp_l@[j]
                                <= 0x20_0000_0000_0000_0000,
                        forall|j: int|
                            0 <= j < i as int ==> -0x20_0000_0000_0000_0000 <= #[trigger] bcp_l@[j]
                                <= 0x20_0000_0000_0000_0000,
                        forall|j: int|
                            0 <= j < i as int ==> -0x20_0000_0000_0000_0000 <= #[trigger] cap_l@[j]
                                <= 0x20_0000_0000_0000_0000,
                        forall|j: int|
                            0 <= j < i as int ==> mask@[j] == t.covered(x as int + j, y as int),
                        any || (forall|j: int| 0 <= j < i as int ==> !mask@[j]),
                    decreases 8 - i,
                {
                    let lx = x + i as i64;
                    let abp = edge_function(a.x as i64, a.y as i64, b.x as i64, b.y as i64, lx, y);
                    let bcp = edge_function(b.x as i64, b.y as i64, c.x as i64, c.y as i64, lx, y);
                    let cap = edge_function(c.x as i64, c.y as i64, a.x as i64, a.y as i64, lx, y);
                    let m = abp <= 0 && bcp <= 0 && cap <= 0;
                    abp_l[i] = abp;
                    bcp_l[i] = bcp;
                    cap_l[i] = cap;
                    mask[i] = m;
                    if m {
                        any = true;
                    }
                    i = i + 1;
                }
                if any {
                    // Write each covered lane's blended color.
                    let mut i: usize = 0;
                    while i < LANES
                        invariant
                            i <= 8,
                            fill_partial(*old(self), *self, t, y as int, x as int + i as int),
                            forall|j: int|
                                0 <= j < 8 ==> abp_l@[j] as int == t.abp(x as int + j, y as int),
                            forall|j: int|
                                0 <= j < 8 ==> bcp_l@[j] as int == t.bcp(x as int + j, y as int),
                            forall|j: int|
                                0 <= j < 8 ==> cap_l@[j] as int == t.cap(x as int + j, y as int),
                            forall|j: int|
                                0 <= j < 8 ==> -0x20_0000_0000_0000_0000 <= #[trigger] abp_l@[j]
                                    <= 0x20_0000_0000_0000_0000,
                            forall|j: int|
                                0 <= j < 8 ==> -0x20_0000_0000_0000_0000 <= #[trigger] bcp_l@[j]
                                    <= 0x20_0000_0000_0000_0000,
                            forall|j: int|
                                0 <= j < 8 ==> -0x20_0000_0000_0000_0000 <= #[trigger] cap_l@[j]
                                    <= 0x20_0000_0000_0000_0000,
                            forall|j: int|
                                0 <= j < 8 ==> mask@[j] == t.covered(x as int + j, y as int),
                        decreases 8 - i,
                    {
                        let ghost mid = *self;
                        let ghost lx = x as int + i as int;
                        if mask[i] {
                            proof {
                                lemma_edge_identities(
                                    a.x as int,
                                    a.y as int,
                                    b.x as int,
                                    b.y as int,
                                    c.x as int,
                                    c.y as int,
                                    lx,
                                    y as int,
                                );
                                lemma_covered_in_aabb(t, lx, y as int);
                            }
                            let bcp = bcp_l[i];
                            let cap = cap_l[i];
                            let abp = abp_l[i];
                            let r = interp_channel(bcp, cap, abp, abc, col0.r, col1.r, col2.r);
                            let g = interp_channel(bcp, cap, abp, abc, col0.g, col1.g, col2.g);
                            let bl = interp_channel(bcp, cap, abp, abc, col0.b, col1.b, col2.b);
                            self.draw_point_clipped(x + i as i64, y, [r, g, bl, 255]);
                            proof {
                                assert(t.covered(lx, y as int));
                                assert forall|x2: int, y2: int|
                                    old(self).in_bounds(x2, y2) implies (if scanned(
                                    t,
                                    x2,
                                    y2,
                                    y as int,
                                    lx + 1,
                                ) && t.covered(x2, y2) {
                                    shaded_pixel(t, *self, x2, y2)
                                } else {
                                    same_pixel(*old(self), *self, x2, y2)
                                }) by {
                                    if x2 == lx && y2 == y as int {
                                        assert(self.pixel_is(x2, y2, [r, g, bl, 255u8]));
                                        assert(self.chan(x2, y2, 0) == r);
                                        assert(self.chan(x2, y2, 1) == g);
                                        assert(self.chan(x2, y2, 2) == bl);
                                        assert(self.chan(x2, y2, 3) == 255u8);
                                        assert(t.shade_chan(x2, y2, 0) == r);
                                        assert(t.shade_chan(x2, y2, 1) == g);
                                        assert(t.shade_chan(x2, y2, 2) == bl);
                                        assert(shaded_pixel(t, *self, x2, y2));
                                    } else {
                                        assert(mid.in_bounds(x2, y2));
                                        assert(same_pixel(mid, *self, x2, y2));
                                        assert(scanned(t, x2, y2, y as int, lx + 1) == scanned(
                                            t,
                                            x2,
                                            y2,
                                            y as int,
                                            lx,
                                        ));
                                    }
                                }
                            }
                        } else {
                            proof {
                                assert(!t.covered(lx, y as int));
                                assert forall|x2: int, y2: int|
                                    old(self).in_bounds(x2, y2) implies (if scanned(
                                    t,
                                    x2,
                                    y2,
                                    y as int,
                                    lx + 1,
                                ) && t.covered(x2, y2) {
                                    shaded_pixel(t, *self, x2, y2)
                                } else {
                                    same_pixel(*old(self), *self, x2, y2)
                                }) by {
                                    assert(scanned(t, x2, y2, y as int, lx + 1) && t.covered(
                                        x2,
                                        y2,
                                    ) ==> scanned(t, x2, y2, y as int, lx) && t.covered(x2, y2));
                                }
                            }
                        }
                        i = i + 1;
                    }
                } else {
                    // Every lane of the span failed the coverage test:
                    // nothing to draw for these 8 pixels.
                    proof {
                        assert forall|x2: int, y2: int| old(self).in_bounds(x2, y2) implies (if
                        scanned(t, x2, y2, y as int, x as int + 8) && t.covered(x2, y2) {
                            shaded_pixel(t, *self, x2, y2)
                        } else {
                            same_pixel(*old(self), *self, x2, y2)
                        }) by {
                            if y2 == y as int && x as int <= x2 < x as int + 8 {
                                assert(!mask@[x2 - x as int]);
                                assert(!t.covered(x2, y2));
                            }
                        }
                    }
                }
                x = x + 8;
            }
            y = y + 1;
        }
    }
}

} // verus!
