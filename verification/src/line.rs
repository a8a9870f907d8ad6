//! Integer Bresenham line drawing, inclusive of both endpoints, stepping by
//! pure add/compare — used for wireframe overlays, never for fill. The spec
//! `line_points` is the exact pixel sequence of the walk; the proof tracks
//! how many steps remain along each axis to show the walk never overshoots
//! an axis and reaches the endpoint within its fuel.

use vstd::prelude::*;

use crate::canvas::GlaciersCanvas;
use crate::canvas::dims_same;
use crate::canvas::same_pixel;
use crate::geometry::Triangle;
use crate::geometry::Vec3i;
use crate::geometry::lemma_mul_bound;

verus! {

/// Whether one Bresenham iteration with accumulator `err` steps along x.
pub open spec fn steps_x(err: int, dx: int, dy: int) -> bool {
    2 * err >= dy
}

/// Whether one Bresenham iteration with accumulator `err` steps along y.
pub open spec fn steps_y(err: int, dx: int, dy: int) -> bool {
    2 * err <= dx
}

/// The accumulator after one iteration.
pub open spec fn next_err(err: int, dx: int, dy: int) -> int {
    (if steps_x(err, dx, dy) {
        err + dy
    } else {
        err
    }) + (if steps_y(err, dx, dy) {
        dx
    } else {
        0
    })
}

/// The pixels the Bresenham walk visits from (x, y) until it reaches
/// (x1, y1), with `fuel` bounding the number of iterations.
pub open spec fn bres_points(
    x: int,
    y: int,
    x1: int,
    y1: int,
    dx: int,
    dy: int,
    sx: int,
    sy: int,
    err: int,
    fuel: nat,
) -> Seq<(int, int)>
    decreases fuel,
{
    if fuel == 0 {
        Seq::empty()
    } else if x == x1 && y == y1 {
        seq![(x, y)]
    } else {
        seq![(x, y)] + bres_points(
            if steps_x(err, dx, dy) {
                x + sx
            } else {
                x
            },
            if steps_y(err, dx, dy) {
                y + sy
            } else {
                y
            },
            x1,
            y1,
            dx,
            dy,
            sx,
            sy,
            next_err(err, dx, dy),
            (fuel - 1) as nat,
        )
    }
}

/// The pixels of the Bresenham line from (x0, y0) to (x1, y1), both
/// inclusive. `dx - dy + 1` iterations always suffice to arrive.
pub open spec fn line_points(x0: int, y0: int, x1: int, y1: int) -> Seq<(int, int)> {
    let dx = if x1 >= x0 {
        x1 - x0
    } else {
        x0 - x1
    };
    let dy = if y1 >= y0 {
        y0 - y1
    } else {
        y1 - y0
    };
    let sx: int = if x0 < x1 {
        1
    } else {
        -1
    };
    let sy: int = if y0 < y1 {
        1
    } else {
        -1
    };
    bres_points(x0, y0, x1, y1, dx, dy, sx, sy, dx + dy, (dx - dy + 1) as nat)
}

/// A reachable state of the walk: `rx` x-steps and `ry` y-steps remain, and
/// the accumulator carries exactly the balance of steps taken so far.
pub open spec fn bres_ok(
    x: int,
    y: int,
    x1: int,
    y1: int,
    dx: int,
    dy: int,
    sx: int,
    sy: int,
    err: int,
    rx: int,
    ry: int,
) -> bool {
    &&& dx >= 0
    &&& dy <= 0
    &&& (sx == 1 || sx == -1)
    &&& (sy == 1 || sy == -1)
    &&& 0 <= rx <= dx
    &&& 0 <= ry <= -dy
    &&& x1 == x + rx * sx
    &&& y1 == y + ry * sy
    &&& err == dx + dy + ((-dy) - ry) * dx + (dx - rx) * dy
}

/// One iteration from a reachable state that has not arrived: some axis
/// steps, an axis whose steps are exhausted does not step again, and the
/// next state is reachable with one or two fewer remaining steps.
pub proof fn lemma_bres_step(
    x: int,
    y: int,
    x1: int,
    y1: int,
    dx: int,
    dy: int,
    sx: int,
    sy: int,
    err: int,
    rx: int,
    ry: int,
)
    requires
        bres_ok(x, y, x1, y1, dx, dy, sx, sy, err, rx, ry),
        !(x == x1 && y == y1),
    ensures
        steps_x(err, dx, dy) || steps_y(err, dx, dy),
        steps_x(err, dx, dy) ==> rx >= 1,
        steps_y(err, dx, dy) ==> ry >= 1,
        bres_ok(
            if steps_x(err, dx, dy) {
                x + sx
            } else {
                x
            },
            if steps_y(err, dx, dy) {
                y + sy
            } else {
                y
            },
            x1,
            y1,
            dx,
            dy,
            sx,
            sy,
            next_err(err, dx, dy),
            if steps_x(err, dx, dy) {
                rx - 1
            } else {
                rx
            },
            if steps_y(err, dx, dy) {
                ry - 1
            } else {
                ry
            },
        ),
{
    let a = dx - rx;
    let b = (-dy) - ry;
    // Arrived on an axis means that coordinate equals the target's.
    assert(rx == 0 ==> x == x1) by {
        if rx == 0 {
            assert(rx * sx == 0) by (nonlinear_arith)
                requires
                    rx == 0,
            ;
        }
    }
    assert(ry == 0 ==> y == y1) by {
        if ry == 0 {
            assert(ry * sy == 0) by (nonlinear_arith)
                requires
                    ry == 0,
            ;
        }
    }
    assert(rx >= 1 || ry >= 1);
    // An exhausted x-axis never steps again.
    if rx == 0 {
        assert(ry >= 1);
        assert(!steps_x(err, dx, dy)) by {
            assert(2 * err < dy) by (nonlinear_arith)
                requires
                    err == dx + dy + b * dx + a * dy,
                    a == dx,
                    b <= (-dy) - 1,
                    dy <= -1,
                    dx >= 0,
                    b == (-dy) - ry,
                    ry >= 1,
            ;
        }
    }
    // An exhausted y-axis never steps again.
    if ry == 0 {
        assert(rx >= 1);
        assert(!steps_y(err, dx, dy)) by {
            assert(2 * err > dx) by (nonlinear_arith)
                requires
                    err == dx + dy + b * dx + a * dy,
                    b == -dy,
                    a <= dx - 1,
                    a >= 0,
                    dy <= 0,
                    dx >= 1,
            ;
        }
    }
    // Some axis always steps.
    assert(steps_x(err, dx, dy) || steps_y(err, dx, dy));
    // The next state is reachable again.
    let nx = if steps_x(err, dx, dy) {
        x + sx
    } else {
        x
    };
    let ny = if steps_y(err, dx, dy) {
        y + sy
    } else {
        y
    };
    let nrx = if steps_x(err, dx, dy) {
        rx - 1
    } else {
        rx
    };
    let nry = if steps_y(err, dx, dy) {
        ry - 1
    } else {
        ry
    };
    assert(x1 == nx + nrx * sx) by {
        if steps_x(err, dx, dy) {
            assert(rx * sx == sx + (rx - 1) * sx) by (nonlinear_arith);
        }
    }
    assert(y1 == ny + nry * sy) by {
        if steps_y(err, dx, dy) {
            assert(ry * sy == sy + (ry - 1) * sy) by (nonlinear_arith);
        }
    }
    assert(next_err(err, dx, dy) == dx + dy + ((-dy) - nry) * dx + (dx - nrx) * dy) by {
        assert((b + 1) * dx == b * dx + dx) by (nonlinear_arith);
        assert((a + 1) * dy == a * dy + dy) by (nonlinear_arith);
    }
}

/// From any reachable state with enough fuel, the walk reaches the
/// endpoint: (x1, y1) appears in the pixel sequence.
proof fn lemma_bres_reaches(
    x: int,
    y: int,
    x1: int,
    y1: int,
    dx: int,
    dy: int,
    sx: int,
    sy: int,
    err: int,
    rx: int,
    ry: int,
    fuel: nat,
)
    requires
        bres_ok(x, y, x1, y1, dx, dy, sx, sy, err, rx, ry),
        fuel >= rx + ry + 1,
    ensures
        bres_points(x, y, x1, y1, dx, dy, sx, sy, err, fuel).contains((x1, y1)),
    decreases rx + ry,
{
    let s = bres_points(x, y, x1, y1, dx, dy, sx, sy, err, fuel);
    if x == x1 && y == y1 {
        assert(s == seq![(x1, y1)]);
        assert(s[0] == (x1, y1));
    } else {
        lemma_bres_step(x, y, x1, y1, dx, dy, sx, sy, err, rx, ry);
        let nx = if steps_x(err, dx, dy) {
            x + sx
        } else {
            x
        };
        let ny = if steps_y(err, dx, dy) {
            y + sy
        } else {
            y
        };
        let nrx = if steps_x(err, dx, dy) {
            rx - 1
        } else {
            rx
        };
        let nry = if steps_y(err, dx, dy) {
            ry - 1
        } else {
            ry
        };
        let nerr = next_err(err, dx, dy);
        lemma_bres_reaches(nx, ny, x1, y1, dx, dy, sx, sy, nerr, nrx, nry, (fuel - 1) as nat);
        let tail = bres_points(nx, ny, x1, y1, dx, dy, sx, sy, nerr, (fuel - 1) as nat);
        assert(s == seq![(x, y)] + tail);
        let k = choose|k: int| 0 <= k < tail.len() && tail[k] == (x1, y1);
        assert(s[k + 1] == (x1, y1));
    }
}

/// The line is inclusive of both of its endpoints: each appears among its
/// pixels.
pub proof fn lemma_line_includes_endpoints(x0: int, y0: int, x1: int, y1: int)
    ensures
        line_points(x0, y0, x1, y1).contains((x0, y0)),
        line_points(x0, y0, x1, y1).contains((x1, y1)),
{
    let dx = if x1 >= x0 {
        x1 - x0
    } else {
        x0 - x1
    };
    let dy = if y1 >= y0 {
        y0 - y1
    } else {
        y1 - y0
    };
    let sx: int = if x0 < x1 {
        1
    } else {
        -1
    };
    let sy: int = if y0 < y1 {
        1
    } else {
        -1
    };
    let rx = dx;
    let ry = -dy;
    assert(rx * sx == if sx == 1 {
        rx
    } else {
        -rx
    }) by (nonlinear_arith)
    requires
        sx == 1 || sx == -1,
    ;
    assert(ry * sy == if sy == 1 {
        ry
    } else {
        -ry
    }) by (nonlinear_arith)
    requires
        sy == 1 || sy == -1,
    ;
    assert(((-dy) - ry) * dx == 0) by (nonlinear_arith)
        requires
            (-dy) - ry == 0,
    ;
    assert((dx - rx) * dy == 0) by (nonlinear_arith)
        requires
            dx - rx == 0,
    ;
    assert(bres_ok(x0, y0, x1, y1, dx, dy, sx, sy, dx + dy, rx, ry));
    let s = line_points(x0, y0, x1, y1);
    assert(s == bres_points(x0, y0, x1, y1, dx, dy, sx, sy, dx + dy, (dx - dy + 1) as nat));
    assert(s[0] == (x0, y0));
    assert(s.contains((x0, y0)));
    lemma_bres_reaches(x0, y0, x1, y1, dx, dy, sx, sy, dx + dy, rx, ry, (dx - dy + 1) as nat);
}

impl GlaciersCanvas {
    /// Draws the integer Bresenham line between the two points, inclusive of
    /// both endpoints, in the given color, with out-of-buffer pixels
    /// dropped. Exactly the pixels of `line_points` are written.
    pub fn draw_line(&mut self, start: Vec3i, end: Vec3i, color: [u8; 4])
        requires
            old(self).wf(),
        ensures
            final(self).wf(),
            dims_same(*old(self), *final(self)),
            forall|x: int, y: int|
                old(self).in_bounds(x, y) ==> if line_points(
                    start.x as int,
                    start.y as int,
                    end.x as int,
                    end.y as int,
                ).contains((x, y)) {
                    final(self).pixel_is(x, y, color)
                } else {
                    same_pixel(*old(self), *final(self), x, y)
                },
    {
        let x1: i64 = end.x as i64;
        let y1: i64 = end.y as i64;
        let mut x: i64 = start.x as i64;
        let mut y: i64 = start.y as i64;

        let dx: i64 = if x1 >= x {
            x1 - x
        } else {
            x - x1
        };
        let dy: i64 = if y1 >= y {
            y - y1
        } else {
            y1 - y
        };
        let sx: i64 = if x < x1 {
            1
        } else {
            -1
        };
        let sy: i64 = if y < y1 {
            1
        } else {
            -1
        };
        let mut err: i128 = (dx + dy) as i128;

        let ghost pts = line_points(start.x as int, start.y as int, end.x as int, end.y as int);
        let ghost mut n: int = 0;
        let ghost mut rx: int = dx as int;
        let ghost mut ry: int = -dy as int;
        proof {
            assert(rx * (sx as int) == if sx == 1 {
                rx
            } else {
                -rx
            }) by (nonlinear_arith)
            requires
                sx == 1 || sx == -1,
            ;
            assert(ry * (sy as int) == if sy == 1 {
                ry
            } else {
                -ry
            }) by (nonlinear_arith)
            requires
                sy == 1 || sy == -1,
            ;
            assert(((-dy as int) - ry) * dx == 0) by (nonlinear_arith)
                requires
                    (-dy as int) - ry == 0,
            ;
            assert((dx - rx) * (dy as int) == 0) by (nonlinear_arith)
                requires
                    dx as int - rx == 0,
            ;
            assert(bres_ok(
                x as int,
                y as int,
                x1 as int,
                y1 as int,
                dx as int,
                dy as int,
                sx as int,
                sy as int,
                err as int,
                rx,
                ry,
            ));
        }
        loop
            invariant_except_break
                self.wf(),
                dims_same(*old(self), *self),
                bres_ok(
                    x as int,
                    y as int,
                    x1 as int,
                    y1 as int,
                    dx as int,
                    dy as int,
                    sx as int,
                    sy as int,
                    err as int,
                    rx,
                    ry,
                ),
                0 <= dx <= 0x1_0000_0000,
                -0x1_0000_0000 <= dy <= 0,
                -0x8000_0000 <= x1 <= 0x8000_0000,
                -0x8000_0000 <= y1 <= 0x8000_0000,
                0 <= n <= pts.len(),
                (dx as int) - (dy as int) + 1 - n >= rx + ry + 1,
                pts =~= pts.take(n) + bres_points(
                    x as int,
                    y as int,
                    x1 as int,
                    y1 as int,
                    dx as int,
                    dy as int,
                    sx as int,
                    sy as int,
                    err as int,
                    ((dx as int) - (dy as int) + 1 - n) as nat,
                ),
                forall|x2: int, y2: int|
                    old(self).in_bounds(x2, y2) ==> if (exists|k: int|
                        0 <= k < n && pts[k] == (x2, y2)) {
                        self.pixel_is(x2, y2, color)
                    } else {
                        same_pixel(*old(self), *self, x2, y2)
                    },
            ensures
                self.wf(),
                dims_same(*old(self), *self),
                forall|x2: int, y2: int|
                    old(self).in_bounds(x2, y2) ==> if pts.contains((x2, y2)) {
                        self.pixel_is(x2, y2, color)
                    } else {
                        same_pixel(*old(self), *self, x2, y2)
                    },
            decreases rx + ry,
        {
            let ghost mid = *self;
            let ghost f_old = (dx as int) - (dy as int) + 1 - n;
            let ghost n_err = next_err(err as int, dx as int, dy as int);
            let ghost nx = if steps_x(err as int, dx as int, dy as int) {
                x as int + sx as int
            } else {
                x as int
            };
            let ghost ny = if steps_y(err as int, dx as int, dy as int) {
                y as int + sy as int
            } else {
                y as int
            };
            let ghost rest = bres_points(
                nx,
                ny,
                x1 as int,
                y1 as int,
                dx as int,
                dy as int,
                sx as int,
                sy as int,
                n_err,
                (f_old - 1) as nat,
            );
            let ghost cur = bres_points(
                x as int,
                y as int,
                x1 as int,
                y1 as int,
                dx as int,
                dy as int,
                sx as int,
                sy as int,
                err as int,
                f_old as nat,
            );
            self.draw_point_clipped(x, y, color);
            proof {
                // The head of the remaining walk is the pixel just drawn.
                assert(f_old >= 1);
                if x == x1 && y == y1 {
                    assert(cur == seq![(x as int, y as int)]);
                } else {
                    assert(cur == seq![(x as int, y as int)] + rest);
                }
                assert(pts == pts.take(n) + cur);
                assert(pts.take(n).len() == n);
                assert(cur[0] == (x as int, y as int));
                assert(pts[n] == (x as int, y as int));
                assert(pts.take(n + 1) =~= pts.take(n) + seq![(x as int, y as int)]);
                n = n + 1;
                assert forall|x2: int, y2: int| old(self).in_bounds(x2, y2) implies (if (
                exists|k: int| 0 <= k < n && pts[k] == (x2, y2)) {
                    self.pixel_is(x2, y2, color)
                } else {
                    same_pixel(*old(self), *self, x2, y2)
                }) by {
                    if x2 == x as int && y2 == y as int {
                        assert(pts[n - 1] == (x2, y2));
                        assert(exists|k: int| 0 <= k < n && pts[k] == (x2, y2));
                    } else {
                        assert(mid.in_bounds(x2, y2));
                        assert(same_pixel(mid, *self, x2, y2));
                        assert((exists|k: int| 0 <= k < n && pts[k] == (x2, y2)) == (exists|k: int|
                            0 <= k < n - 1 && pts[k] == (x2, y2)));
                    }
                }
            }
            if x == x1 && y == y1 {
                proof {
                    assert(cur.len() == 1);
                    assert(n == pts.len());
                    assert forall|x2: int, y2: int|
                        old(self).in_bounds(x2, y2) implies (if pts.contains((x2, y2)) {
                        self.pixel_is(x2, y2, color)
                    } else {
                        same_pixel(*old(self), *self, x2, y2)
                    }) by {
                        assert(pts.contains((x2, y2)) == (exists|k: int|
                            0 <= k < n && pts[k] == (x2, y2)));
                    }
                }
                break ;
            }
            proof {
                lemma_bres_step(
                    x as int,
                    y as int,
                    x1 as int,
                    y1 as int,
                    dx as int,
                    dy as int,
                    sx as int,
                    sy as int,
                    err as int,
                    rx,
                    ry,
                );
                assert(pts =~= pts.take(n) + rest);
                if steps_x(err as int, dx as int, dy as int) {
                    rx = rx - 1;
                }
                if steps_y(err as int, dx as int, dy as int) {
                    ry = ry - 1;
                }
                lemma_mul_bound(((-dy as int) - ry), dx as int, 0x1_0000_0000);
                lemma_mul_bound((dx as int - rx), dy as int, 0x1_0000_0000);
            }
            let e2: i128 = 2 * err;
            if e2 >= dy as i128 {
                err = err + dy as i128;
                x = x + sx;
            }
            if e2 <= dx as i128 {
                err = err + dx as i128;
                y = y + sy;
            }
        }
    }

    /// Draws the three edges of the triangle in the given color: the
    /// wireframe overlay.
    pub fn draw_triangle_wireframe(&mut self, triangle: &Triangle, color: [u8; 4])
        requires
            old(self).wf(),
        ensures
            final(self).wf(),
            dims_same(*old(self), *final(self)),
            forall|x: int, y: int|
                old(self).in_bounds(x, y) ==> if on_wireframe(*triangle, x, y) {
                    final(self).pixel_is(x, y, color)
                } else {
                    same_pixel(*old(self), *final(self), x, y)
                },
    {
        let v0 = triangle.vertices[0].pos;
        let v1 = triangle.vertices[1].pos;
        let v2 = triangle.vertices[2].pos;
        let ghost c0 = *self;
        self.draw_line(v0, v1, color);
        let ghost c1 = *self;
        self.draw_line(v1, v2, color);
        let ghost c2 = *self;
        self.draw_line(v2, v0, color);
        proof {
            let t = *triangle;
            assert forall|x: int, y: int| c0.in_bounds(x, y) implies (if on_wireframe(t, x, y) {
                self.pixel_is(x, y, color)
            } else {
                same_pixel(c0, *self, x, y)
            }) by {
                assert(c1.in_bounds(x, y));
                assert(c2.in_bounds(x, y));
            }
        }
    }
}

/// (x, y) lies on one of the three Bresenham edges of the triangle.
pub open spec fn on_wireframe(t: Triangle, x: int, y: int) -> bool {
    ||| line_points(
        t.v(0).pos.x as int,
        t.v(0).pos.y as int,
        t.v(1).pos.x as int,
        t.v(1).pos.y as int,
    ).contains((x, y))
    ||| line_points(
        t.v(1).pos.x as int,
        t.v(1).pos.y as int,
        t.v(2).pos.x as int,
        t.v(2).pos.y as int,
    ).contains((x, y))
    ||| line_points(
        t.v(2).pos.x as int,
        t.v(2).pos.y as int,
        t.v(0).pos.x as int,
        t.v(0).pos.y as int,
    ).contains((x, y))
}

} // verus!
