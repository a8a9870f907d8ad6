//! Vertex and triangle primitives: positions in buffer pixel space, linear
//! RGB colors, the edge-function coverage test, and the interpolated shade
//! of a covered pixel.

use vstd::prelude::*;

verus! {

/// A position in buffer pixel space. Fill algorithms read only `x` and `y`;
/// `z` takes no part in any test (there is no depth buffer) but is kept with
/// the vertex.
#[derive(Clone, Copy, PartialEq, Eq, Structural, Debug)]
pub struct Vec3i {
    pub x: i32,
    pub y: i32,
    pub z: i32,
}

/// A linear (gamma-decoded) RGB color. Each channel is an intensity in
/// `0..=255`; any conversion from a display color space happens once, at
/// construction time, outside this library.
#[derive(Clone, Copy, PartialEq, Eq, Structural, Debug)]
pub struct Rgb {
    pub r: u8,
    pub g: u8,
    pub b: u8,
}

/// One triangle corner: a position and the color interpolation blends from it.
#[derive(Clone, Copy, PartialEq, Eq, Structural, Debug)]
pub struct Vertex {
    pub pos: Vec3i,
    pub color: Rgb,
}

/// Three vertices plus their axis-aligned bounding box. The box is the
/// component-wise min/max of the three positions; `wf()` states that, every
/// constructor establishes it, and every fill method requires it, so a stale
/// box never reaches a fill loop.
#[derive(Clone, Copy, Debug)]
pub struct Triangle {
    pub vertices: [Vertex; 3],
    pub aabb: (Vec3i, Vec3i),
}

/// The edge function of points a, b, c: twice the signed area of the
/// triangle (a, b, c). A point p lies on the inner side of the directed
/// edge a -> b exactly when `edge(a, b, p) <= 0`, under the single winding
/// convention this library fixes (negative signed area is front-facing).
pub open spec fn edge(ax: int, ay: int, bx: int, by: int, cx: int, cy: int) -> int {
    (bx - ax) * (cy - ay) - (by - ay) * (cx - ax)
}

pub open spec fn min3(a: int, b: int, c: int) -> int {
    if a <= b && a <= c {
        a
    } else if b <= c {
        b
    } else {
        c
    }
}

pub open spec fn max3(a: int, b: int, c: int) -> int {
    if a >= b && a >= c {
        a
    } else if b >= c {
        b
    } else {
        c
    }
}

impl Vec3i {
    pub fn new(x: i32, y: i32, z: i32) -> (v: Vec3i)
        ensures
            v == (Vec3i { x, y, z }),
    {
        Vec3i { x, y, z }
    }
}

impl Rgb {
    pub fn new(r: u8, g: u8, b: u8) -> (c: Rgb)
        ensures
            c == (Rgb { r, g, b }),
    {
        Rgb { r, g, b }
    }
}

impl Vertex {
    pub fn new(pos: Vec3i, color: Rgb) -> (v: Vertex)
        ensures
            v == (Vertex { pos, color }),
    {
        Vertex { pos, color }
    }
}

/// Computes the edge function exactly, widening to 128 bits so that no
/// intermediate product can overflow for any coordinates in the accepted
/// range, which covers 32-bit positions and the spans the fills step past
/// them.
pub fn edge_function(ax: i64, ay: i64, bx: i64, by: i64, cx: i64, cy: i64) -> (r: i128)
    requires
        -0x2_0000_0000 <= ax <= 0x2_0000_0000,
        -0x2_0000_0000 <= ay <= 0x2_0000_0000,
        -0x2_0000_0000 <= bx <= 0x2_0000_0000,
        -0x2_0000_0000 <= by <= 0x2_0000_0000,
        -0x2_0000_0000 <= cx <= 0x2_0000_0000,
        -0x2_0000_0000 <= cy <= 0x2_0000_0000,
    ensures
        r == edge(ax as int, ay as int, bx as int, by as int, cx as int, cy as int),
        -0x20_0000_0000_0000_0000 <= r <= 0x20_0000_0000_0000_0000,
{
    let bax = bx as i128 - ax as i128;
    let cay = cy as i128 - ay as i128;
    let bay = by as i128 - ay as i128;
    let cax = cx as i128 - ax as i128;
    proof {
        lemma_mul_bound(bax as int, cay as int, 0x4_0000_0000);
        lemma_mul_bound(bay as int, cax as int, 0x4_0000_0000);
    }
    bax * cay - bay * cax
}

/// For any a, b with |a| <= m and |b| <= m, the product a * b lies within
/// [-m * m, m * m].
pub proof fn lemma_mul_bound(a: int, b: int, m: int)
    requires
        -m <= a <= m,
        -m <= b <= m,
        0 <= m,
    ensures
        -(m * m) <= a * b <= m * m,
{
    assert(-(m * m) <= a * b <= m * m) by (nonlinear_arith)
        requires
            -m <= a <= m,
            -m <= b <= m,
            0 <= m,
    ;
}

impl Triangle {
    pub open spec fn v(self, i: int) -> Vertex {
        self.vertices[i]
    }

    /// Twice the signed area of the triangle, from vertex order (0, 1, 2).
    pub open spec fn abc(self) -> int {
        edge(
            self.v(0).pos.x as int,
            self.v(0).pos.y as int,
            self.v(1).pos.x as int,
            self.v(1).pos.y as int,
            self.v(2).pos.x as int,
            self.v(2).pos.y as int,
        )
    }

    /// Edge value of (v0, v1) against point p.
    pub open spec fn abp(self, px: int, py: int) -> int {
        edge(
            self.v(0).pos.x as int,
            self.v(0).pos.y as int,
            self.v(1).pos.x as int,
            self.v(1).pos.y as int,
            px,
            py,
        )
    }

    /// Edge value of (v1, v2) against point p.
    pub open spec fn bcp(self, px: int, py: int) -> int {
        edge(
            self.v(1).pos.x as int,
            self.v(1).pos.y as int,
            self.v(2).pos.x as int,
            self.v(2).pos.y as int,
            px,
            py,
        )
    }

    /// Edge value of (v2, v0) against point p.
    pub open spec fn cap(self, px: int, py: int) -> int {
        edge(
            self.v(2).pos.x as int,
            self.v(2).pos.y as int,
            self.v(0).pos.x as int,
            self.v(0).pos.y as int,
            px,
            py,
        )
    }

    /// The accepted winding: strictly negative signed area. Fixing a single
    /// winding lets the coverage test compare in one direction only; a
    /// zero-area or opposite-winding triangle is invisible and no fill
    /// method writes any pixel for it.
    pub open spec fn visible(self) -> bool {
        self.abc() < 0
    }

    /// The inside test: p is covered when it lies on the inner side of all
    /// three edges. Ties (a point exactly on an edge) count as inside.
    pub open spec fn covered(self, px: int, py: int) -> bool {
        self.abp(px, py) <= 0 && self.bcp(px, py) <= 0 && self.cap(px, py) <= 0
    }

    /// The bounding box is exactly the component-wise min/max of the three
    /// vertex positions.
    pub open spec fn wf(self) -> bool {
        &&& self.aabb.0.x as int == min3(
            self.v(0).pos.x as int,
            self.v(1).pos.x as int,
            self.v(2).pos.x as int,
        )
        &&& self.aabb.0.y as int == min3(
            self.v(0).pos.y as int,
            self.v(1).pos.y as int,
            self.v(2).pos.y as int,
        )
        &&& self.aabb.0.z as int == min3(
            self.v(0).pos.z as int,
            self.v(1).pos.z as int,
            self.v(2).pos.z as int,
        )
        &&& self.aabb.1.x as int == max3(
            self.v(0).pos.x as int,
            self.v(1).pos.x as int,
            self.v(2).pos.x as int,
        )
        &&& self.aabb.1.y as int == max3(
            self.v(0).pos.y as int,
            self.v(1).pos.y as int,
            self.v(2).pos.y as int,
        )
        &&& self.aabb.1.z as int == max3(
            self.v(0).pos.z as int,
            self.v(1).pos.z as int,
            self.v(2).pos.z as int,
        )
    }

    /// Channel i (0 = red, 1 = green, 2 = blue, 3 = alpha) of the color a
    /// fill writes at covered pixel p: the barycentric blend of the three
    /// vertex colors, truncated to 8 bits, with alpha always fully opaque.
    pub open spec fn shade_chan(self, px: int, py: int, i: int) -> u8 {
        if i == 0 {
            interp_val(
                self.bcp(px, py),
                self.cap(px, py),
                self.abp(px, py),
                self.abc(),
                self.v(0).color.r as int,
                self.v(1).color.r as int,
                self.v(2).color.r as int,
            ) as u8
        } else if i == 1 {
            interp_val(
                self.bcp(px, py),
                self.cap(px, py),
                self.abp(px, py),
                self.abc(),
                self.v(0).color.g as int,
                self.v(1).color.g as int,
                self.v(2).color.g as int,
            ) as u8
        } else if i == 2 {
            interp_val(
                self.bcp(px, py),
                self.cap(px, py),
                self.abp(px, py),
                self.abc(),
                self.v(0).color.b as int,
                self.v(1).color.b as int,
                self.v(2).color.b as int,
            ) as u8
        } else {
            255
        }
    }

    /// p lies within the bounding box, in x and y.
    pub open spec fn in_aabb(self, px: int, py: int) -> bool {
        &&& self.aabb.0.x as int <= px <= self.aabb.1.x as int
        &&& self.aabb.0.y as int <= py <= self.aabb.1.y as int
    }

    pub fn new(vertices: [Vertex; 3]) -> (t: Triangle)
        ensures
            t.vertices == vertices,
            t.wf(),
    {
        let mut t = Triangle { vertices, aabb: (vertices[0].pos, vertices[0].pos) };
        t.recompute_aabb();
        t
    }

    /// Recomputes the bounding box from the current vertices. The owner of a
    /// mutable triangle calls this after editing a vertex position in place.
    pub fn recompute_aabb(&mut self)
        ensures
            final(self).vertices == old(self).vertices,
            final(self).wf(),
    {
        let p0 = self.vertices[0].pos;
        let p1 = self.vertices[1].pos;
        let p2 = self.vertices[2].pos;
        self.aabb = (
            Vec3i {
                x: min3_i32(p0.x, p1.x, p2.x),
                y: min3_i32(p0.y, p1.y, p2.y),
                z: min3_i32(p0.z, p1.z, p2.z),
            },
            Vec3i {
                x: max3_i32(p0.x, p1.x, p2.x),
                y: max3_i32(p0.y, p1.y, p2.y),
                z: max3_i32(p0.z, p1.z, p2.z),
            },
        );
    }

    /// True exactly when the triangle has the accepted winding: signed area
    /// strictly negative. Every fill method treats an invisible triangle as
    /// a no-op.
    pub fn is_visible(&self) -> (r: bool)
        ensures
            r == self.visible(),
    {
        let a = self.vertices[0].pos;
        let b = self.vertices[1].pos;
        let c = self.vertices[2].pos;
        let abc = edge_function(a.x as i64, a.y as i64, b.x as i64, b.y as i64, c.x as i64, c.y as i64);
        abc < 0
    }
}

/// The three edge values against any point p sum to the triangle's own edge
/// value, and weight the vertex coordinates to reconstruct p: the integer
/// form of the barycentric identities.
pub proof fn lemma_edge_identities(
    ax: int,
    ay: int,
    bx: int,
    by: int,
    cx: int,
    cy: int,
    px: int,
    py: int,
)
    ensures
        edge(bx, by, cx, cy, px, py) + edge(cx, cy, ax, ay, px, py) + edge(ax, ay, bx, by, px, py)
            == edge(ax, ay, bx, by, cx, cy),
        edge(bx, by, cx, cy, px, py) * ax + edge(cx, cy, ax, ay, px, py) * bx + edge(
            ax,
            ay,
            bx,
            by,
            px,
            py,
        ) * cx == edge(ax, ay, bx, by, cx, cy) * px,
        edge(bx, by, cx, cy, px, py) * ay + edge(cx, cy, ax, ay, px, py) * by + edge(
            ax,
            ay,
            bx,
            by,
            px,
            py,
        ) * cy == edge(ax, ay, bx, by, cx, cy) * py,
{
    let ux = bx - ax;
    let uy = by - ay;
    let vx = cx - ax;
    let vy = cy - ay;
    let wx = px - ax;
    let wy = py - ay;
    let abc = edge(ax, ay, bx, by, cx, cy);
    let abp = edge(ax, ay, bx, by, px, py);
    let bcp = edge(bx, by, cx, cy, px, py);
    let cap = edge(cx, cy, ax, ay, px, py);
    // Each edge value in coordinates relative to vertex 0.
    assert(abc == ux * vy - uy * vx);
    assert(abp == ux * wy - uy * wx);
    assert(bcp == (vx - ux) * (wy - uy) - (vy - uy) * (wx - ux));
    assert(cap == (0 - vx) * (wy - vy) - (0 - vy) * (wx - vx));
    assert(cap == vy * wx - vx * wy) by (nonlinear_arith)
        requires
            cap == (0 - vx) * (wy - vy) - (0 - vy) * (wx - vx),
    ;
    // The three edge values against p sum to the whole triangle's value.
    assert(bcp + cap + abp == abc) by (nonlinear_arith)
        requires
            abc == ux * vy - uy * vx,
            abp == ux * wy - uy * wx,
            bcp == (vx - ux) * (wy - uy) - (vy - uy) * (wx - ux),
            cap == vy * wx - vx * wy,
    ;
    // The reconstruction identities, first in relative coordinates.
    assert((vy * wx - vx * wy) * ux + (ux * wy - uy * wx) * vx == (ux * vy - uy * vx) * wx)
        by (nonlinear_arith);
    assert((vy * wx - vx * wy) * uy + (ux * wy - uy * wx) * vy == (ux * vy - uy * vx) * wy)
        by (nonlinear_arith);
    // Then lifted back to absolute coordinates.
    assert(bcp * ax + cap * bx + abp * cx == abc * px) by (nonlinear_arith)
        requires
            bcp + cap + abp == abc,
            cap * ux + abp * vx == abc * wx,
            bx == ax + ux,
            cx == ax + vx,
            px == ax + wx,
    ;
    assert(bcp * ay + cap * by + abp * cy == abc * py) by (nonlinear_arith)
        requires
            bcp + cap + abp == abc,
            cap * uy + abp * vy == abc * wy,
            by == ay + uy,
            cy == ay + vy,
            py == ay + wy,
    ;
}

/// A nonpositively weighted combination with a negative total weight stays
/// between the least and greatest of the combined values: the cancellation
/// step behind the convexity argument.
proof fn lemma_weighted_between(w0: int, w1: int, w2: int, x0: int, x1: int, x2: int, p: int)
    requires
        w0 <= 0,
        w1 <= 0,
        w2 <= 0,
        w0 + w1 + w2 < 0,
        w0 * x0 + w1 * x1 + w2 * x2 == (w0 + w1 + w2) * p,
    ensures
        min3(x0, x1, x2) <= p <= max3(x0, x1, x2),
{
    let m = min3(x0, x1, x2);
    let mx = max3(x0, x1, x2);
    assert(m <= x0 && m <= x1 && m <= x2);
    assert(x0 <= mx && x1 <= mx && x2 <= mx);
    assert(m <= p) by (nonlinear_arith)
        requires
            w0 <= 0,
            w1 <= 0,
            w2 <= 0,
            w0 + w1 + w2 < 0,
            w0 * x0 + w1 * x1 + w2 * x2 == (w0 + w1 + w2) * p,
            m <= x0,
            m <= x1,
            m <= x2,
    ;
    assert(p <= mx) by (nonlinear_arith)
        requires
            w0 <= 0,
            w1 <= 0,
            w2 <= 0,
            w0 + w1 + w2 < 0,
            w0 * x0 + w1 * x1 + w2 * x2 == (w0 + w1 + w2) * p,
            x0 <= mx,
            x1 <= mx,
            x2 <= mx,
    ;
}

/// A covered point of a visible triangle lies within the triangle's
/// bounding box: coverage makes the point a convex combination of the three
/// vertices.
pub proof fn lemma_covered_in_aabb(t: Triangle, px: int, py: int)
    requires
        t.wf(),
        t.visible(),
        t.covered(px, py),
    ensures
        t.in_aabb(px, py),
{
    let ax = t.v(0).pos.x as int;
    let ay = t.v(0).pos.y as int;
    let bx = t.v(1).pos.x as int;
    let by = t.v(1).pos.y as int;
    let cx = t.v(2).pos.x as int;
    let cy = t.v(2).pos.y as int;
    lemma_edge_identities(ax, ay, bx, by, cx, cy, px, py);
    lemma_weighted_between(t.bcp(px, py), t.cap(px, py), t.abp(px, py), ax, bx, cx, px);
    lemma_weighted_between(t.bcp(px, py), t.cap(px, py), t.abp(px, py), ay, by, cy, py);
}

/// The interpolated intensity of one color channel at a covered point:
/// the edge values against p weight the three vertex intensities, and the
/// ratio is taken with truncation toward zero. Both operands of the
/// division are negated so it runs over nonnegative values.
pub open spec fn interp_val(bcp: int, cap: int, abp: int, abc: int, c0: int, c1: int, c2: int) -> int {
    (-(bcp * c0 + cap * c1 + abp * c2)) / (-abc)
}

/// At a covered point of a visible triangle the interpolated channel stays
/// within the channel range 0..=255.
pub proof fn lemma_interp_val_bounds(bcp: int, cap: int, abp: int, abc: int, c0: int, c1: int, c2: int)
    requires
        abc < 0,
        bcp <= 0,
        cap <= 0,
        abp <= 0,
        bcp + cap + abp == abc,
        0 <= c0 <= 255,
        0 <= c1 <= 255,
        0 <= c2 <= 255,
    ensures
        0 <= interp_val(bcp, cap, abp, abc, c0, c1, c2) <= 255,
{
    let num = -(bcp * c0 + cap * c1 + abp * c2);
    let den = -abc;
    assert(0 <= num <= 255 * den) by (nonlinear_arith)
        requires
            abc < 0,
            bcp <= 0,
            cap <= 0,
            abp <= 0,
            bcp + cap + abp == abc,
            0 <= c0 <= 255,
            0 <= c1 <= 255,
            0 <= c2 <= 255,
            num == -(bcp * c0 + cap * c1 + abp * c2),
            den == -abc,
    ;
    assert(0 <= num / den) by {
        vstd::arithmetic::div_mod::lemma_div_pos_is_pos(num, den);
    }
    assert(num / den <= 255) by {
        vstd::arithmetic::div_mod::lemma_div_is_ordered(num, 255 * den, den);
        vstd::arithmetic::div_mod::lemma_div_by_multiple(255, den);
    }
}

/// Computes `interp_val` exactly: the weighted channel sum divided by the
/// signed area, truncating toward zero, as an intensity in 0..=255.
pub fn interp_channel(bcp: i128, cap: i128, abp: i128, abc: i128, c0: u8, c1: u8, c2: u8) -> (r: u8)
    requires
        abc < 0,
        bcp <= 0,
        cap <= 0,
        abp <= 0,
        bcp + cap + abp == abc,
        -0x1_0000_0000_0000_0000_0000 <= bcp,
        -0x1_0000_0000_0000_0000_0000 <= cap,
        -0x1_0000_0000_0000_0000_0000 <= abp,
    ensures
        r as int == interp_val(bcp as int, cap as int, abp as int, abc as int, c0 as int, c1 as int, c2 as int),
{
    proof {
        lemma_mul_nonpos_channel(bcp as int, c0 as int, -0x1_0000_0000_0000_0000_0000);
        lemma_mul_nonpos_channel(cap as int, c1 as int, -0x1_0000_0000_0000_0000_0000);
        lemma_mul_nonpos_channel(abp as int, c2 as int, -0x1_0000_0000_0000_0000_0000);
        lemma_interp_val_bounds(
            bcp as int,
            cap as int,
            abp as int,
            abc as int,
            c0 as int,
            c1 as int,
            c2 as int,
        );
    }
    let num = -(bcp * (c0 as i128) + cap * (c1 as i128) + abp * (c2 as i128));
    let den = -abc;
    let q = (num as u128) / (den as u128);
    assert(q == interp_val(
        bcp as int,
        cap as int,
        abp as int,
        abc as int,
        c0 as int,
        c1 as int,
        c2 as int,
    ));
    q as u8
}

/// A product of a nonpositive factor bounded below and a channel intensity
/// in 0..=255 stays within [255 * lo, 0].
proof fn lemma_mul_nonpos_channel(a: int, c: int, lo: int)
    requires
        lo <= a <= 0,
        0 <= c <= 255,
    ensures
        255 * lo <= a * c <= 0,
{
    assert(255 * lo <= a * c <= 0) by (nonlinear_arith)
        requires
            lo <= a <= 0,
            0 <= c <= 255,
    ;
}

pub fn min3_i32(a: i32, b: i32, c: i32) -> (r: i32)
    ensures
        r as int == min3(a as int, b as int, c as int),
{
    if a <= b && a <= c {
        a
    } else if b <= c {
        b
    } else {
        c
    }
}

pub fn max3_i32(a: i32, b: i32, c: i32) -> (r: i32)
    ensures
        r as int == max3(a as int, b as int, c as int),
{
    if a >= b && a >= c {
        a
    } else if b >= c {
        b
    } else {
        c
    }
}

} // verus!
