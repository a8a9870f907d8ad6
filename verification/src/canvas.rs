//! The pixel buffer: an owned RGBA8 byte buffer of `width * height` pixels,
//! with the bounds-checked single-pixel write every drawing routine funnels
//! through, the whole-buffer clear, and the Bresenham line primitive.

use vstd::prelude::*;

verus! {

/// An owned pixel buffer, `width * height` pixels, 4 bytes (RGBA) per pixel,
/// row-major. Out-of-range writes are dropped, never an error: triangles
/// straddling the buffer edge are expected and their excess pixels are
/// silently truncated.
pub struct GlaciersCanvas {
    data: Vec<u8>,
    width: u32,
    height: u32,
}

/// How many bytes one pixel occupies in the buffer.
pub const BYTES_PER_PIXEL: usize = 4;

impl GlaciersCanvas {
    /// The raw buffer contents, row-major, 4 bytes per pixel.
    pub closed spec fn bytes(self) -> Seq<u8> {
        self.data@
    }

    pub closed spec fn spec_width(self) -> int {
        self.width as int
    }

    pub closed spec fn spec_height(self) -> int {
        self.height as int
    }

    /// The buffer holds exactly 4 bytes for every pixel of the
    /// `width * height` grid.
    pub open spec fn wf(self) -> bool {
        &&& 0 <= self.spec_width()
        &&& 0 <= self.spec_height()
        &&& self.bytes().len() == self.spec_width() * self.spec_height() * 4
    }

    /// (x, y) addresses a pixel of the buffer.
    pub open spec fn in_bounds(self, x: int, y: int) -> bool {
        0 <= x < self.spec_width() && 0 <= y < self.spec_height()
    }

    /// The byte offset of channel i of pixel (x, y).
    pub open spec fn offset(self, x: int, y: int, i: int) -> int {
        (y * self.spec_width() + x) * 4 + i
    }

    /// Channel i (0 = red, 1 = green, 2 = blue, 3 = alpha) of pixel (x, y).
    pub open spec fn chan(self, x: int, y: int, i: int) -> u8 {
        self.bytes()[self.offset(x, y, i)]
    }

    /// Pixel (x, y) holds exactly the color c.
    pub open spec fn pixel_is(self, x: int, y: int, c: [u8; 4]) -> bool {
        forall|i: int| 0 <= i < 4 ==> self.chan(x, y, i) == c[i]
    }
}

/// The two canvases have the same dimensions.
pub open spec fn dims_same(a: GlaciersCanvas, b: GlaciersCanvas) -> bool {
    a.spec_width() == b.spec_width() && a.spec_height() == b.spec_height()
}

/// Pixel (x, y) holds the same bytes in both canvases.
pub open spec fn same_pixel(a: GlaciersCanvas, b: GlaciersCanvas, x: int, y: int) -> bool {
    forall|i: int| 0 <= i < 4 ==> a.chan(x, y, i) == b.chan(x, y, i)
}

/// Every pixel of the grid other than (x, y) holds the same bytes in both
/// canvases.
pub open spec fn same_but_at(a: GlaciersCanvas, b: GlaciersCanvas, x: int, y: int) -> bool {
    forall|x2: int, y2: int|
        a.in_bounds(x2, y2) && !(x2 == x && y2 == y) ==> same_pixel(a, b, x2, y2)
}

/// A pixel's byte offsets lie inside a well-formed buffer.
pub proof fn lemma_offset_in_range(w: int, h: int, x: int, y: int, i: int)
    requires
        0 <= x < w,
        0 <= y < h,
        0 <= i < 4,
    ensures
        0 <= (y * w + x) * 4 + i < w * h * 4,
{
    assert(0 <= (y * w + x) * 4 + i < w * h * 4) by (nonlinear_arith)
        requires
            0 <= x < w,
            0 <= y < h,
            0 <= i < 4,
    ;
}

/// Distinct pixels of one row-major grid occupy disjoint byte ranges.
pub proof fn lemma_offset_injective(
    w: int,
    x1: int,
    y1: int,
    i1: int,
    x2: int,
    y2: int,
    i2: int,
)
    requires
        0 <= x1 < w,
        0 <= y1,
        0 <= x2 < w,
        0 <= y2,
        0 <= i1 < 4,
        0 <= i2 < 4,
        !(x1 == x2 && y1 == y2),
    ensures
        (y1 * w + x1) * 4 + i1 != (y2 * w + x2) * 4 + i2,
{
    assert((y1 * w + x1) * 4 + i1 != (y2 * w + x2) * 4 + i2) by (nonlinear_arith)
        requires
            0 <= x1 < w,
            0 <= y1,
            0 <= x2 < w,
            0 <= y2,
            0 <= i1 < 4,
            0 <= i2 < 4,
            !(x1 == x2 && y1 == y2),
    ;
}

impl GlaciersCanvas {
    /// Allocates a buffer of the given dimensions with every byte zero.
    pub fn new(width: u32, height: u32) -> (c: GlaciersCanvas)
        requires
            width as int * height as int * 4 <= usize::MAX as int,
        ensures
            c.wf(),
            c.spec_width() == width as int,
            c.spec_height() == height as int,
            forall|k: int| 0 <= k < c.bytes().len() ==> c.bytes()[k] == 0,
    {
        let n: usize = (width as usize) * (height as usize) * BYTES_PER_PIXEL;
        let mut data: Vec<u8> = Vec::new();
        while data.len() < n
            invariant
                data@.len() <= n,
                forall|k: int| 0 <= k < data@.len() ==> data@[k] == 0,
            decreases n - data@.len(),
        {
            data.push(0);
        }
        GlaciersCanvas { data, width, height }
    }

    /// Current buffer dimensions in pixels, width then height.
    pub fn size(&self) -> (r: (u32, u32))
        ensures
            r.0 as int == self.spec_width(),
            r.1 as int == self.spec_height(),
    {
        (self.width, self.height)
    }

    /// Reads one pixel's 4 channel bytes, or `None` outside the buffer.
    pub fn get_pixel(&self, pos: (u32, u32)) -> (r: Option<[u8; 4]>)
        requires
            self.wf(),
        ensures
            (match r {
                Some(c) => self.in_bounds(pos.0 as int, pos.1 as int) && self.pixel_is(
                    pos.0 as int,
                    pos.1 as int,
                    c,
                ),
                None => !self.in_bounds(pos.0 as int, pos.1 as int),
            }),
    {
        if pos.0 < self.width && pos.1 < self.height {
            proof {
                lemma_offset_in_range(
                    self.spec_width(),
                    self.spec_height(),
                    pos.0 as int,
                    pos.1 as int,
                    3,
                );
                lemma_offset_in_range(
                    self.spec_width(),
                    self.spec_height(),
                    pos.0 as int,
                    pos.1 as int,
                    0,
                );
            }
            let n = self.data.len();
            let off: usize = ((pos.1 as usize) * (self.width as usize) + (pos.0 as usize)) * 4;
            assert(off + 3 < n);
            let c = [self.data[off], self.data[off + 1], self.data[off + 2], self.data[off + 3]];
            assert(c[0] == self.chan(pos.0 as int, pos.1 as int, 0));
            assert(c[1] == self.chan(pos.0 as int, pos.1 as int, 1));
            assert(c[2] == self.chan(pos.0 as int, pos.1 as int, 2));
            assert(c[3] == self.chan(pos.0 as int, pos.1 as int, 3));
            Some(c)
        } else {
            None
        }
    }

    /// Zeroes every byte of every pixel, visiting each
    /// `BYTES_PER_PIXEL`-sized chunk of the buffer: the whole-frame reset
    /// run before any draw call.
    pub fn clear(&mut self)
        requires
            old(self).wf(),
        ensures
            final(self).wf(),
            dims_same(*old(self), *final(self)),
            forall|k: int| 0 <= k < final(self).bytes().len() ==> final(self).bytes()[k] == 0,
            forall|x: int, y: int, i: int|
                final(self).in_bounds(x, y) && 0 <= i < 4 ==> final(self).chan(x, y, i) == 0,
    {
        let n = self.data.len();
        let mut k: usize = 0;
        while k < n
            invariant
                self.data@.len() == n,
                k <= n,
                self.width == old(self).width,
                self.height == old(self).height,
                forall|j: int| 0 <= j < k ==> self.data@[j] == 0,
            decreases n - k,
        {
            self.data[k] = 0;
            k = k + 1;
        }
        proof {
            assert forall|x: int, y: int, i: int|
                self.in_bounds(x, y) && 0 <= i < 4 implies self.chan(x, y, i) == 0 by {
                lemma_offset_in_range(self.spec_width(), self.spec_height(), x, y, i);
            }
        }
    }

    /// Writes the 4 channel bytes of one in-range pixel, leaving every other
    /// pixel untouched.
    fn store_pixel(&mut self, x: u32, y: u32, color: [u8; 4])
        requires
            old(self).wf(),
            old(self).in_bounds(x as int, y as int),
        ensures
            final(self).wf(),
            dims_same(*old(self), *final(self)),
            final(self).pixel_is(x as int, y as int, color),
            same_but_at(*old(self), *final(self), x as int, y as int),
    {
        let ghost w = self.spec_width();
        let ghost h = self.spec_height();
        proof {
            lemma_offset_in_range(w, h, x as int, y as int, 0);
            lemma_offset_in_range(w, h, x as int, y as int, 3);
        }
        let n = self.data.len();
        let off: usize = ((y as usize) * (self.width as usize) + (x as usize)) * 4;
        assert(off + 3 < n);
        self.data[off] = color[0];
        self.data[off + 1] = color[1];
        self.data[off + 2] = color[2];
        self.data[off + 3] = color[3];
        proof {
            assert forall|x2: int, y2: int|
                old(self).in_bounds(x2, y2) && !(x2 == x as int && y2 == y as int) implies same_pixel(
                *old(self),
                *self,
                x2,
                y2,
            ) by {
                assert forall|i: int| 0 <= i < 4 implies old(self).chan(x2, y2, i) == self.chan(
                    x2,
                    y2,
                    i,
                ) by {
                    lemma_offset_in_range(w, h, x2, y2, i);
                    lemma_offset_injective(w, x2, y2, i, x as int, y as int, 0);
                    lemma_offset_injective(w, x2, y2, i, x as int, y as int, 1);
                    lemma_offset_injective(w, x2, y2, i, x as int, y as int, 2);
                    lemma_offset_injective(w, x2, y2, i, x as int, y as int, 3);
                }
            }
        }
    }

    /// Writes one pixel if `pos` is within the buffer, and silently does
    /// nothing otherwise. The mandatory bounds check: a partially
    /// out-of-canvas triangle must never write out of range.
    pub fn draw_point(&mut self, pos: (u32, u32), color: [u8; 4])
        requires
            old(self).wf(),
        ensures
            final(self).wf(),
            dims_same(*old(self), *final(self)),
            old(self).in_bounds(pos.0 as int, pos.1 as int) ==> final(self).pixel_is(
                pos.0 as int,
                pos.1 as int,
                color,
            ) && same_but_at(*old(self), *final(self), pos.0 as int, pos.1 as int),
            !old(self).in_bounds(pos.0 as int, pos.1 as int) ==> final(self).bytes() == old(
                self,
            ).bytes(),
    {
        if pos.0 < self.width && pos.1 < self.height {
            self.store_pixel(pos.0, pos.1, color);
        }
    }

    /// The clipped point write the fill loops use: signed coordinates, with
    /// anything outside the buffer dropped.
    pub(crate) fn draw_point_clipped(&mut self, x: i64, y: i64, color: [u8; 4])
        requires
            old(self).wf(),
        ensures
            final(self).wf(),
            dims_same(*old(self), *final(self)),
            old(self).in_bounds(x as int, y as int) ==> final(self).pixel_is(
                x as int,
                y as int,
                color,
            ) && same_but_at(*old(self), *final(self), x as int, y as int),
            !old(self).in_bounds(x as int, y as int) ==> final(self).bytes() == old(self).bytes(),
    {
        if 0 <= x && x < self.width as i64 && 0 <= y && y < self.height as i64 {
            self.store_pixel(x as u32, y as u32, color);
        }
    }
}

} // verus!
