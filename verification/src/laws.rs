//! The laws that tie the drawing routines together: a full fill is
//! deterministic down to the bytes (so the scalar and the 8-lane fill agree
//! exactly), no fill reaches outside the triangle's bounding box, and a
//! block-skipping fill can differ from the full fill only by leaving pixels
//! untouched.

use vstd::prelude::*;

use vstd::arithmetic::div_mod::lemma_div_denominator;
use vstd::arithmetic::div_mod::lemma_div_is_ordered;
use vstd::arithmetic::div_mod::lemma_div_pos_is_pos;
use vstd::arithmetic::div_mod::lemma_fundamental_div_mod;
use vstd::arithmetic::div_mod::lemma_fundamental_div_mod_converse_div;
use vstd::arithmetic::div_mod::lemma_mod_division_less_than_divisor;

use crate::canvas::GlaciersCanvas;
use crate::canvas::same_pixel;
use crate::fill::box_fill_result;
use crate::fill::fill_result;
use crate::geometry::Triangle;

verus! {

/// Every byte offset of a `w * h * 4` row-major RGBA8 buffer is channel `i`
/// of exactly one pixel (x, y) of the grid.
pub proof fn lemma_byte_index_decompose(w: int, h: int, k: int)
    requires
        w > 0,
        h > 0,
        0 <= k < w * h * 4,
    ensures
        ({
            let i = k % 4;
            let x = (k / 4) % w;
            let y = k / (4 * w);
            0 <= i < 4 && 0 <= x < w && 0 <= y < h && k == (y * w + x) * 4 + i
        }),
{
    let i = k % 4;
    let q = k / 4;
    let x = q % w;
    let y = k / (4 * w);
    lemma_fundamental_div_mod(k, 4);
    lemma_mod_division_less_than_divisor(k, 4);
    lemma_div_pos_is_pos(k, 4);
    assert(4 * (w * h) == w * h * 4) by (nonlinear_arith);
    assert(k < 4 * (w * h));
    assert(q < w * h) by {
        if q >= w * h {
            assert(4 * q >= 4 * (w * h)) by (nonlinear_arith)
                requires
                    q >= w * h,
            ;
        }
    }
    lemma_fundamental_div_mod(q, w);
    lemma_mod_division_less_than_divisor(q, w);
    lemma_div_pos_is_pos(q, w);
    // The row index is the same whether the two divisions happen in one
    // step or two.
    lemma_div_denominator(k, 4, w);
    assert(q / w == y);
    // The row index is within the grid.
    assert(y < h) by {
        assert(w * h - 1 == (h - 1) * w + (w - 1)) by (nonlinear_arith);
        lemma_fundamental_div_mod_converse_div(w * h - 1, w, h - 1, w - 1);
        lemma_div_is_ordered(q, w * h - 1, w);
    }
    assert(0 <= y);
    // Reassemble the offset.
    assert(k == 4 * q + i);
    assert(q == w * y + x);
    assert(k == (y * w + x) * 4 + i) by (nonlinear_arith)
        requires
            k == 4 * q + i,
            q == w * y + x,
    ;
}

/// A full fill is a function of the starting buffer and the triangle alone:
/// any two results that satisfy `fill_result` from one starting buffer are
/// byte-identical. `draw_triangle` and `draw_triangle_wide` both ensure
/// `fill_result`, so the scalar and the 8-lane fill produce byte-identical
/// buffers for every triangle — in particular for any whose box width is a
/// multiple of the lane count.
pub proof fn lemma_fill_deterministic(
    pre: GlaciersCanvas,
    c1: GlaciersCanvas,
    c2: GlaciersCanvas,
    t: Triangle,
)
    requires
        pre.wf(),
        fill_result(pre, c1, t),
        fill_result(pre, c2, t),
    ensures
        c1.bytes() == c2.bytes(),
{
    if !t.visible() {
        assert(c1.bytes() =~= c2.bytes());
    } else {
        let w = pre.spec_width();
        let h = pre.spec_height();
        assert(c1.bytes().len() == w * h * 4);
        assert(c2.bytes().len() == w * h * 4);
        if w == 0 || h == 0 {
            assert(w * h * 4 == 0) by (nonlinear_arith)
                requires
                    w == 0 || h == 0,
            ;
            assert(c1.bytes() =~= c2.bytes());
        } else {
            assert forall|k: int| 0 <= k < c1.bytes().len() implies c1.bytes()[k]
                == c2.bytes()[k] by {
                lemma_byte_index_decompose(w, h, k);
                let i = k % 4;
                let x = (k / 4) % w;
                let y = k / (4 * w);
                assert(pre.in_bounds(x, y));
                assert(c1.chan(x, y, i) == c1.bytes()[k]);
                assert(c2.chan(x, y, i) == c2.bytes()[k]);
                if t.in_aabb(x, y) && t.covered(x, y) {
                    assert(c1.chan(x, y, i) == t.shade_chan(x, y, i));
                    assert(c2.chan(x, y, i) == t.shade_chan(x, y, i));
                } else {
                    assert(same_pixel(pre, c1, x, y));
                    assert(same_pixel(pre, c2, x, y));
                }
            }
            assert(c1.bytes() =~= c2.bytes());
        }
    }
}

/// No fill writes outside the bounding box: at any pixel of the buffer that
/// lies outside `[aabb.min, aabb.max]`, a fill — full or block-skipping —
/// leaves the pixel exactly as it was.
pub proof fn lemma_fill_stays_in_aabb(
    pre: GlaciersCanvas,
    post: GlaciersCanvas,
    t: Triangle,
    x: int,
    y: int,
)
    requires
        box_fill_result(pre, post, t),
        pre.in_bounds(x, y),
        !t.in_aabb(x, y),
    ensures
        same_pixel(pre, post, x, y),
{
}

/// The block-skipping fills diverge from the full fill only by leaving
/// pixels untouched: every channel of every pixel of a block-skipping
/// result equals the full fill's value or the starting buffer's value.
pub proof fn lemma_box_fill_agrees_or_untouched(
    pre: GlaciersCanvas,
    boxed: GlaciersCanvas,
    full: GlaciersCanvas,
    t: Triangle,
    x: int,
    y: int,
    i: int,
)
    requires
        t.visible(),
        box_fill_result(pre, boxed, t),
        fill_result(pre, full, t),
        pre.in_bounds(x, y),
        0 <= i < 4,
    ensures
        boxed.chan(x, y, i) == full.chan(x, y, i) || boxed.chan(x, y, i) == pre.chan(x, y, i),
{
    if !same_pixel(pre, boxed, x, y) {
        assert(t.in_aabb(x, y) && t.covered(x, y));
    }
}

} // verus!
