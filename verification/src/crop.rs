//! Cropping: scaling a selected part of the canvas up to the whole canvas.

use vstd::prelude::*;

use crate::bbox::{max, min};
use crate::canvas::{is_canvas, lemma_index, pixel, CANVAS_H, CANVAS_W};
use crate::color::Color;

verus! {

/// The first pixel of a selection between `p` and `q` along one axis.
pub open spec fn select_from(p: int, q: int) -> int {
    max(min(p, q), 0)
}

/// The last pixel of a selection between `p` and `q` along an axis of `size`
/// pixels.
pub open spec fn select_to(p: int, q: int, size: int) -> int {
    min(max(p, q), size - 1)
}

/// How far the selection reaches along an axis: 0 if it misses the canvas.
pub open spec fn select_span(p: int, q: int, size: int) -> int {
    max(select_to(p, q, size) - select_from(p, q), 0)
}

/// The selection between the two corners is large enough to be scaled up.
pub open spec fn croppable(a: (int, int), b: (int, int)) -> bool {
    select_span(a.0, b.0, CANVAS_W as int) >= 2 && select_span(a.1, b.1, CANVAS_H as int) >= 2
}

/// The column of the source that column `x` of the scaled image shows.
pub open spec fn source_x(a: (int, int), b: (int, int), x: int) -> int {
    select_from(a.0, b.0) + x * select_span(a.0, b.0, CANVAS_W as int) / (CANVAS_W as int)
}

/// The row of the source that row `y` of the scaled image shows.
pub open spec fn source_y(a: (int, int), b: (int, int), y: int) -> int {
    select_from(a.1, b.1) + y * select_span(a.1, b.1, CANVAS_H as int) / (CANVAS_H as int)
}

/// Nearest-neighbour scale of the region between two corners to the full canvas.
pub open spec fn cropped(pixels: Seq<Color>, a: (int, int), b: (int, int)) -> Seq<Color> {
    Seq::new(
        (CANVAS_W * CANVAS_H) as nat,
        |i: int|
            pixel(
                pixels,
                source_x(a, b, i % (CANVAS_W as int)),
                source_y(a, b, i / (CANVAS_W as int)),
            ),
    )
}

/// A scaled position stays below its span.
proof fn lemma_scale(t: int, span: int, size: int)
    requires
        0 <= t < size,
        0 <= span,
    ensures
        0 <= t * span <= size * span,
        0 <= t * span / size <= span,
        span > 0 ==> t * span / size < span,
{
    assert(0 <= t * span <= size * span) by (nonlinear_arith)
        requires
            0 <= t < size,
            0 <= span,
    ;
    assert(0 <= t * span / size <= span) by (nonlinear_arith)
        requires
            0 < size,
            0 <= t * span <= size * span,
    ;
    if span > 0 {
        assert(t * span < size * span) by (nonlinear_arith)
            requires
                t < size,
                0 < span,
        ;
        assert(t * span / size < span) by (nonlinear_arith)
            requires
                0 < size,
                t * span < size * span,
        ;
    }
}

/// Every pixel of a crop shows a pixel of the selection, which lies on the
/// canvas; the top left pixel shows the top left of the selection.
pub proof fn lemma_source_in_selection(a: (int, int), b: (int, int), x: int, y: int)
    requires
        croppable(a, b),
        0 <= x < CANVAS_W,
        0 <= y < CANVAS_H,
    ensures
        0 <= select_from(a.0, b.0) <= source_x(a, b, x) < select_to(a.0, b.0, CANVAS_W as int) < CANVAS_W,
        0 <= select_from(a.1, b.1) <= source_y(a, b, y) < select_to(a.1, b.1, CANVAS_H as int) < CANVAS_H,
        source_x(a, b, 0) == select_from(a.0, b.0),
        source_y(a, b, 0) == select_from(a.1, b.1),
{
    lemma_scale(x, select_span(a.0, b.0, CANVAS_W as int), CANVAS_W as int);
    lemma_scale(y, select_span(a.1, b.1, CANVAS_H as int), CANVAS_H as int);
    assert(0 * select_span(a.0, b.0, CANVAS_W as int) == 0);
    assert(0 * select_span(a.1, b.1, CANVAS_H as int) == 0);
}

/// The first pixel of a selection along one axis, and how far it reaches.
fn select(p: i32, q: i32, size: usize) -> (res: (usize, usize))
    requires
        1 <= size <= 0x7fff_ffff,
    ensures
        res.0 == select_from(p as int, q as int),
        res.1 == select_span(p as int, q as int, size as int),
{
    let low: i32 = if p <= q { p } else { q };
    let high: i32 = if p >= q { p } else { q };
    let from: usize = if low >= 0 { low as usize } else { 0 };
    let to: usize = if high < 0 {
        0
    } else if high as usize > size - 1 {
        size - 1
    } else {
        high as usize
    };
    (from, if to > from { to - from } else { 0 })
}

/// Nearest-neighbour scale of the region between two corners to the full
/// canvas, or `None` if the region is too small for that.
pub fn crop(src: &Vec<Color>, a: (i32, i32), b: (i32, i32)) -> (res: Option<Vec<Color>>)
    requires
        is_canvas(src@),
    ensures
        res is Some <==> croppable((a.0 as int, a.1 as int), (b.0 as int, b.1 as int)),
        res matches Some(dst) ==> dst@ == cropped(
            src@,
            (a.0 as int, a.1 as int),
            (b.0 as int, b.1 as int),
        ),
{
    let (lx, sw): (usize, usize) = select(a.0, b.0, CANVAS_W);
    let (ty, sh): (usize, usize) = select(a.1, b.1, CANVAS_H);
    if sw < 2 || sh < 2 {
        return None;
    }
    let ghost p = (a.0 as int, a.1 as int);
    let ghost q = (b.0 as int, b.1 as int);
    let mut dst: Vec<Color> = Vec::with_capacity(CANVAS_W * CANVAS_H);
    let mut dy: usize = 0;
    while dy < CANVAS_H
        invariant
            dy <= CANVAS_H,
            is_canvas(src@),
            croppable(p, q),
            lx == select_from(p.0, q.0),
            ty == select_from(p.1, q.1),
            sw == select_span(p.0, q.0, CANVAS_W as int),
            sh == select_span(p.1, q.1, CANVAS_H as int),
            dst@.len() == dy * CANVAS_W,
            forall|i: int| 0 <= i < dst@.len() ==> dst@[i] == cropped(src@, p, q)[i],
        decreases CANVAS_H - dy,
    {
        proof {
            lemma_scale(dy as int, sh as int, CANVAS_H as int);
            lemma_source_in_selection(p, q, 0, dy as int);
        }
        let sy: usize = ty + dy * sh / CANVAS_H;
        let src_row: usize = sy * CANVAS_W;
        let mut dx: usize = 0;
        while dx < CANVAS_W
            invariant
                dx <= CANVAS_W,
                dy < CANVAS_H,
                is_canvas(src@),
                croppable(p, q),
                lx == select_from(p.0, q.0),
                sw == select_span(p.0, q.0, CANVAS_W as int),
                sy == source_y(p, q, dy as int),
                sy < CANVAS_H,
                src_row == sy * CANVAS_W,
                dst@.len() == dy * CANVAS_W + dx,
                forall|i: int| 0 <= i < dst@.len() ==> dst@[i] == cropped(src@, p, q)[i],
            decreases CANVAS_W - dx,
        {
            proof {
                lemma_scale(dx as int, sw as int, CANVAS_W as int);
                lemma_source_in_selection(p, q, dx as int, dy as int);
                lemma_index(dx as int, dy as int);
            }
            let sx: usize = lx + dx * sw / CANVAS_W;
            dst.push(src[src_row + sx]);
            dx = dx + 1;
        }
        dy = dy + 1;
    }
    assert(dst@ =~= cropped(src@, p, q));
    Some(dst)
}

} // verus!
