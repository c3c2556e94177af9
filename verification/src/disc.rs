//! Filled circles.

use vstd::prelude::*;

use crate::bbox::BboxView;
use crate::canvas::{
    is_canvas, lemma_coords, repaint, Region, CANVAS_H, CANVAS_W,
};
use crate::color::Color;

verus! {

/// `(x, y)` is at most `r` away from the centre `c`.
pub open spec fn in_disc(c: (int, int), r: int, x: int, y: int) -> bool {
    r >= 0 && (x - c.0) * (x - c.0) + (y - c.1) * (y - c.1) <= r * r
}

/// The filled circle of radius `r` around `c`.
pub open spec fn disc(c: (int, int), r: int) -> Region {
    |x: int, y: int| in_disc(c, r, x, y)
}

proof fn lemma_square_monotone(a: int, b: int)
    requires
        0 <= a <= b,
    ensures
        a * a <= b * b,
{
    assert(a * a <= b * b) by (nonlinear_arith)
        requires
            0 <= a <= b,
    ;
}

/// A filled circle stays in the box of its centre, expanded by its radius.
pub proof fn lemma_disc_in_box(c: (int, int), r: int, x: int, y: int)
    requires
        in_disc(c, r, x, y),
    ensures
        BboxView::point(c.0, c.1).expand(r).contains(x, y),
{
    let u = x - c.0;
    let v = y - c.1;
    assert(u * u >= 0 && v * v >= 0) by (nonlinear_arith);
    assert(-r <= u <= r) by (nonlinear_arith)
        requires
            r >= 0,
            u * u <= r * r,
    ;
    assert(-r <= v <= r) by (nonlinear_arith)
        requires
            r >= 0,
            v * v <= r * r,
    ;
}

/// Row `y` of a filled circle is the pixels at most `w` away from its centre
/// line, if `w` is the largest offset that is still inside.
proof fn lemma_row(c: (int, int), r: int, y: int, w: int)
    requires
        r >= 0,
        w >= 0,
        w * w + (y - c.1) * (y - c.1) <= r * r < (w + 1) * (w + 1) + (y - c.1) * (y - c.1),
    ensures
        forall|x: int| #[trigger] in_disc(c, r, x, y) <==> c.0 - w <= x <= c.0 + w,
{
    assert forall|x: int| #[trigger] in_disc(c, r, x, y) <==> c.0 - w <= x <= c.0 + w by {
        let u = x - c.0;
        let m = if u < 0 {
            -u
        } else {
            u
        };
        assert(u * u == m * m) by (nonlinear_arith)
            requires
                m == u || m == -u,
        ;
        if m <= w {
            lemma_square_monotone(m, w);
        } else {
            lemma_square_monotone(w + 1, m);
        }
    }
}

/// Half the width of the row of a filled circle that lies `dy` below its
/// centre: the largest `w` for which `(w, dy)` is still inside.
fn half_width(r: i32, dy: i32) -> (w: i32)
    requires
        -r <= dy <= r,
    ensures
        0 <= w <= r,
        w * w + dy * dy <= r * r < (w + 1) * (w + 1) + dy * dy,
{
    proof {
        assert(0 <= r * r <= 0x7fff_ffff * 0x7fff_ffff) by (nonlinear_arith)
            requires
                0 <= r <= 0x7fff_ffff,
        ;
        assert(0 <= dy * dy <= r * r) by (nonlinear_arith)
            requires
                -r <= dy <= r,
        ;
    }
    let room: i64 = (r as i64) * (r as i64) - (dy as i64) * (dy as i64);
    let mut lo: i64 = 0;
    let mut hi: i64 = r as i64 + 1;
    assert(r * r < (r + 1) * (r + 1)) by (nonlinear_arith)
        requires
            r >= 0,
    ;
    while hi - lo > 1
        invariant
            0 <= lo < hi <= r + 1,
            room <= r * r,
            lo * lo <= room < hi * hi,
        decreases hi - lo,
    {
        let mid: i64 = lo + (hi - lo) / 2;
        assert(0 <= mid * mid <= 0x7fff_ffff * 0x7fff_ffff) by (nonlinear_arith)
            requires
                0 <= mid <= 0x7fff_ffff,
        ;
        if mid * mid <= room {
            lo = mid;
        } else {
            hi = mid;
        }
    }
    lo as i32
}

/// Set the pixels `lx..=rx` of row `y` to `color`.
fn fill_row(pixels: &mut Vec<Color>, y: usize, lx: usize, rx: usize, color: Color)
    requires
        is_canvas(old(pixels)@),
        y < CANVAS_H,
        lx <= rx < CANVAS_W,
    ensures
        final(pixels)@ == repaint(
            old(pixels)@,
            |u: int, v: int| v == y && lx <= u <= rx,
            color,
        ),
{
    let ghost before = pixels@;
    let row: usize = y * CANVAS_W;
    let mut x: usize = lx;
    while x <= rx
        invariant
            lx <= x <= rx + 1,
            rx < CANVAS_W,
            y < CANVAS_H,
            row == y * CANVAS_W,
            is_canvas(before),
            pixels@.len() == before.len(),
            forall|i: int|
                0 <= i < before.len() ==> #[trigger] pixels@[i] == if row + lx <= i < row + x {
                    color
                } else {
                    before[i]
                },
        decreases rx + 1 - x,
    {
        pixels.set(row + x, color);
        x = x + 1;
    }
    assert(pixels@ =~= repaint(before, |u: int, v: int| v == y && lx <= u <= rx, color));
}

/// Paint a filled circle of radius `r` centred at `(cx, cy)`.
/// Scanline form: one row at a time, no per-pixel test.
pub fn fill_disc(pixels: &mut Vec<Color>, cx: i32, cy: i32, r: i32, color: Color)
    requires
        is_canvas(old(pixels)@),
        r >= 0,
        BboxView::point(cx as int, cy as int).expand(r as int).in_range(),
    ensures
        final(pixels)@ == repaint(old(pixels)@, disc((cx as int, cy as int), r as int), color),
{
    let ghost before = pixels@;
    let ghost c = (cx as int, cy as int);
    let last: i64 = cy as i64 + r as i64;
    let mut y: i64 = cy as i64 - r as i64;
    proof {
        let start = repaint(before, |u: int, v: int| v < y && in_disc(c, r as int, u, v), color);
        assert forall|i: int| 0 <= i < before.len() implies before[i] == start[i] by {
            let u = i % (CANVAS_W as int);
            let v = i / (CANVAS_W as int);
            if in_disc(c, r as int, u, v) {
                lemma_disc_in_box(c, r as int, u, v);
            }
        }
        assert(before =~= start);
    }
    while y <= last
        invariant
            r >= 0,
            c == (cx as int, cy as int),
            cy - r <= y <= last + 1,
            last == cy + r,
            BboxView::point(cx as int, cy as int).expand(r as int).in_range(),
            is_canvas(before),
            pixels@ == repaint(
                before,
                |u: int, v: int| v < y && in_disc(c, r as int, u, v),
                color,
            ),
        decreases last + 1 - y,
    {
        let ghost done = pixels@;
        if 0 <= y && y < CANVAS_H as i64 {
            let dy: i32 = (y - cy as i64) as i32;
            let w: i32 = half_width(r, dy);
            let lx: i32 = if cx - w >= 0 { cx - w } else { 0 };
            let rx: i32 = if cx + w <= CANVAS_W as i32 - 1 { cx + w } else { CANVAS_W as i32 - 1 };
            proof {
                lemma_row(c, r as int, y as int, w as int);
            }
            if rx >= lx {
                fill_row(pixels, y as usize, lx as usize, rx as usize, color);
            }
        }
        proof {
            let next = repaint(
                before,
                |u: int, v: int| v < y + 1 && in_disc(c, r as int, u, v),
                color,
            );
            assert forall|i: int| 0 <= i < before.len() implies pixels@[i] == next[i] by {
                lemma_coords(i);
                let u = i % (CANVAS_W as int);
                let v = i / (CANVAS_W as int);
                assert(done[i] == if v < y && in_disc(c, r as int, u, v) { color } else { before[i] });
            }
            assert(pixels@ =~= next);
        }
        y = y + 1;
    }
    proof {
        let all = repaint(before, disc(c, r as int), color);
        assert forall|i: int| 0 <= i < before.len() implies pixels@[i] == all[i] by {
            let u = i % (CANVAS_W as int);
            let v = i / (CANVAS_W as int);
            if in_disc(c, r as int, u, v) {
                lemma_disc_in_box(c, r as int, u, v);
            }
        }
        assert(pixels@ =~= all);
    }
}

} // verus!
