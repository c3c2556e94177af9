//! What the words that the contracts use mean, told apart from how they are
//! defined: by coordinates, colours and plain arithmetic.

use vstd::prelude::*;

use crate::bbox::{is_i32, BboxView};
use crate::canvas::{
    blank, in_canvas, is_canvas, lemma_index, lemma_repaint_pixel, pixel,
};
use crate::color::Color;
use crate::crop::{
    croppable, cropped, lemma_source_in_selection, select_from, select_span, source_x, source_y,
};
use crate::disc::in_disc;
use crate::fill::{
    adjacent, change_box, changed, connected, fillable, flooded, is_change_box, is_path,
    lemma_change_box_exists, lemma_connected_color, lemma_connected_self, lemma_connected_step,
};
use crate::input::{is_ellipse_frame, EllipseFrame};
use crate::line::{
    abs, heading, lemma_heading, lemma_line, lemma_progress, lemma_progress_ends, line_point,
    progress, steps,
};
use crate::paint::{widen, widen_all};
use crate::patch::{
    full_snapshot, lemma_patch_of, lemma_restore_full, restore, snapshot, PatchView,
};
use crate::state::{
    brush_fits, brush_fits_all, corners, hull, near_line, near_outline, next_point, pushed,
    PaintView,
};
use crate::stroke::lemma_hull_contains;

verus! {

// The canvas.

/// The canvas is 1200 pixels wide and 800 high, and its rows follow each other
/// from the top.
pub proof fn law_layout(pixels: Seq<Color>, x: int, y: int)
    ensures
        in_canvas(x, y) <==> 0 <= x < 1200 && 0 <= y < 800,
        is_canvas(pixels) <==> pixels.len() == 1200 * 800,
        pixel(pixels, x, y) == pixels[y * 1200 + x],
{
}

/// A blank canvas has the one colour everywhere.
pub proof fn law_blank(c: Color, x: int, y: int)
    requires
        in_canvas(x, y),
    ensures
        is_canvas(blank(c)),
        pixel(blank(c), x, y) == c,
{
    lemma_index(x, y);
}

// Boxes.

/// A box holds the positions between its edges, and the edges.
pub proof fn law_box_contains(b: BboxView, x: int, y: int)
    ensures
        b.contains(x, y) <==> b.lx <= x && x <= b.rx && b.ty <= y && y <= b.by,
        b.nonempty() <==> b.lx <= b.rx && b.ty <= b.by,
        b.in_range() <==> -0x8000_0000 <= b.lx <= 0x7fff_ffff && -0x8000_0000 <= b.ty <= 0x7fff_ffff
            && -0x8000_0000 <= b.rx <= 0x7fff_ffff && -0x8000_0000 <= b.by <= 0x7fff_ffff,
{
}

/// The box of a point holds that point only, the box of two points is the
/// smallest that holds both, and expanding moves all four edges by as much.
pub proof fn law_box_edges(p: (int, int), q: (int, int), b: BboxView, r: int)
    ensures
        BboxView::point(p.0, p.1) == (BboxView { lx: p.0, ty: p.1, rx: p.0, by: p.1 }),
        ({
            let t = BboxView::from_two(p, q);
            &&& t.contains(p.0, p.1) && t.contains(q.0, q.1)
            &&& t.lx == p.0 || t.lx == q.0
            &&& t.rx == p.0 || t.rx == q.0
            &&& t.ty == p.1 || t.ty == q.1
            &&& t.by == p.1 || t.by == q.1
        }),
        b.expand(r) == (BboxView { lx: b.lx - r, ty: b.ty - r, rx: b.rx + r, by: b.by + r }),
{
}

/// Each edge of a union is the outer one of the two.
pub proof fn law_union_edges(a: BboxView, b: BboxView)
    ensures
        ({
            let u = a.union(b);
            &&& u.lx <= a.lx && u.lx <= b.lx && (u.lx == a.lx || u.lx == b.lx)
            &&& u.ty <= a.ty && u.ty <= b.ty && (u.ty == a.ty || u.ty == b.ty)
            &&& u.rx >= a.rx && u.rx >= b.rx && (u.rx == a.rx || u.rx == b.rx)
            &&& u.by >= a.by && u.by >= b.by && (u.by == a.by || u.by == b.by)
        }),
{
}

/// The hull of some points holds each of them, and each of its edges touches
/// one.
pub proof fn law_hull_tight(points: Seq<(int, int)>, i: int)
    requires
        0 <= i < points.len(),
    ensures
        hull(points).lx <= points[i].0 <= hull(points).rx,
        hull(points).ty <= points[i].1 <= hull(points).by,
        exists|j: int| 0 <= j < points.len() && (#[trigger] points[j]).0 == hull(points).lx,
        exists|j: int| 0 <= j < points.len() && (#[trigger] points[j]).0 == hull(points).rx,
        exists|j: int| 0 <= j < points.len() && (#[trigger] points[j]).1 == hull(points).ty,
        exists|j: int| 0 <= j < points.len() && (#[trigger] points[j]).1 == hull(points).by,
    decreases points.len(),
{
    lemma_hull_contains(points, i);
    let n = points.len() - 1;
    if points.len() <= 1 {
        assert(points[0].0 == hull(points).lx && points[0].1 == hull(points).by);
    } else {
        let init = points.drop_last();
        law_hull_tight(init, 0);
        let h = hull(init);
        let j1 = choose|j: int| 0 <= j < init.len() && (#[trigger] init[j]).0 == h.lx;
        let j2 = choose|j: int| 0 <= j < init.len() && (#[trigger] init[j]).0 == h.rx;
        let j3 = choose|j: int| 0 <= j < init.len() && (#[trigger] init[j]).1 == h.ty;
        let j4 = choose|j: int| 0 <= j < init.len() && (#[trigger] init[j]).1 == h.by;
        assert(points[j1] == init[j1] && points[j2] == init[j2]);
        assert(points[j3] == init[j3] && points[j4] == init[j4]);
        assert(points.last() == points[n]);
    }
}

// Lines.

/// `u` is the integer nearest to `from + (to - from) * k / n`; of two that are
/// equally near, the one closer to `from`.
pub open spec fn nearest(from: int, to: int, k: int, n: int, u: int) -> bool {
    if n == 0 {
        u == from
    } else if from <= to {
        2 * n * (u - from) - n < 2 * (to - from) * k <= 2 * n * (u - from) + n
    } else {
        2 * n * (from - u) - n < 2 * (from - to) * k <= 2 * n * (from - u) + n
    }
}

/// `(u, v)` is the pixel nearest to the point that lies `k` of `n` equal steps
/// along the straight line from `a` to `b`, where `n` is the longer of the two
/// distances between them along an axis.
pub open spec fn on_line(a: (int, int), b: (int, int), k: int, u: int, v: int) -> bool {
    let w = if a.0 <= b.0 {
        b.0 - a.0
    } else {
        a.0 - b.0
    };
    let h = if a.1 <= b.1 {
        b.1 - a.1
    } else {
        a.1 - b.1
    };
    let n = if w >= h {
        w
    } else {
        h
    };
    0 <= k <= n && nearest(a.0, b.0, k, n, u) && nearest(a.1, b.1, k, n, v)
}

proof fn lemma_nearest(from: int, to: int, k: int, n: int, u: int)
    requires
        n >= 0,
        abs(to - from) <= n,
    ensures
        nearest(from, to, k, n, u) <==> u == from + heading(from, to) * progress(
            abs(to - from),
            k,
            n,
        ),
{
    let d = abs(to - from);
    let q = progress(d, k, n);
    lemma_heading(from, to, q);
    if n > 0 {
        if from <= to {
            lemma_progress(d, k, n, u - from);
        } else {
            lemma_progress(d, k, n, from - u);
        }
        if from == to {
            lemma_progress(d, k, n, 0);
            assert(2 * d * k == 0) by (nonlinear_arith)
                requires
                    d == 0,
            ;
            assert(2 * n * 0 == 0) by (nonlinear_arith);
            assert(q == 0);
        }
    }
}

proof fn lemma_on_line(a: (int, int), b: (int, int), k: int, u: int, v: int)
    ensures
        on_line(a, b, k, u, v) <==> 0 <= k <= steps(a, b) && line_point(a, b, k) == (u, v),
{
    let n = steps(a, b);
    lemma_nearest(a.0, b.0, k, n, u);
    lemma_nearest(a.1, b.1, k, n, v);
}

/// A position is near a line if it is at most `r` away, by Pythagoras, from
/// one of the pixels nearest to the straight line.
pub proof fn law_near_line(a: (int, int), b: (int, int), r: int, x: int, y: int)
    ensures
        near_line(a, b, r, x, y) <==> r >= 0 && exists|k: int, u: int, v: int|
            #[trigger] on_line(a, b, k, u, v) && (x - u) * (x - u) + (y - v) * (y - v) <= r * r,
{
    if near_line(a, b, r, x, y) {
        let k = choose|k: int|
            0 <= k <= steps(a, b) && in_disc(#[trigger] line_point(a, b, k), r, x, y);
        let p = line_point(a, b, k);
        lemma_on_line(a, b, k, p.0, p.1);
        assert(on_line(a, b, k, p.0, p.1));
    }
    if r >= 0 && exists|k: int, u: int, v: int|
        #[trigger] on_line(a, b, k, u, v) && (x - u) * (x - u) + (y - v) * (y - v) <= r * r {
        let (k, u, v) = choose|k: int, u: int, v: int|
            #[trigger] on_line(a, b, k, u, v) && (x - u) * (x - u) + (y - v) * (y - v) <= r * r;
        lemma_on_line(a, b, k, u, v);
        assert(in_disc(line_point(a, b, k), r, x, y));
    }
}

/// A position is near a closed outline if it is near one of its edges, each of
/// which leads to the next point and the last back to the first.
pub proof fn law_near_outline(points: Seq<(int, int)>, r: int, x: int, y: int)
    ensures
        near_outline(points, points.len() as int, r, x, y) <==> exists|i: int|
            0 <= i < points.len() && near_line(
                #[trigger] points[i],
                points[(i + 1) % (points.len() as int)],
                r,
                x,
                y,
            ),
{
    let n = points.len() as int;
    assert forall|i: int| 0 <= i < n implies next_point(points, i) == #[trigger] points[(i + 1)
        % n] by {
        if i + 1 < n {
            assert((i + 1) % n == i + 1) by (nonlinear_arith)
                requires
                    0 <= i + 1 < n,
            ;
        } else {
            assert(n % n == 0) by (nonlinear_arith)
                requires
                    n > 0,
            ;
        }
    }
    if near_outline(points, n, r, x, y) {
        let i = choose|i: int|
            0 <= i < n && i < points.len() && near_line(
                #[trigger] points[i],
                next_point(points, i),
                r,
                x,
                y,
            );
        assert(near_line(points[i], points[(i + 1) % n], r, x, y));
    }
    if exists|i: int|
        0 <= i < n && near_line(#[trigger] points[i], points[(i + 1) % n], r, x, y) {
        let i = choose|i: int|
            0 <= i < n && near_line(#[trigger] points[i], points[(i + 1) % n], r, x, y);
        assert(near_line(points[i], next_point(points, i), r, x, y));
    }
}

/// `(u, v)` lies on one of the four sides of the rectangle with the opposite
/// corners `a` and `b`.
pub open spec fn on_sides(a: (int, int), b: (int, int), u: int, v: int) -> bool {
    &&& a.0 <= u <= b.0 || b.0 <= u <= a.0
    &&& a.1 <= v <= b.1 || b.1 <= v <= a.1
    &&& u == a.0 || u == b.0 || v == a.1 || v == b.1
}

/// `(x, y)` is at most `r` away from a pixel on one of the four sides of the
/// rectangle with the opposite corners `a` and `b`.
pub open spec fn near_sides(a: (int, int), b: (int, int), r: int, x: int, y: int) -> bool {
    r >= 0 && exists|u: int, v: int|
        #[trigger] on_sides(a, b, u, v) && (x - u) * (x - u) + (y - v) * (y - v) <= r * r
}

/// A line along a row or a column goes through every pixel between its ends.
proof fn lemma_straight(a: (int, int), b: (int, int), u: int, v: int)
    requires
        a.0 == b.0 || a.1 == b.1,
        BboxView::from_two(a, b).contains(u, v),
    ensures
        exists|k: int| 0 <= k <= steps(a, b) && #[trigger] line_point(a, b, k) == (u, v),
{
    let n = steps(a, b);
    let k = abs(u - a.0) + abs(v - a.1);
    lemma_line(a, b);
    lemma_progress_ends(abs(b.0 - a.0), n);
    lemma_progress_ends(abs(b.1 - a.1), n);
    if n == 0 {
        assert(line_point(a, b, 0) == (u, v));
    } else {
        assert(progress(n, k, n) == k);
        lemma_progress(0, k, n, 0);
        assert(2 * 0 * k == 0 && 2 * n * 0 == 0) by (nonlinear_arith);
        assert(progress(0, k, n) == 0);
        lemma_heading(a.0, b.0, k);
        lemma_heading(a.1, b.1, k);
        lemma_heading(a.0, b.0, 0);
        lemma_heading(a.1, b.1, 0);
        assert(line_point(a, b, k) == (u, v));
    }
}

/// Every edge between two neighbouring corners is a side.
proof fn lemma_edge_on_sides(a: (int, int), b: (int, int), i: int, u: int, v: int)
    requires
        0 <= i < 4,
        BboxView::from_two(corners(a, b)[i], next_point(corners(a, b), i)).contains(u, v),
    ensures
        on_sides(a, b, u, v),
{
}

/// Every pixel on a side lies on an edge between two neighbouring corners.
proof fn lemma_side_on_edge(a: (int, int), b: (int, int), u: int, v: int) -> (i: int)
    requires
        on_sides(a, b, u, v),
    ensures
        0 <= i < 4,
        BboxView::from_two(corners(a, b)[i], next_point(corners(a, b), i)).contains(u, v),
        ({
            let p = corners(a, b)[i];
            let q = next_point(corners(a, b), i);
            p.0 == q.0 || p.1 == q.1
        }),
{
    let frame = BboxView::from_two(a, b);
    if v == frame.ty {
        0
    } else if u == frame.rx {
        1
    } else if v == frame.by {
        2
    } else {
        3
    }
}

proof fn lemma_near_line_witness(p: (int, int), q: (int, int), r: int, x: int, y: int) -> (t: (
    int,
    int,
))
    requires
        near_line(p, q, r, x, y),
    ensures
        r >= 0,
        BboxView::from_two(p, q).contains(t.0, t.1),
        (x - t.0) * (x - t.0) + (y - t.1) * (y - t.1) <= r * r,
{
    let k = choose|k: int|
        0 <= k <= steps(p, q) && in_disc(#[trigger] line_point(p, q, k), r, x, y);
    lemma_line(p, q);
    line_point(p, q, k)
}

proof fn lemma_near_straight(p: (int, int), q: (int, int), r: int, x: int, y: int, u: int, v: int)
    requires
        p.0 == q.0 || p.1 == q.1,
        BboxView::from_two(p, q).contains(u, v),
        r >= 0,
        (x - u) * (x - u) + (y - v) * (y - v) <= r * r,
    ensures
        near_line(p, q, r, x, y),
{
    lemma_straight(p, q, u, v);
    let k = choose|k: int| 0 <= k <= steps(p, q) && #[trigger] line_point(p, q, k) == (u, v);
    assert(in_disc(line_point(p, q, k), r, x, y));
}

/// The outline of a rectangle is its four sides: a position is near it if it
/// is at most `r` away from a pixel on one of them.
pub proof fn law_near_rectangle(a: (int, int), b: (int, int), r: int, x: int, y: int)
    ensures
        near_outline(corners(a, b), corners(a, b).len() as int, r, x, y) <==> near_sides(
            a,
            b,
            r,
            x,
            y,
        ),
{
    let points = corners(a, b);
    assert(points.len() == 4);
    if near_outline(points, 4, r, x, y) {
        let i = choose|i: int|
            0 <= i < 4 && i < points.len() && near_line(
                #[trigger] points[i],
                next_point(points, i),
                r,
                x,
                y,
            );
        let t = lemma_near_line_witness(points[i], next_point(points, i), r, x, y);
        lemma_edge_on_sides(a, b, i, t.0, t.1);
    }
    if near_sides(a, b, r, x, y) {
        let (u, v) = choose|u: int, v: int|
            #[trigger] on_sides(a, b, u, v) && (x - u) * (x - u) + (y - v) * (y - v) <= r * r;
        let i = lemma_side_on_edge(a, b, u, v);
        lemma_near_straight(points[i], next_point(points, i), r, x, y, u, v);
    }
}

// Areas of one colour.

/// Pixel `(x, y)` has an edge in common with `(u, v)`.
pub open spec fn touches(x: int, y: int, u: int, v: int) -> bool {
    (u == x && (v == y - 1 || v == y + 1)) || (v == y && (u == x - 1 || u == x + 1))
}

/// The area of a pixel: it holds the pixel itself, and with each of its pixels
/// those of the same colour that touch it, above, below, left and right.
pub proof fn law_area_spreads(
    pixels: Seq<Color>,
    seed: (int, int),
    x: int,
    y: int,
    u: int,
    v: int,
)
    requires
        in_canvas(seed.0, seed.1),
    ensures
        connected(pixels, seed, seed),
        connected(pixels, seed, (x, y)) && touches(x, y, u, v) && in_canvas(u, v) && pixel(
            pixels,
            u,
            v,
        ) == pixel(pixels, seed.0, seed.1) ==> connected(pixels, seed, (u, v)),
{
    lemma_connected_self(pixels, seed);
    if connected(pixels, seed, (x, y)) && touches(x, y, u, v) && in_canvas(u, v) && pixel(
        pixels,
        u,
        v,
    ) == pixel(pixels, seed.0, seed.1) {
        lemma_connected_step(pixels, seed, (x, y), (u, v));
    }
}

/// The area of a pixel ends where its colour ends: any set of pixels that
/// holds the seed, and with each of its pixels those that touch it in the
/// colour of the seed, holds the whole area.
pub proof fn law_area_least(
    pixels: Seq<Color>,
    seed: (int, int),
    set: spec_fn(int, int) -> bool,
    x: int,
    y: int,
)
    requires
        set(seed.0, seed.1),
        forall|p: int, q: int, u: int, v: int|
            #[trigger] set(p, q) && #[trigger] touches(p, q, u, v) && in_canvas(u, v) && pixel(
                pixels,
                u,
                v,
            ) == pixel(pixels, seed.0, seed.1) ==> set(u, v),
        connected(pixels, seed, (x, y)),
    ensures
        set(x, y),
        in_canvas(x, y),
        pixel(pixels, x, y) == pixel(pixels, seed.0, seed.1),
{
    let target = pixel(pixels, seed.0, seed.1);
    let path = choose|path: Seq<(int, int)>|
        #[trigger] is_path(pixels, target, path) && path[0] == seed && path.last() == (x, y);
    lemma_connected_color(pixels, seed, (x, y));
    lemma_walk(pixels, target, set, path, path.len() - 1);
}

proof fn lemma_walk(
    pixels: Seq<Color>,
    target: Color,
    set: spec_fn(int, int) -> bool,
    path: Seq<(int, int)>,
    i: int,
)
    requires
        is_path(pixels, target, path),
        set(path[0].0, path[0].1),
        forall|p: int, q: int, u: int, v: int|
            #[trigger] set(p, q) && #[trigger] touches(p, q, u, v) && in_canvas(u, v) && pixel(
                pixels,
                u,
                v,
            ) == target ==> set(u, v),
        0 <= i < path.len(),
    ensures
        set(path[i].0, path[i].1),
    decreases i,
{
    if i > 0 {
        lemma_walk(pixels, target, set, path, i - 1);
        let p = path[i - 1];
        let q = path[i];
        assert(adjacent(p, q));
        assert(set(p.0, p.1) && touches(p.0, p.1, q.0, q.1));
    }
}

/// A fill colours exactly the area of the seed; there is something to fill if
/// the seed is on the canvas and has another colour. Its box is the smallest
/// that holds all of the area.
pub proof fn law_flooded(pixels: Seq<Color>, seed: (int, int), fill: Color, x: int, y: int)
    requires
        is_canvas(pixels),
        in_canvas(x, y),
    ensures
        fillable(pixels, seed, fill) <==> 0 <= seed.0 < 1200 && 0 <= seed.1 < 800
            && pixels[seed.1 * 1200 + seed.0] != fill,
        is_canvas(flooded(pixels, seed, fill)),
        pixel(flooded(pixels, seed, fill), x, y) == if connected(pixels, seed, (x, y)) {
            fill
        } else {
            pixel(pixels, x, y)
        },
        fillable(pixels, seed, fill) ==> {
            let b = change_box(pixels, flooded(pixels, seed, fill));
            &&& connected(pixels, seed, (x, y)) ==> b.lx <= x <= b.rx && b.ty <= y <= b.by
            &&& exists|v: int| #[trigger] connected(pixels, seed, (b.lx, v))
            &&& exists|v: int| #[trigger] connected(pixels, seed, (b.rx, v))
            &&& exists|u: int| #[trigger] connected(pixels, seed, (u, b.ty))
            &&& exists|u: int| #[trigger] connected(pixels, seed, (u, b.by))
        },
{
    let after = flooded(pixels, seed, fill);
    let region = |u: int, v: int| connected(pixels, seed, (u, v));
    lemma_repaint_pixel(pixels, region, fill, x, y);
    if fillable(pixels, seed, fill) {
        assert forall|u: int, v: int| #[trigger] changed(pixels, after, u, v) <==> connected(
            pixels,
            seed,
            (u, v),
        ) by {
            if in_canvas(u, v) {
                lemma_repaint_pixel(pixels, region, fill, u, v);
            }
            if connected(pixels, seed, (u, v)) {
                lemma_connected_color(pixels, seed, (u, v));
            }
        }
        lemma_connected_self(pixels, seed);
        assert(changed(pixels, after, seed.0, seed.1));
        lemma_change_box_exists(pixels, after, seed.0, seed.1);
        let b = change_box(pixels, after);
        assert(is_change_box(b, pixels, after));
        assert(changed(pixels, after, x, y) <==> connected(pixels, seed, (x, y)));
        let v1 = choose|v: int| #[trigger] changed(pixels, after, b.lx, v);
        let v2 = choose|v: int| #[trigger] changed(pixels, after, b.rx, v);
        let u1 = choose|u: int| #[trigger] changed(pixels, after, u, b.ty);
        let u2 = choose|u: int| #[trigger] changed(pixels, after, u, b.by);
        assert(connected(pixels, seed, (b.lx, v1)) && connected(pixels, seed, (b.rx, v2)));
        assert(connected(pixels, seed, (u1, b.ty)) && connected(pixels, seed, (u2, b.by)));
    }
}

// Crop.

/// The first and the last pixel of a selection along an axis of `size` pixels.
pub open spec fn selects(p: int, q: int, size: int, from: int, to: int) -> bool {
    let low = if p <= q {
        p
    } else {
        q
    };
    let high = if p <= q {
        q
    } else {
        p
    };
    &&& from == if low < 0 {
        0
    } else {
        low
    }
    &&& to == if high > size - 1 {
        size - 1
    } else {
        high
    }
}

/// A crop stretches the selection evenly over the canvas: the part of the
/// selection to the left of the pixel shown at column `x` is to its whole
/// width as `x` is to the width of the canvas, rounded down; and so for rows.
/// A selection has to reach over two pixels each way.
pub proof fn law_cropped(
    pixels: Seq<Color>,
    a: (int, int),
    b: (int, int),
    lx: int,
    rx: int,
    ty: int,
    by: int,
    x: int,
    y: int,
)
    requires
        is_canvas(pixels),
        selects(a.0, b.0, 1200, lx, rx),
        selects(a.1, b.1, 800, ty, by),
        0 <= x < 1200,
        0 <= y < 800,
    ensures
        croppable(a, b) <==> rx - lx >= 2 && by - ty >= 2,
        croppable(a, b) ==> exists|u: int, v: int|
            {
                &&& 1200 * (u - lx) <= x * (rx - lx) < 1200 * (u - lx + 1)
                &&& 800 * (v - ty) <= y * (by - ty) < 800 * (v - ty + 1)
                &&& lx <= u < rx
                &&& ty <= v < by
                &&& pixel(cropped(pixels, a, b), x, y) == #[trigger] pixel(pixels, u, v)
            },
        croppable(a, b) ==> ({
            let u = source_x(a, b, x) - lx;
            let v = source_y(a, b, y) - ty;
            &&& 1200 * u <= x * (rx - lx) < 1200 * (u + 1)
            &&& 800 * v <= y * (by - ty) < 800 * (v + 1)
            &&& pixel(cropped(pixels, a, b), x, y) == pixel(pixels, lx + u, ty + v)
        }),
{
    lemma_index(x, y);
    if croppable(a, b) {
        lemma_source_in_selection(a, b, x, y);
        let u = source_x(a, b, x);
        let v = source_y(a, b, y);
        assert(lx == select_from(a.0, b.0) && ty == select_from(a.1, b.1));
        assert(rx - lx == select_span(a.0, b.0, 1200) && by - ty == select_span(a.1, b.1, 800));
        lemma_floor(x * (rx - lx), 1200);
        lemma_floor(y * (by - ty), 800);
        assert(pixel(cropped(pixels, a, b), x, y) == pixel(pixels, u, v));
    }
}

proof fn lemma_floor(t: int, n: int)
    requires
        n > 0,
    ensures
        n * (t / n) <= t < n * (t / n + 1),
{
    assert(n * (t / n) <= t < n * (t / n + 1)) by (nonlinear_arith)
        requires
            n > 0,
    ;
}

// Patches and history.

/// A patch of the canvas is a rectangle on it with one colour for each pixel.
pub proof fn law_patch_shape(p: PatchView, x: int, y: int)
    ensures
        p.wf() <==> p.x >= 0 && p.y >= 0 && p.w >= 1 && p.h >= 1 && p.x + p.w <= 1200 && p.y + p.h
            <= 800 && p.pixels.len() == p.w * p.h,
        p.covers(x, y) <==> p.x <= x < p.x + p.w && p.y <= y < p.y + p.h,
        p.color_at(x, y) == p.pixels[(y - p.y) * p.w + (x - p.x)],
{
}

/// A snapshot of a box holds, for each canvas pixel in the box and for no
/// others, the colour that it has; there is none if no such pixel exists.
pub proof fn law_snapshot(src: Seq<Color>, b: BboxView, x: int, y: int)
    requires
        is_canvas(src),
        in_canvas(x, y),
    ensures
        snapshot(src, b) is Some <==> b.lx <= b.rx && b.ty <= b.by && b.rx >= 0 && b.by >= 0 && b.lx
            < 1200 && b.ty < 800,
        snapshot(src, b) matches Some(p) ==> {
            &&& p.wf()
            &&& p.covers(x, y) <==> b.lx <= x <= b.rx && b.ty <= y <= b.by
            &&& p.covers(x, y) ==> p.pixels[(y - p.y) * p.w + (x - p.x)] == src[y * 1200 + x]
        },
        snapshot(src, b) is None ==> !(b.lx <= x <= b.rx && b.ty <= y <= b.by),
{
    if b.meets_canvas() {
        let c = b.clip();
        lemma_patch_of(src, c);
        let p = PatchView::of(src, c);
        assert(p.covers(x, y) <==> c.contains(x, y));
        if c.contains(x, y) {
            assert(p.color_at(x, y) == pixel(src, x, y));
        }
    }
}

/// A snapshot of the whole canvas covers every pixel and holds its colour.
pub proof fn law_full_snapshot(src: Seq<Color>, x: int, y: int)
    requires
        is_canvas(src),
        in_canvas(x, y),
    ensures
        full_snapshot(src).wf(),
        full_snapshot(src).covers(x, y),
        full_snapshot(src).color_at(x, y) == src[y * 1200 + x],
{
    lemma_restore_full(src, src);
}

/// Putting a patch back sets each pixel under it to the colour that it holds,
/// and no other pixel.
pub proof fn law_restore(pixels: Seq<Color>, p: PatchView, x: int, y: int)
    requires
        is_canvas(pixels),
        in_canvas(x, y),
    ensures
        is_canvas(restore(pixels, p)),
        pixel(restore(pixels, p), x, y) == if p.x <= x < p.x + p.w && p.y <= y < p.y + p.h {
            p.pixels[(y - p.y) * p.w + (x - p.x)]
        } else {
            pixels[y * 1200 + x]
        },
{
    lemma_index(x, y);
}

/// The history holds the latest fifty patches, oldest first.
pub proof fn law_pushed(history: Seq<PatchView>, p: PatchView, i: int)
    requires
        0 <= i < pushed(history, p).len(),
    ensures
        history.len() < 50 ==> pushed(history, p).len() == history.len() + 1,
        history.len() >= 50 ==> pushed(history, p).len() == history.len(),
        pushed(history, p)[i] == {
            let j = i + (history.len() + 1 - pushed(history, p).len());
            if j < history.len() {
                history[j]
            } else {
                p
            }
        },
{
}

/// A painting is well-formed if its buffers have the size of the canvas, its
/// history holds at most fifty patches, all of the canvas, and there is a
/// stroke box only while a stroke is pending. Its settings are free.
pub proof fn law_wf<P>(s: PaintView<P>)
    ensures
        s.wf() <==> {
            &&& s.pixels.len() == 1200 * 800
            &&& s.history.len() <= 50
            &&& forall|i: int| 0 <= i < s.history.len() ==> (#[trigger] s.history[i]).wf()
            &&& s.stroke_pre matches Some(pre) ==> pre.len() == 1200 * 800
            &&& s.stroke_pre is None ==> s.stroke_bbox is None
        },
{
}

// Ranges and frames.

/// Widening keeps every coordinate.
pub proof fn law_widen(p: (i32, i32), points: Seq<(i32, i32)>, i: int)
    ensures
        widen(p).0 == p.0,
        widen(p).1 == p.1,
        widen_all(points).len() == points.len(),
        0 <= i < points.len() ==> widen_all(points)[i].0 == points[i].0 && widen_all(points)[i].1
            == points[i].1,
{
}

/// A brush fits if it has no extent or every pixel that it may touch has
/// coordinates in the range of `i32`.
pub proof fn law_brush_fits(b: BboxView, points: Seq<(int, int)>, size: int)
    ensures
        brush_fits(b, size) <==> size < 0 || (is_i32(b.lx - size) && is_i32(b.ty - size) && is_i32(
            b.rx + size,
        ) && is_i32(b.by + size)),
        brush_fits_all(points, size) <==> size < 0 || forall|i: int|
            0 <= i < points.len() ==> is_i32((#[trigger] points[i]).0 - size) && is_i32(
                points[i].0 + size,
            ) && is_i32(points[i].1 - size) && is_i32(points[i].1 + size),
{
    if size >= 0 && !brush_fits_all(points, size) {
        let i = choose|i: int|
            0 <= i < points.len() && !brush_fits(
                BboxView::point((#[trigger] points[i]).0, points[i].1),
                size,
            );
        assert(!is_i32(points[i].0 - size) || !is_i32(points[i].0 + size) || !is_i32(
            points[i].1 - size,
        ) || !is_i32(points[i].1 + size));
    }
}

/// The ellipse between two corners has its centre half way between them, and
/// its radii are half the distances along the axes, rounded down, but never
/// less than one.
pub proof fn law_ellipse_frame(f: EllipseFrame, a: (int, int), b: (int, int))
    requires
        is_ellipse_frame(f, a, b),
    ensures
        f.twice_cx - 2 * a.0 == 2 * b.0 - f.twice_cx,
        f.twice_cy - 2 * a.1 == 2 * b.1 - f.twice_cy,
        f.rx >= 1,
        f.ry >= 1,
        b.0 - a.0 >= 2 ==> 2 * f.rx <= b.0 - a.0 <= 2 * f.rx + 1,
        a.0 - b.0 >= 2 ==> 2 * f.rx <= a.0 - b.0 <= 2 * f.rx + 1,
        -2 < b.0 - a.0 < 2 ==> f.rx == 1,
        b.1 - a.1 >= 2 ==> 2 * f.ry <= b.1 - a.1 <= 2 * f.ry + 1,
        a.1 - b.1 >= 2 ==> 2 * f.ry <= a.1 - b.1 <= 2 * f.ry + 1,
        -2 < b.1 - a.1 < 2 ==> f.ry == 1,
{
}

} // verus!
