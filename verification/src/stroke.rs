//! How strokes and outlines build up, one stamp and one edge at a time.

use vstd::prelude::*;

use crate::bbox::BboxView;
use crate::canvas::Region;
use crate::color::Color;
use crate::disc::{disc, in_disc};
use crate::line::{
    abs, error_term, heading, lemma_heading, lemma_line, lemma_progress_ends,
    lemma_progress_monotone, line_point, progress, steps,
};
use crate::state::{
    brush_fits, brush_fits_all, brushed, corners, hull, near_line, near_outline, next_point,
    outlined, PaintView,
};

verus! {

/// The part of [`brushed`] up to the `k`-th point of the line.
pub open spec fn brushed_upto(a: (int, int), b: (int, int), k: int, r: int) -> Region {
    |x: int, y: int| near_line_upto(a, b, k, r, x, y)
}

/// `(x, y)` is at most `r` away from one of the points up to the `k`-th.
pub open spec fn near_line_upto(
    a: (int, int),
    b: (int, int),
    k: int,
    r: int,
    x: int,
    y: int,
) -> bool {
    exists|j: int| 0 <= j <= k && in_disc(#[trigger] line_point(a, b, j), r, x, y)
}

/// Painting two regions in one colour is painting what they cover together.
proof fn lemma_paint_twice<P>(
    s: PaintView<P>,
    r1: Region,
    b1: BboxView,
    r2: Region,
    b2: BboxView,
    r: Region,
    b: BboxView,
    c: Color,
)
    requires
        forall|x: int, y: int| #[trigger] r(x, y) <==> r1(x, y) || r2(x, y),
        b == b1.union(b2),
    ensures
        s.paint(r1, b1, c).paint(r2, b2, c) == s.paint(r, b, c),
{
    assert(s.paint(r1, b1, c).paint(r2, b2, c).pixels =~= s.paint(r, b, c).pixels);
}

proof fn lemma_same_region<P>(s: PaintView<P>, r1: Region, r2: Region, b: BboxView, c: Color)
    requires
        forall|x: int, y: int| #[trigger] r1(x, y) <==> r2(x, y),
    ensures
        s.paint(r1, b, c) == s.paint(r2, b, c),
{
    assert(s.paint(r1, b, c).pixels =~= s.paint(r2, b, c).pixels);
}

/// The first stamp of a stroke.
pub proof fn lemma_brushed_start<P>(s: PaintView<P>, a: (int, int), b: (int, int), r: int, c: Color)
    requires
        s.brush_size == r,
        r >= 0,
    ensures
        s.stamp_circle(a, c) == s.paint(
            brushed_upto(a, b, 0, r),
            BboxView::from_two(a, line_point(a, b, 0)).expand(r),
            c,
        ),
{
    lemma_line(a, b);
    assert forall|x: int, y: int| #[trigger] disc(a, r)(x, y) implies brushed_upto(a, b, 0, r)(
        x,
        y,
    ) by {
        assert(in_disc(line_point(a, b, 0), r, x, y));
    }
    lemma_same_region(
        s,
        disc(a, r),
        brushed_upto(a, b, 0, r),
        BboxView::point(a.0, a.1).expand(r),
        c,
    );
}

/// One more stamp of a stroke.
pub proof fn lemma_brushed_step<P>(
    s: PaintView<P>,
    a: (int, int),
    b: (int, int),
    k: int,
    r: int,
    c: Color,
)
    requires
        s.brush_size == r,
        r >= 0,
        0 <= k < steps(a, b),
    ensures
        s.paint(
            brushed_upto(a, b, k, r),
            BboxView::from_two(a, line_point(a, b, k)).expand(r),
            c,
        ).stamp_circle(line_point(a, b, k + 1), c) == s.paint(
            brushed_upto(a, b, k + 1, r),
            BboxView::from_two(a, line_point(a, b, k + 1)).expand(r),
            c,
        ),
{
    let n = steps(a, b);
    let p = line_point(a, b, k);
    let q = line_point(a, b, k + 1);
    lemma_progress_monotone(abs(b.0 - a.0), k, k + 1, n);
    lemma_progress_monotone(abs(b.1 - a.1), k, k + 1, n);
    lemma_heading(a.0, b.0, progress(abs(b.0 - a.0), k, n));
    lemma_heading(a.0, b.0, progress(abs(b.0 - a.0), k + 1, n));
    lemma_heading(a.1, b.1, progress(abs(b.1 - a.1), k, n));
    lemma_heading(a.1, b.1, progress(abs(b.1 - a.1), k + 1, n));
    let b1 = BboxView::from_two(a, p).expand(r);
    let b2 = BboxView::point(q.0, q.1).expand(r);
    assert(b1.union(b2) == BboxView::from_two(a, q).expand(r));
    let r1 = brushed_upto(a, b, k, r);
    let r2 = disc(q, r);
    let r3 = brushed_upto(a, b, k + 1, r);
    assert forall|x: int, y: int| #[trigger] r3(x, y) <==> r1(x, y) || r2(x, y) by {
        if r1(x, y) {
            let j = choose|j: int| 0 <= j <= k && in_disc(#[trigger] line_point(a, b, j), r, x, y);
            assert(0 <= j <= k + 1 && in_disc(line_point(a, b, j), r, x, y));
        }
        if r2(x, y) {
            assert(in_disc(line_point(a, b, k + 1), r, x, y));
        }
        if r3(x, y) {
            let j = choose|j: int|
                0 <= j <= k + 1 && in_disc(#[trigger] line_point(a, b, j), r, x, y);
            if j <= k {
                assert(in_disc(line_point(a, b, j), r, x, y));
            }
        }
    }
    lemma_paint_twice(s, r1, b1, r2, b2, r3, b1.union(b2), c);
}

/// The stamps up to the end point are the whole stroke.
pub proof fn lemma_brushed_all<P>(
    s: PaintView<P>,
    a: (int, int),
    b: (int, int),
    k: int,
    r: int,
    c: Color,
)
    requires
        s.brush_size == r,
        r >= 0,
        0 <= k <= steps(a, b),
        line_point(a, b, k) == b,
    ensures
        s.paint(
            brushed_upto(a, b, k, r),
            BboxView::from_two(a, line_point(a, b, k)).expand(r),
            c,
        ) == s.stroke_canvas(a, b, c),
{
    let n = steps(a, b);
    lemma_progress_ends(abs(b.0 - a.0), n);
    lemma_progress_ends(abs(b.1 - a.1), n);
    assert(k == n) by {
        if k < n {
            assert(progress(n, k, n) == k);
            if abs(b.0 - a.0) == n {
                lemma_heading_apart(a.0, b.0, k);
            } else {
                lemma_heading_apart(a.1, b.1, k);
            }
        }
    }
    lemma_same_region(
        s,
        brushed_upto(a, b, k, r),
        brushed(a, b, r),
        BboxView::from_two(a, b).expand(r),
        c,
    );
}

/// Fewer steps than the extent of an axis do not reach its end.
proof fn lemma_heading_apart(from: int, to: int, k: int)
    requires
        0 <= k < abs(to - from),
    ensures
        from + heading(from, to) * k != to,
{
    lemma_heading(from, to, k);
}

/// One more step along an axis.
pub proof fn lemma_heading_step(h: int, i: int)
    ensures
        h * (i + 1) == h * i + h,
{
    assert(h * (i + 1) == h * i + h) by (nonlinear_arith);
}

/// What a step along either axis, or along both, does to the error term.
pub proof fn lemma_error_step(d: int, e: int, i: int, j: int)
    ensures
        error_term(d, e, i + 1, j) == error_term(d, e, i, j) - e,
        error_term(d, e, i, j + 1) == error_term(d, e, i, j) + d,
        error_term(d, e, i + 1, j + 1) == error_term(d, e, i, j) - e + d,
{
    assert(d * (j + 1 + 1) == d * (j + 1) + d) by (nonlinear_arith);
    assert(e * (i + 1 + 1) == e * (i + 1) + e) by (nonlinear_arith);
}

/// The painting after the first `i` edges of a closed outline have been drawn.
pub open spec fn outlined_upto<P>(
    s: PaintView<P>,
    points: Seq<(int, int)>,
    i: int,
    c: Color,
) -> PaintView<P> {
    s.paint(
        outlined(points, i, s.brush_size),
        hull(
            points.take(
                if i + 1 < points.len() {
                    i + 1
                } else {
                    points.len() as int
                },
            ),
        ).expand(s.brush_size),
        c,
    )
}

/// The hull of one more point.
pub proof fn lemma_hull_next(points: Seq<(int, int)>, i: int)
    requires
        1 <= i < points.len(),
    ensures
        hull(points.take(i + 1)) == hull(points.take(i)).union(
            BboxView::point(points[i].0, points[i].1),
        ),
{
    assert(points.take(i + 1).drop_last() =~= points.take(i));
    assert(points.take(i + 1).last() == points[i]);
}

/// The hull holds every point.
pub proof fn lemma_hull_contains(points: Seq<(int, int)>, i: int)
    requires
        0 <= i < points.len(),
    ensures
        hull(points).contains(points[i].0, points[i].1),
    decreases points.len(),
{
    if points.len() > 1 {
        if i < points.len() - 1 {
            assert(points.drop_last()[i] == points[i]);
            lemma_hull_contains(points.drop_last(), i);
        } else {
            assert(points.drop_last()[0] == points[0]);
            lemma_hull_contains(points.drop_last(), 0);
        }
    }
}

/// The corners of a rectangle span its box.
pub proof fn lemma_hull_corners(a: (int, int), b: (int, int))
    ensures
        hull(corners(a, b)) == BboxView::from_two(a, b),
{
    let points = corners(a, b);
    lemma_hull_next(points, 1);
    lemma_hull_next(points, 2);
    lemma_hull_next(points, 3);
    assert(points.take(1)[0] == points[0]);
    assert(points.take(4) =~= points);
}

/// A brush that can be put down anywhere in the box of an outline can be put
/// down on each of its points.
pub proof fn lemma_hull_fits(points: Seq<(int, int)>, b: BboxView, size: int)
    requires
        points.len() > 0 ==> b.union(hull(points)).expand(size).in_range(),
    ensures
        brush_fits_all(points, size),
{
    assert forall|i: int| 0 <= i < points.len() implies brush_fits(
        BboxView::point((#[trigger] points[i]).0, points[i].1),
        size,
    ) by {
        lemma_hull_contains(points, i);
    }
}

/// The first edge of an outline.
pub proof fn lemma_outlined_start<P>(s: PaintView<P>, points: Seq<(int, int)>, c: Color)
    requires
        s.brush_size >= 0,
        points.len() > 0,
    ensures
        s.stroke_canvas(points[0], next_point(points, 0), c) == outlined_upto(s, points, 1, c),
{
    let r = s.brush_size;
    let p = points[0];
    let q = next_point(points, 0);
    assert(points.take(1)[0] == p);
    assert(hull(points.take(1)) == BboxView::point(p.0, p.1));
    if points.len() > 1 {
        lemma_hull_next(points, 1);
    }
    assert forall|x: int, y: int| #[trigger] brushed(p, q, r)(x, y) <==> outlined(points, 1, r)(
        x,
        y,
    ) by {
        if near_line(p, q, r, x, y) {
            assert(near_line(points[0], next_point(points, 0), r, x, y));
        }
    }
    lemma_same_region(
        s,
        brushed(p, q, r),
        outlined(points, 1, r),
        BboxView::from_two(p, q).expand(r),
        c,
    );
}

/// One more edge of an outline.
pub proof fn lemma_outlined_step<P>(s: PaintView<P>, points: Seq<(int, int)>, i: int, c: Color)
    requires
        s.brush_size >= 0,
        1 <= i < points.len(),
    ensures
        outlined_upto(s, points, i, c).stroke_canvas(points[i], next_point(points, i), c)
            == outlined_upto(s, points, i + 1, c),
{
    let r = s.brush_size;
    let p = points[i];
    let q = next_point(points, i);
    let h = hull(points.take(i + 1));
    assert(points.take(i + 1)[i] == p);
    lemma_hull_contains(points.take(i + 1), i);
    if i + 1 < points.len() {
        lemma_hull_next(points, i + 1);
    } else {
        assert(points.take(i + 1)[0] == q);
        lemma_hull_contains(points.take(i + 1), 0);
        assert(h.union(BboxView::from_two(p, q)) == h);
    }
    let b1 = h.expand(r);
    let b2 = BboxView::from_two(p, q).expand(r);
    let r1 = outlined(points, i, r);
    let r2 = brushed(p, q, r);
    let r3 = outlined(points, i + 1, r);
    assert forall|x: int, y: int| #[trigger] r3(x, y) <==> r1(x, y) || r2(x, y) by {
        if near_outline(points, i, r, x, y) {
            let j = choose|j: int|
                0 <= j < i && j < points.len() && near_line(
                    #[trigger] points[j],
                    next_point(points, j),
                    r,
                    x,
                    y,
                );
            assert(near_line(points[j], next_point(points, j), r, x, y));
        }
        if near_line(p, q, r, x, y) {
            assert(near_line(points[i], next_point(points, i), r, x, y));
        }
    }
    lemma_paint_twice(s, r1, b1, r2, b2, r3, b1.union(b2), c);
}

} // verus!
