//! What holds of the library as a whole.

use vstd::prelude::*;

use crate::bbox::{max, min, BboxView};
use crate::canvas::{
    in_canvas, is_canvas, lemma_index, lemma_repaint_pixel, lemma_same_pixels, pixel, Region,
    CANVAS_H, CANVAS_W,
};
use crate::color::Color;
use crate::crop::{
    croppable, cropped, lemma_source_in_selection, select_from, select_to, source_x, source_y,
};
use crate::disc::{disc, in_disc, lemma_disc_in_box};
use crate::fill::{
    adjacent, change_box, changed, connected, fillable, flooded, is_path, lemma_change_box_exists,
    lemma_connected_color, lemma_connected_self,
};
use crate::input::{is_ellipse_frame, Action, EllipseFrame, Pointer, Preview};
use crate::line::{
    abs, heading, lemma_heading, lemma_line, lemma_progress, line_point, progress, steps,
};
use crate::paint::widen;
use crate::patch::{
    lemma_patch_of, lemma_restore_full, lemma_restore_snapshot, restore, PatchView,
};
use crate::state::{
    brushed, hull, near_line, near_outline, next_point, outlined, pushed, PaintView, ShapeKind,
    Tool, HISTORY_CAP,
};
use crate::stroke::lemma_hull_contains;

verus! {

// What painting touches.

/// What the brush covers on its way along a line stays in the box of the two
/// end points, expanded by the brush size.
pub proof fn law_stroke_in_box(a: (int, int), b: (int, int), r: int, x: int, y: int)
    requires
        near_line(a, b, r, x, y),
    ensures
        BboxView::from_two(a, b).expand(r).contains(x, y),
{
    lemma_line(a, b);
    let k = choose|k: int|
        0 <= k <= steps(a, b) && in_disc(#[trigger] line_point(a, b, k), r, x, y);
    lemma_disc_in_box(line_point(a, b, k), r, x, y);
}

/// What the brush covers on its way along a closed outline stays in the box
/// of its points, expanded by the brush size.
pub proof fn law_outline_in_box(points: Seq<(int, int)>, r: int, x: int, y: int)
    requires
        near_outline(points, points.len() as int, r, x, y),
    ensures
        hull(points).expand(r).contains(x, y),
{
    let i = choose|i: int|
        0 <= i < points.len() && near_line(#[trigger] points[i], next_point(points, i), r, x, y);
    law_stroke_in_box(points[i], next_point(points, i), r, x, y);
    lemma_hull_contains(points, i);
    lemma_hull_contains(points, if i + 1 < points.len() { i + 1 } else { 0 });
}

/// The hull of points that all lie in a box lies in that box.
proof fn lemma_hull_inside(points: Seq<(int, int)>, b: BboxView)
    requires
        points.len() > 0,
        forall|i: int|
            0 <= i < points.len() ==> b.contains((#[trigger] points[i]).0, points[i].1),
    ensures
        b.lx <= hull(points).lx && hull(points).rx <= b.rx,
        b.ty <= hull(points).ty && hull(points).by <= b.by,
    decreases points.len(),
{
    assert(b.contains(points[0].0, points[0].1));
    if points.len() > 1 {
        let init = points.drop_last();
        assert forall|i: int| 0 <= i < init.len() implies b.contains(
            (#[trigger] init[i]).0,
            init[i].1,
        ) by {
            assert(init[i] == points[i]);
        }
        lemma_hull_inside(init, b);
        assert(b.contains(points[points.len() - 1].0, points[points.len() - 1].1));
    }
}

/// A stroke covers its two end points, and one that goes nowhere is a single
/// stamp.
pub proof fn law_stroke_ends<P>(s: PaintView<P>, a: (int, int), b: (int, int), c: Color)
    requires
        s.brush_size >= 0,
    ensures
        near_line(a, b, s.brush_size, a.0, a.1),
        near_line(a, b, s.brush_size, b.0, b.1),
        s.stroke_canvas(a, a, c) == s.stamp_circle(a, c),
{
    let r = s.brush_size;
    lemma_line(a, b);
    assert(r * r >= 0) by (nonlinear_arith);
    assert(in_disc(line_point(a, b, 0), r, a.0, a.1));
    assert(in_disc(line_point(a, b, steps(a, b)), r, b.0, b.1));
    lemma_line(a, a);
    assert forall|x: int, y: int| near_line(a, a, r, x, y) <==> #[trigger] in_disc(a, r, x, y) by {
        if in_disc(a, r, x, y) {
            assert(in_disc(line_point(a, a, 0), r, x, y));
        }
    }
    assert(s.stroke_canvas(a, a, c).pixels =~= s.stamp_circle(a, c).pixels);
}

/// The points of a line are the pixels nearest to it: on each axis, the point
/// after `k` of `n` steps is at most half a pixel from where the straight line
/// is.
pub proof fn law_line_nearest(a: (int, int), b: (int, int), k: int)
    requires
        0 <= k <= steps(a, b),
    ensures
        ({
            let n = steps(a, b);
            let p = line_point(a, b, k);
            &&& 2 * abs(n * (p.0 - a.0) - k * (b.0 - a.0)) <= n
            &&& 2 * abs(n * (p.1 - a.1) - k * (b.1 - a.1)) <= n
        }),
{
    let n = steps(a, b);
    if n > 0 {
        lemma_axis_nearest(a.0, b.0, k, n);
        lemma_axis_nearest(a.1, b.1, k, n);
    } else {
        lemma_line(a, b);
    }
}

proof fn lemma_axis_nearest(from: int, to: int, k: int, n: int)
    requires
        n > 0,
    ensures
        2 * abs(n * (heading(from, to) * progress(abs(to - from), k, n)) - k * (to - from)) <= n,
{
    let d = abs(to - from);
    let q = progress(d, k, n);
    lemma_progress(d, k, n, q);
    lemma_heading(from, to, q);
    assert(2 * n * q == 2 * (n * q)) by (nonlinear_arith);
    assert(2 * d * k == 2 * (k * d)) by (nonlinear_arith);
    assert(n * (-q) == -(n * q)) by (nonlinear_arith);
    assert(k * (-d) == -(k * d)) by (nonlinear_arith);
}

/// The eraser makes what it covers white, and nothing else.
pub proof fn law_eraser<P>(s: PaintView<P>, a: (int, int), b: (int, int), x: int, y: int)
    requires
        s.wf(),
        s.tool == Tool::Eraser,
        in_canvas(x, y),
    ensures
        pixel(s.paint_stroke(a, b).pixels, x, y) == if near_line(a, b, s.brush_size, x, y) {
            Color::white()
        } else {
            pixel(s.pixels, x, y)
        },
{
    lemma_repaint_pixel(s.pixels, brushed(a, b, s.brush_size), Color::white(), x, y);
}

/// Painting the same stroke again changes nothing more.
pub proof fn law_stroke_again<P>(s: PaintView<P>, a: (int, int), b: (int, int), c: Color)
    ensures
        s.stroke_canvas(a, b, c).stroke_canvas(a, b, c) == s.stroke_canvas(a, b, c),
{
    let t = s.stroke_canvas(a, b, c);
    assert(t.stroke_canvas(a, b, c).pixels =~= t.pixels);
}

// Undo.

/// `t` is `s` after a change that was recorded: one patch was added to the
/// history, and putting it back gives the canvas of `s`.
pub open spec fn recorded<P>(s: PaintView<P>, t: PaintView<P>) -> bool {
    &&& t.history.len() > 0
    &&& t.history == pushed(s.history, t.history.last())
    &&& restore(t.pixels, t.history.last()) == s.pixels
}

/// Neither the canvas nor the history differ.
pub open spec fn untouched<P>(s: PaintView<P>, t: PaintView<P>) -> bool {
    s.pixels == t.pixels && s.history == t.history
}

/// `n` times undo.
pub open spec fn undo_times<P>(s: PaintView<P>, n: nat) -> PaintView<P>
    decreases n,
{
    if n == 0 {
        s
    } else {
        undo_times(s, (n - 1) as nat).undo()
    }
}

/// The history never exceeds its cap; the newest patch is the last, and only
/// a full history loses a patch, the oldest.
pub proof fn law_history_bounded(history: Seq<PatchView>, p: PatchView)
    requires
        history.len() <= HISTORY_CAP,
    ensures
        pushed(history, p).len() == min(history.len() as int + 1, HISTORY_CAP as int),
        pushed(history, p).last() == p,
        pushed(history, p).drop_last() == if history.len() < HISTORY_CAP {
            history
        } else {
            history.drop_first()
        },
{
    if history.len() < HISTORY_CAP {
        assert(pushed(history, p).drop_last() =~= history);
    } else {
        assert(pushed(history, p).drop_last() =~= history.drop_first());
    }
}

/// Undo takes back a recorded change: the canvas is what it was, and so is the
/// history, unless it was full and has lost its oldest patch.
pub proof fn law_undo_recorded<P>(s: PaintView<P>, t: PaintView<P>)
    requires
        s.wf(),
        recorded(s, t),
    ensures
        t.undo().pixels == s.pixels,
        t.undo().history == if s.history.len() < HISTORY_CAP {
            s.history
        } else {
            s.history.drop_first()
        },
{
    law_history_bounded(s.history, t.history.last());
}

/// The patches of the last recorded changes are the last in the history.
proof fn lemma_latest_patches<P>(states: Seq<PaintView<P>>, i: int, j: int)
    requires
        0 <= j < i < states.len(),
        states.len() <= HISTORY_CAP + 1,
        states[0].history.len() <= HISTORY_CAP,
        forall|m: int, n: int|
            0 <= m && n == m + 1 && n < states.len() ==> recorded(
                #[trigger] states[m],
                #[trigger] states[n],
            ),
    ensures
        i <= states[i].history.len() <= HISTORY_CAP,
        states[i].history[states[i].history.len() - 1 - j] == states[i - j].history.last(),
    decreases i,
{
    let h = states[i - 1].history;
    let p = states[i].history.last();
    assert(recorded(states[i - 1], states[i]));
    if i > 1 {
        lemma_latest_patches(states, i - 1, if j > 0 { j - 1 } else { 0 });
    }
    law_history_bounded(h, p);
}

proof fn lemma_undo_back<P>(states: Seq<PaintView<P>>, k: nat)
    requires
        0 < states.len() <= HISTORY_CAP + 1,
        k < states.len(),
        states[0].history.len() <= HISTORY_CAP,
        forall|m: int, n: int|
            0 <= m && n == m + 1 && n < states.len() ==> recorded(
                #[trigger] states[m],
                #[trigger] states[n],
            ),
    ensures
        undo_times(states.last(), k).pixels == states[states.len() - 1 - k].pixels,
        k <= states.last().history.len(),
        undo_times(states.last(), k).history == states.last().history.take(
            states.last().history.len() - k,
        ),
    decreases k,
{
    let top = states.last();
    let n = states.len() - 1;
    if k == 0 {
        assert(top.history.take(top.history.len() as int) =~= top.history);
    } else {
        lemma_undo_back(states, (k - 1) as nat);
        lemma_latest_patches(states, n, k - 1);
        let u = undo_times(top, (k - 1) as nat);
        assert(recorded(states[n - k], states[n - k + 1]));
        assert(u.history.len() > 0);
        assert(u.history.last() == top.history[top.history.len() - k]);
        assert(undo_times(top, k).history =~= top.history.take(top.history.len() - k));
    }
}

/// As many recorded changes as the history holds can all be taken back, one
/// after the other: `k` undos give the canvas from before the last `k`, and
/// take the last `k` patches off the history.
pub proof fn law_undo_many<P>(states: Seq<PaintView<P>>, k: nat)
    requires
        0 < states.len() <= HISTORY_CAP + 1,
        k < states.len(),
        states[0].wf(),
        forall|m: int, n: int|
            0 <= m && n == m + 1 && n < states.len() ==> recorded(
                #[trigger] states[m],
                #[trigger] states[n],
            ),
    ensures
        undo_times(states.last(), k).pixels == states[states.len() - 1 - k].pixels,
        k <= states.last().history.len(),
        undo_times(states.last(), k).history == states.last().history.take(
            states.last().history.len() - k,
        ),
{
    lemma_undo_back(states, k);
}

/// Each undo takes one patch off the history. Once it is empty, further undos
/// change nothing: no undo gets behind the oldest patch that was kept.
pub proof fn law_undo_bottom<P>(s: PaintView<P>, n: nat)
    ensures
        undo_times(s, n).history == s.history.take(max(s.history.len() - n, 0)),
        n >= s.history.len() ==> undo_times(s, n) == undo_times(s, s.history.len()),
    decreases n,
{
    if n == 0 {
        assert(s.history.take(s.history.len() as int) =~= s.history);
    } else {
        law_undo_bottom(s, (n - 1) as nat);
        assert(undo_times(s, n).history =~= s.history.take(max(s.history.len() - n, 0)));
    }
}

/// A change inside a box, recorded by a patch of that box, can be taken back.
proof fn lemma_boxed_change<P>(s: PaintView<P>, t: PaintView<P>, src: Seq<Color>, b: BboxView)
    requires
        is_canvas(src),
        is_canvas(t.pixels),
        s.pixels == src,
        t.history == s.push_snapshot(src, b).history,
        forall|x: int, y: int| #[trigger] changed(src, t.pixels, x, y) ==> b.contains(x, y),
    ensures
        b.meets_canvas() ==> recorded(s, t),
        !b.meets_canvas() ==> untouched(s, t),
{
    if b.meets_canvas() {
        let p = PatchView::of(src, b.clip());
        assert(t.history.last() == p);
        lemma_restore_snapshot(src, t.pixels, b);
        assert forall|x: int, y: int| in_canvas(x, y) implies #[trigger] pixel(
            restore(t.pixels, p),
            x,
            y,
        ) == pixel(src, x, y) by {
            if !b.contains(x, y) {
                assert(!changed(src, t.pixels, x, y));
            }
        }
        lemma_same_pixels(restore(t.pixels, p), src);
    } else {
        assert forall|x: int, y: int| in_canvas(x, y) implies #[trigger] pixel(t.pixels, x, y)
            == pixel(src, x, y) by {
            assert(b.clip().contains(x, y) || !b.contains(x, y));
            assert(!changed(src, t.pixels, x, y));
        }
        lemma_same_pixels(t.pixels, src);
    }
}

/// Ending a stroke touches neither the canvas nor the settings.
pub proof fn lemma_commit_keeps_canvas<P>(s: PaintView<P>)
    requires
        s.wf(),
    ensures
        s.commit_stroke().pixels == s.pixels,
        s.commit_stroke().tool == s.tool,
        s.commit_stroke().shape_kind == s.shape_kind,
        s.commit_stroke().brush_size == s.brush_size,
        s.commit_stroke().color == s.color,
        s.commit_stroke().stroke_pre is None,
        s.commit_stroke().stroke_bbox is None,
        s.commit_stroke().wf(),
{
    if s.stroke_pre is Some && s.stroke_bbox is Some {
        let pre = s.stroke_pre->0;
        let b = s.stroke_bbox->0;
        if b.meets_canvas() {
            lemma_patch_of(pre, b.clip());
            law_history_bounded(s.history, PatchView::of(pre, b.clip()));
        }
    }
}

/// The release of the line tool is recorded, unless the line lies wholly off
/// the canvas; then it changes nothing. (A stroke that is still pending is
/// committed first.)
pub proof fn law_undo_line<P>(
    s: PaintView<P>,
    a: (int, int),
    b: (int, int),
    samples: Seq<(int, int)>,
)
    requires
        s.wf(),
        s.tool == Tool::Line,
    ensures
        ({
            let before = s.commit_stroke();
            let after = s.commit_drag_tool(a, b, samples);
            if s.line_or_shape_bbox(a, b).meets_canvas() {
                recorded(before, after)
            } else {
                untouched(before, after)
            }
        }),
{
    lemma_commit_keeps_canvas(s);
    let before = s.commit_stroke();
    let after = s.commit_drag_tool(a, b, samples);
    let reach = s.line_or_shape_bbox(a, b);
    let region = brushed(a, b, s.brush_size);
    assert forall|x: int, y: int| #[trigger]
        changed(before.pixels, after.pixels, x, y) implies reach.contains(x, y) by {
        lemma_repaint_pixel(before.pixels, region, s.color, x, y);
        law_stroke_in_box(a, b, s.brush_size, x, y);
    }
    lemma_boxed_change(before, after, before.pixels, reach);
}

/// The release of the shape tool is recorded, unless the shape lies wholly
/// off the canvas; then it changes nothing.
pub proof fn law_undo_shape<P>(
    s: PaintView<P>,
    a: (int, int),
    b: (int, int),
    samples: Seq<(int, int)>,
)
    requires
        s.wf(),
        s.tool == Tool::Shape,
    ensures
        ({
            let before = s.commit_stroke();
            let after = s.commit_drag_tool(a, b, samples);
            if s.shape_bbox(a, b, samples).meets_canvas() {
                recorded(before, after)
            } else {
                untouched(before, after)
            }
        }),
{
    lemma_commit_keeps_canvas(s);
    let before = s.commit_stroke();
    let after = s.commit_drag_tool(a, b, samples);
    let reach = s.shape_bbox(a, b, samples);
    let points = s.shape_points(a, b, samples);
    let region = outlined(points, points.len() as int, s.brush_size);
    assert(before.shape_bbox(a, b, samples) == reach);
    assert forall|x: int, y: int| #[trigger]
        changed(before.pixels, after.pixels, x, y) implies reach.contains(x, y) by {
        lemma_repaint_pixel(before.pixels, region, s.color, x, y);
        law_outline_in_box(points, s.brush_size, x, y);
    }
    lemma_boxed_change(before, after, before.pixels, reach);
}

/// The box that is recorded for a shape is that of its two corners, widened by
/// the brush, if the shape stays between them; a rectangle always does.
pub proof fn law_shape_bbox<P>(
    s: PaintView<P>,
    a: (int, int),
    b: (int, int),
    samples: Seq<(int, int)>,
)
    requires
        s.shape_kind == ShapeKind::Ellipse ==> forall|i: int|
            0 <= i < samples.len() ==> BboxView::from_two(a, b).contains(
                (#[trigger] samples[i]).0,
                samples[i].1,
            ),
    ensures
        s.shape_bbox(a, b, samples) == s.line_or_shape_bbox(a, b),
{
    let points = s.shape_points(a, b, samples);
    assert forall|i: int| 0 <= i < points.len() implies BboxView::from_two(a, b).contains(
        (#[trigger] points[i]).0,
        points[i].1,
    ) by {}
    if points.len() > 0 {
        lemma_hull_inside(points, BboxView::from_two(a, b));
    }
}

/// The release of the crop tool is always recorded.
pub proof fn law_undo_crop<P>(
    s: PaintView<P>,
    a: (int, int),
    b: (int, int),
    samples: Seq<(int, int)>,
)
    requires
        s.wf(),
        s.tool == Tool::Crop,
    ensures
        recorded(s.commit_stroke(), s.commit_drag_tool(a, b, samples)),
{
    lemma_commit_keeps_canvas(s);
    lemma_restore_full(s.pixels, s.commit_drag_tool(a, b, samples).pixels);
}

/// Clearing the canvas is always recorded.
pub proof fn law_undo_clear<P>(s: PaintView<P>)
    requires
        s.wf(),
    ensures
        recorded(s.commit_stroke(), s.clear_canvas()),
{
    lemma_commit_keeps_canvas(s);
    lemma_restore_full(s.pixels, s.clear_canvas().pixels);
}

/// A flood fill is recorded if it has something to fill; otherwise it changes
/// nothing.
pub proof fn law_undo_fill<P>(s: PaintView<P>, seed: (int, int))
    requires
        s.wf(),
    ensures
        if fillable(s.pixels, seed, s.color) {
            recorded(s.commit_stroke(), s.commit_fill(seed))
        } else {
            untouched(s.commit_stroke(), s.commit_fill(seed))
        },
{
    lemma_commit_keeps_canvas(s);
    if fillable(s.pixels, seed, s.color) {
        let before = s.commit_stroke();
        let after = s.commit_fill(seed);
        let b = change_box(s.pixels, after.pixels);
        lemma_connected_self(s.pixels, seed);
        lemma_repaint_pixel(
            s.pixels,
            |x: int, y: int| connected(s.pixels, seed, (x, y)),
            s.color,
            seed.0,
            seed.1,
        );
        lemma_change_box_exists(s.pixels, after.pixels, seed.0, seed.1);
        assert(b.contains(seed.0, seed.1));
        lemma_boxed_change(before, after, s.pixels, b);
    }
}

// Strokes.

/// All that has changed since the pending stroke began lies in its box.
pub open spec fn stroke_covered<P>(s: PaintView<P>) -> bool {
    s.stroke_pre matches Some(pre) ==> forall|x: int, y: int| #[trigger]
        changed(pre, s.pixels, x, y) ==> (s.stroke_bbox matches Some(b) && b.contains(x, y))
}

/// A stroke is covered when it begins.
pub proof fn law_stroke_begins_covered<P>(s: PaintView<P>)
    ensures
        stroke_covered(s.begin_stroke()),
{
}

/// A covered stroke stays covered, whatever is painted in a box that is noted.
proof fn lemma_paint_covered<P>(s: PaintView<P>, region: Region, b: BboxView, c: Color)
    requires
        s.wf(),
        stroke_covered(s),
        forall|x: int, y: int| #[trigger] region(x, y) ==> b.contains(x, y),
    ensures
        stroke_covered(s.paint(region, b, c)),
        s.paint(region, b, c).wf(),
{
    let t = s.paint(region, b, c);
    if s.stroke_pre is Some {
        let pre = s.stroke_pre->0;
        assert forall|x: int, y: int| #[trigger] changed(pre, t.pixels, x, y) implies (
        t.stroke_bbox matches Some(n) && n.contains(x, y)) by {
            lemma_repaint_pixel(s.pixels, region, c, x, y);
            if !region(x, y) {
                assert(changed(pre, s.pixels, x, y));
            }
        }
    }
}

/// A covered stroke stays covered while it is painted on, with any brush and
/// in any colour.
pub proof fn law_stroke_stays_covered<P>(
    s: PaintView<P>,
    a: (int, int),
    b: (int, int),
    c: Color,
)
    requires
        s.wf(),
        stroke_covered(s),
    ensures
        stroke_covered(s.stamp_circle(a, c)),
        s.stamp_circle(a, c).wf(),
        stroke_covered(s.stroke_canvas(a, b, c)),
        s.stroke_canvas(a, b, c).wf(),
{
    let r = s.brush_size;
    if r >= 0 {
        assert forall|x: int, y: int| #[trigger] disc(a, r)(x, y) implies BboxView::point(
            a.0,
            a.1,
        ).expand(r).contains(x, y) by {
            lemma_disc_in_box(a, r, x, y);
        }
        lemma_paint_covered(s, disc(a, r), BboxView::point(a.0, a.1).expand(r), c);
        assert forall|x: int, y: int| #[trigger] brushed(a, b, r)(x, y) implies BboxView::from_two(
            a,
            b,
        ).expand(r).contains(x, y) by {
            law_stroke_in_box(a, b, r, x, y);
        }
        lemma_paint_covered(s, brushed(a, b, r), BboxView::from_two(a, b).expand(r), c);
    }
}

/// Ending a covered stroke records it, from the canvas on which it began, or
/// it has changed nothing.
pub proof fn law_stroke_commit<P>(s: PaintView<P>)
    requires
        s.wf(),
        stroke_covered(s),
        s.stroke_pre is Some,
    ensures
        ({
            let began = PaintView { pixels: s.stroke_pre->0, ..s };
            if s.stroke_bbox matches Some(b) && b.meets_canvas() {
                recorded(began, s.commit_stroke())
            } else {
                untouched(began, s.commit_stroke())
            }
        }),
{
    let pre = s.stroke_pre->0;
    let began = PaintView { pixels: pre, ..s };
    match s.stroke_bbox {
        Some(b) => {
            lemma_boxed_change(began, s.commit_stroke(), pre, b);
        },
        None => {
            assert forall|x: int, y: int| in_canvas(x, y) implies #[trigger] pixel(s.pixels, x, y)
                == pixel(pre, x, y) by {
                assert(!changed(pre, s.pixels, x, y));
            }
            lemma_same_pixels(s.pixels, pre);
        },
    }
}

/// The brush drawn along `path`, segment by segment.
pub open spec fn paint_path<P>(
    s: PaintView<P>,
    path: Seq<((int, int), (int, int))>,
) -> PaintView<P>
    decreases path.len(),
{
    if path.len() == 0 {
        s
    } else {
        paint_path(s, path.drop_last()).paint_stroke(path.last().0, path.last().1)
    }
}

proof fn lemma_path_covered<P>(s: PaintView<P>, path: Seq<((int, int), (int, int))>)
    requires
        s.wf(),
        stroke_covered(s),
    ensures
        stroke_covered(paint_path(s, path)),
        paint_path(s, path).wf(),
        paint_path(s, path).stroke_pre == s.stroke_pre,
        paint_path(s, path).history == s.history,
    decreases path.len(),
{
    if path.len() > 0 {
        let t = paint_path(s, path.drop_last());
        lemma_path_covered(s, path.drop_last());
        law_stroke_stays_covered(t, path.last().0, path.last().1, t.active_color());
    }
}

/// A whole freehand stroke, however many segments it has, is recorded as one
/// change, or it has changed nothing. (A stroke that was still pending before
/// is committed on its own.)
pub proof fn law_undo_stroke<P>(
    s: PaintView<P>,
    dot: (int, int),
    path: Seq<((int, int), (int, int))>,
)
    requires
        s.wf(),
    ensures
        ({
            let before = s.commit_stroke();
            let after = paint_path(s.begin_stroke().paint_dot(dot), path).commit_stroke();
            recorded(before, after) || untouched(before, after)
        }),
{
    lemma_commit_keeps_canvas(s);
    let s1 = s.begin_stroke();
    law_stroke_begins_covered(s);
    law_stroke_stays_covered(s1, dot, dot, s1.active_color());
    let s2 = s1.paint_dot(dot);
    lemma_path_covered(s2, path);
    law_stroke_commit(paint_path(s2, path));
}

// Showing changes.

/// No operation changes the canvas without marking it dirty, and none clears
/// the mark.
pub proof fn law_changes_are_dirty<P>(
    s: PaintView<P>,
    a: (int, int),
    b: (int, int),
    samples: Seq<(int, int)>,
    c: Color,
    action: Action<(i32, i32)>,
)
    ensures
        marks_changes(s, s.undo()),
        marks_changes(s, s.clear_canvas()),
        marks_changes(s, s.flood_fill(a)),
        marks_changes(s, s.commit_fill(a)),
        marks_changes(s, s.stamp_circle(a, c)),
        marks_changes(s, s.stroke_canvas(a, b, c)),
        marks_changes(s, s.stroke_outline(samples, c)),
        marks_changes(s, s.begin_stroke().paint_dot(a)),
        marks_changes(s, s.paint_stroke(a, b)),
        marks_changes(s, s.commit_stroke()),
        marks_changes(s, s.commit_crop(a, b)),
        marks_changes(s, s.commit_drag_tool(a, b, samples)),
        marks_changes(s, s.perform(action, samples)),
{
}

/// From `s` to `t` the canvas did not change or was marked dirty, and the
/// mark was not cleared.
pub open spec fn marks_changes<P>(s: PaintView<P>, t: PaintView<P>) -> bool {
    &&& t.pixels == s.pixels || t.dirty
    &&& s.dirty ==> t.dirty
}

// Flood fill.

/// Filling the same place again changes nothing more.
pub proof fn law_fill_again<P>(s: PaintView<P>, seed: (int, int))
    requires
        s.wf(),
    ensures
        s.flood_fill(seed).flood_fill(seed) == s.flood_fill(seed),
{
    if fillable(s.pixels, seed, s.color) {
        lemma_connected_self(s.pixels, seed);
        lemma_repaint_pixel(
            s.pixels,
            |x: int, y: int| connected(s.pixels, seed, (x, y)),
            s.color,
            seed.0,
            seed.1,
        );
    }
}

/// A fill sets the pixels connected with the seed to the fill colour, and no
/// others; each of those had the colour of the seed.
pub proof fn law_fill_pixels<P>(s: PaintView<P>, seed: (int, int), x: int, y: int)
    requires
        s.wf(),
        fillable(s.pixels, seed, s.color),
        in_canvas(x, y),
    ensures
        pixel(s.flood_fill(seed).pixels, x, y) == if connected(s.pixels, seed, (x, y)) {
            s.color
        } else {
            pixel(s.pixels, x, y)
        },
        changed(s.pixels, s.flood_fill(seed).pixels, x, y) <==> connected(s.pixels, seed, (x, y)),
        connected(s.pixels, seed, (x, y)) ==> pixel(s.pixels, x, y) == pixel(
            s.pixels,
            seed.0,
            seed.1,
        ),
{
    lemma_repaint_pixel(
        s.pixels,
        |u: int, v: int| connected(s.pixels, seed, (u, v)),
        s.color,
        x,
        y,
    );
    if connected(s.pixels, seed, (x, y)) {
        lemma_connected_color(s.pixels, seed, (x, y));
    }
}

/// Connection goes both ways.
pub proof fn law_connected_symmetric(pixels: Seq<Color>, a: (int, int), b: (int, int))
    requires
        connected(pixels, a, b),
    ensures
        connected(pixels, b, a),
{
    lemma_connected_color(pixels, a, b);
    let target = pixel(pixels, a.0, a.1);
    let path = choose|path: Seq<(int, int)>|
        #[trigger] is_path(pixels, target, path) && path[0] == a && path.last() == b;
    let back = path.reverse();
    assert forall|i: int, j: int| 0 <= i && j == i + 1 && j < back.len() implies adjacent(
        #[trigger] back[i],
        #[trigger] back[j],
    ) by {
        assert(adjacent(path[path.len() - 1 - j], path[path.len() - 1 - i]));
    }
    assert(is_path(pixels, target, back));
    assert(back[0] == b && back.last() == a);
}

/// Connection carries on.
pub proof fn law_connected_transitive(
    pixels: Seq<Color>,
    a: (int, int),
    b: (int, int),
    c: (int, int),
)
    requires
        connected(pixels, a, b),
        connected(pixels, b, c),
    ensures
        connected(pixels, a, c),
{
    lemma_connected_color(pixels, a, b);
    let target = pixel(pixels, a.0, a.1);
    let p = choose|p: Seq<(int, int)>|
        #[trigger] is_path(pixels, target, p) && p[0] == a && p.last() == b;
    let q = choose|q: Seq<(int, int)>|
        #[trigger] is_path(pixels, target, q) && q[0] == b && q.last() == c;
    let joined = p + q.drop_first();
    assert forall|i: int| 0 <= i < joined.len() implies in_canvas(
        (#[trigger] joined[i]).0,
        joined[i].1,
    ) && pixel(pixels, joined[i].0, joined[i].1) == target by {
        if i < p.len() {
            assert(joined[i] == p[i]);
        } else {
            assert(joined[i] == q[i - p.len() + 1]);
        }
    }
    assert forall|i: int, j: int| 0 <= i && j == i + 1 && j < joined.len() implies adjacent(
        #[trigger] joined[i],
        #[trigger] joined[j],
    ) by {
        if j < p.len() {
            assert(adjacent(p[i], p[j]));
        } else if i < p.len() {
            assert(adjacent(q[0], q[1]));
        } else {
            assert(adjacent(q[i - p.len() + 1], q[j - p.len() + 1]));
        }
    }
    assert(is_path(pixels, target, joined));
    assert(joined[0] == a);
    if q.len() == 1 {
        assert(joined =~= p);
    } else {
        assert(joined.last() == q.last());
    }
}

/// It does not matter at which pixel of an area a fill starts.
pub proof fn law_fill_any_seed(pixels: Seq<Color>, a: (int, int), b: (int, int), c: Color)
    requires
        connected(pixels, a, b),
    ensures
        flooded(pixels, a, c) == flooded(pixels, b, c),
{
    law_connected_symmetric(pixels, a, b);
    assert forall|x: int, y: int| #[trigger] connected(pixels, a, (x, y)) <==> connected(
        pixels,
        b,
        (x, y),
    ) by {
        if connected(pixels, a, (x, y)) {
            law_connected_transitive(pixels, b, a, (x, y));
        }
        if connected(pixels, b, (x, y)) {
            law_connected_transitive(pixels, a, b, (x, y));
        }
    }
    assert(flooded(pixels, a, c) =~= flooded(pixels, b, c));
}

// Crop.

/// Every pixel of a cropped canvas shows a pixel of the selection, and the
/// top left pixel shows its top left corner.
pub proof fn law_crop_pixels<P>(s: PaintView<P>, a: (int, int), b: (int, int), x: int, y: int)
    requires
        s.wf(),
        croppable(a, b),
        in_canvas(x, y),
    ensures
        is_canvas(s.commit_crop(a, b).pixels),
        pixel(s.commit_crop(a, b).pixels, x, y) == pixel(
            s.pixels,
            source_x(a, b, x),
            source_y(a, b, y),
        ),
        select_from(a.0, b.0) <= source_x(a, b, x) <= select_to(a.0, b.0, CANVAS_W as int),
        select_from(a.1, b.1) <= source_y(a, b, y) <= select_to(a.1, b.1, CANVAS_H as int),
        in_canvas(source_x(a, b, x), source_y(a, b, y)),
        BboxView::from_two(a, b).contains(source_x(a, b, x), source_y(a, b, y)),
        pixel(s.commit_crop(a, b).pixels, 0, 0) == pixel(
            s.pixels,
            select_from(a.0, b.0),
            select_from(a.1, b.1),
        ),
{
    lemma_index(x, y);
    lemma_index(0, 0);
    lemma_source_in_selection(a, b, x, y);
}

/// A selection that holds no pixel of the canvas, on whichever side it lies,
/// changes nothing.
pub proof fn law_crop_misses<P>(s: PaintView<P>, a: (int, int), b: (int, int))
    requires
        !BboxView::from_two(a, b).meets_canvas(),
    ensures
        s.commit_crop(a, b) == s,
{
}

/// It does not matter from which corner a selection was dragged.
pub proof fn law_crop_corners(pixels: Seq<Color>, a: (int, int), b: (int, int))
    ensures
        croppable(a, b) == croppable(b, a),
        croppable(a, b) == croppable((a.0, b.1), (b.0, a.1)),
        cropped(pixels, a, b) == cropped(pixels, b, a),
        cropped(pixels, a, b) == cropped(pixels, (a.0, b.1), (b.0, a.1)),
{
    assert(cropped(pixels, a, b) =~= cropped(pixels, b, a));
    assert(cropped(pixels, a, b) =~= cropped(pixels, (a.0, b.1), (b.0, a.1)));
}

// Boxes.

/// The union of two boxes holds both, and any box that holds both holds it.
pub proof fn law_union_least(a: BboxView, b: BboxView, c: BboxView)
    requires
        a.nonempty(),
        b.nonempty(),
    ensures
        forall|x: int, y: int|
            a.contains(x, y) || b.contains(x, y) ==> #[trigger] a.union(b).contains(x, y),
        (forall|x: int, y: int| a.contains(x, y) || b.contains(x, y) ==> #[trigger] c.contains(x, y))
            ==> (forall|x: int, y: int| a.union(b).contains(x, y) ==> #[trigger] c.contains(x, y)),
{
    if forall|x: int, y: int| a.contains(x, y) || b.contains(x, y) ==> #[trigger] c.contains(x, y) {
        assert(a.contains(a.lx, a.ty) && a.contains(a.rx, a.by));
        assert(b.contains(b.lx, b.ty) && b.contains(b.rx, b.by));
        assert(c.contains(a.lx, a.ty) && c.contains(a.rx, a.by));
        assert(c.contains(b.lx, b.ty) && c.contains(b.rx, b.by));
    }
}

/// The order in which boxes are united does not matter.
pub proof fn law_union_order(a: BboxView, b: BboxView, c: BboxView)
    ensures
        a.union(a) == a,
        a.union(b) == b.union(a),
        a.union(b).union(c) == a.union(b.union(c)),
{
}

/// The box of two points is the union of their boxes, in either order.
pub proof fn law_from_two(a: (int, int), b: (int, int))
    ensures
        BboxView::from_two(a, b) == BboxView::from_two(b, a),
        BboxView::from_two(a, b) == BboxView::point(a.0, a.1).union(BboxView::point(b.0, b.1)),
{
}

/// Expanding a box and shrinking it by as much gives it back; expanding goes
/// along with uniting.
pub proof fn law_expand(a: BboxView, b: BboxView, r: int, q: int)
    ensures
        a.expand(r).expand(-r) == a,
        a.expand(r).expand(q) == a.expand(r + q),
        a.union(b).expand(r) == a.expand(r).union(b.expand(r)),
{
}

/// Clipping keeps the pixels of a box that are on the canvas, and no others.
pub proof fn law_clip(b: BboxView, x: int, y: int)
    ensures
        b.clip().contains(x, y) <==> b.contains(x, y) && in_canvas(x, y),
        b.meets_canvas() <==> exists|u: int, v: int|
            #[trigger] b.contains(u, v) && in_canvas(u, v),
        b.clip().clip() == b.clip(),
{
    let c = b.clip();
    if b.meets_canvas() {
        assert(b.contains(c.lx, c.ty) && in_canvas(c.lx, c.ty));
    }
}

/// The ellipse between two corners stays in their box exactly if the box is at
/// least two pixels wide and high; a smaller one reaches beyond it.
pub proof fn law_ellipse_in_box(a: (int, int), b: (int, int), f: EllipseFrame)
    requires
        is_ellipse_frame(f, a, b),
    ensures
        ({
            let r = BboxView::from_two(a, b);
            &&& 2 * r.lx <= f.twice_cx - 2 * f.rx && f.twice_cx + 2 * f.rx <= 2 * r.rx
                <==> r.rx - r.lx >= 2
            &&& 2 * r.ty <= f.twice_cy - 2 * f.ry && f.twice_cy + 2 * f.ry <= 2 * r.by
                <==> r.by - r.ty >= 2
        }),
{
}

// The pointer.

/// A drag goes from where it started to where the pointer is released: it
/// starts when the button is down on the canvas, holding the button keeps the
/// start, and releasing it gives the drag and forgets the start.
pub proof fn law_drag<P>(
    s: PaintView<P>,
    down: Pointer<P>,
    held: Seq<Pointer<P>>,
    up: Pointer<P>,
    a: P,
)
    requires
        s.drags(),
        s.drag_start is None,
        down.down && down.inside && down.hover == Some(a),
        forall|i: int| 0 <= i < held.len() ==> (#[trigger] held[i]).down,
        !up.down,
    ensures
        s.decide(down) == Action::<P>::Idle,
        ({
            let t = track_all(s.track(down), held);
            &&& t == s.track(down)
            &&& forall|i: int|
                0 <= i < held.len() ==> t.decide(#[trigger] held[i]) == Action::<P>::Idle
            &&& t.decide(up) == Action::Drag(
                a,
                match up.hover {
                    Some(b) => b,
                    None => a,
                },
            )
            &&& t.track(up).drag_start is None
        }),
    decreases held.len(),
{
    if held.len() > 0 {
        let init = held.drop_last();
        assert forall|i: int| 0 <= i < init.len() implies (#[trigger] init[i]).down by {
            assert(init[i] == held[i]);
        }
        law_drag(s, down, init, up, a);
        assert(held[held.len() - 1].down);
    }
}

/// The painting after a row of frames, as far as the pointer is tracked.
pub open spec fn track_all<P>(s: PaintView<P>, frames: Seq<Pointer<P>>) -> PaintView<P>
    decreases frames.len(),
{
    if frames.len() == 0 {
        s
    } else {
        track_all(s, frames.drop_last()).track(frames.last())
    }
}

/// The segments of a freehand stroke join up: where one frame painted to, the
/// next goes on from, until the pointer leaves the canvas or is released.
pub proof fn law_stroke_joins<P>(s: PaintView<P>, p: Pointer<P>, q: Pointer<P>)
    requires
        s.brushes(),
    ensures
        s.decide(p) matches Action::Begin(x) ==> s.track(p).last_pos == Some(x),
        s.decide(p) matches Action::Continue(w, x) ==> s.last_pos == Some(w) && s.track(
            p,
        ).last_pos == Some(x),
        s.decide(p) is Idle || s.decide(p) is End ==> s.track(p).last_pos is None,
        s.track(p).decide(q) is Continue ==> s.decide(p) is Begin || s.decide(p) is Continue,
        s.track(p).decide(q) is Begin ==> s.decide(p) is Idle || s.decide(p) is End,
        s.decide(p) is End <==> !p.down,
{
}

/// The preview shows what releasing the button there would draw.
pub proof fn law_preview<P>(s: PaintView<P>, up: Pointer<P>)
    requires
        !up.down,
    ensures
        s.preview(up.hover) is Some <==> s.decide(up) is Drag,
        match s.preview(up.hover) {
            Some(Preview::Line(a, b)) => s.tool == Tool::Line && s.decide(up) == Action::Drag(a, b),
            Some(Preview::Rect(a, b)) => s.tool == Tool::Shape && s.shape_kind == ShapeKind::Rect
                && s.decide(up) == Action::Drag(a, b),
            Some(Preview::Ellipse(a, b)) => s.tool == Tool::Shape && s.shape_kind
                == ShapeKind::Ellipse && s.decide(up) == Action::Drag(a, b),
            Some(Preview::Crop(a, b)) => s.tool == Tool::Crop && s.decide(up) == Action::Drag(a, b),
            None => true,
        },
{
}

/// Tracking the pointer does not touch the canvas, the history or the stroke.
pub proof fn law_track_keeps_painting<P>(s: PaintView<P>, p: Pointer<P>)
    ensures
        s.track(p) == (PaintView {
            drag_start: s.track(p).drag_start,
            last_pos: s.track(p).last_pos,
            ..s
        }),
        !s.drags() ==> s.track(p).drag_start == s.drag_start,
        !s.brushes() ==> s.track(p).last_pos == s.last_pos,
{
}

/// Every action but the beginning and the going on of a stroke, carried out
/// with no stroke pending, is recorded or changes nothing: undo takes it back.
pub proof fn law_undo_action<P>(
    s: PaintView<P>,
    action: Action<(i32, i32)>,
    samples: Seq<(int, int)>,
)
    requires
        s.wf(),
        s.stroke_pre is None,
        !(action is Begin || action is Continue),
    ensures
        recorded(s, s.perform(action, samples)) || untouched(s, s.perform(action, samples)),
{
    match action {
        Action::Fill(p) => {
            law_undo_fill(s, widen(p));
        },
        Action::Drag(a, b) => {
            if s.tool == Tool::Line {
                law_undo_line(s, widen(a), widen(b), samples);
            } else if s.tool == Tool::Shape {
                law_undo_shape(s, widen(a), widen(b), samples);
            } else if s.tool == Tool::Crop {
                law_undo_crop(s, widen(a), widen(b), samples);
            }
        },
        _ => {},
    }
}

} // verus!
