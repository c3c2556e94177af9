//! What each operation does, told by what can be seen of it: the colour of
//! every pixel afterwards, what undo will find, and what stays as it was.

use vstd::prelude::*;

use crate::bbox::BboxView;
use crate::canvas::{in_canvas, is_canvas, lemma_repaint_pixel, pixel};
use crate::color::Color;
use crate::disc::disc;
use crate::fill::{change_box, connected};
use crate::input::{Action, Pointer, Preview};
use crate::laws::{law_stroke_ends, lemma_commit_keeps_canvas};
use crate::paint::widen;
use crate::patch::{full_snapshot, snapshot, PatchView};
use crate::state::{
    brushed, hull, near_line, outlined, pushed, PaintView, ShapeKind, Tool,
};
use crate::stroke::lemma_hull_corners;
use crate::terms::{
    law_blank, law_cropped, law_flooded, law_near_outline, law_near_rectangle, law_restore,
    near_sides, selects,
};

verus! {

/// At `(x, y)`, `after` has the colour `c` if `hit`, and otherwise the colour
/// that `before` has there.
pub open spec fn colored(
    before: Seq<Color>,
    after: Seq<Color>,
    hit: bool,
    c: Color,
    x: int,
    y: int,
) -> bool {
    &&& after.len() == before.len()
    &&& after[y * 1200 + x] == if hit {
        c
    } else {
        before[y * 1200 + x]
    }
}

/// The box of two points, widened by `r` on every side.
pub open spec fn reach(a: (int, int), b: (int, int), r: int) -> BboxView {
    BboxView {
        lx: (if a.0 <= b.0 {
            a.0
        } else {
            b.0
        }) - r,
        ty: (if a.1 <= b.1 {
            a.1
        } else {
            b.1
        }) - r,
        rx: (if a.0 <= b.0 {
            b.0
        } else {
            a.0
        }) + r,
        by: (if a.1 <= b.1 {
            b.1
        } else {
            a.1
        }) + r,
    }
}

/// The box of a pending stroke that has gone on to touch `b`.
pub open spec fn grown(prev: Option<BboxView>, b: BboxView) -> Option<BboxView> {
    match prev {
        Some(p) => Some(p.union(b)),
        None => Some(b),
    }
}

/// The history with one more snapshot, if there is anything to snapshot.
pub open spec fn with_snapshot(history: Seq<PatchView>, src: Seq<Color>, b: BboxView) -> Seq<
    PatchView,
> {
    match snapshot(src, b) {
        Some(p) => pushed(history, p),
        None => history,
    }
}

/// `t` differs from `s` only in the canvas, the dirty mark and the box of a
/// pending stroke; with a brush of negative size not even there. A pending
/// stroke notes that it touched `b`.
pub open spec fn painted_in<P>(s: PaintView<P>, t: PaintView<P>, b: BboxView) -> bool {
    if s.brush_size < 0 {
        t == s
    } else {
        t == (PaintView {
            pixels: t.pixels,
            dirty: true,
            stroke_bbox: if s.stroke_pre is Some {
                grown(s.stroke_bbox, b)
            } else {
                s.stroke_bbox
            },
            ..s
        })
    }
}

// The start.

/// A new painting is white, with a black brush of size five and nothing else
/// going on.
pub proof fn law_fresh<P>(x: int, y: int)
    requires
        in_canvas(x, y),
    ensures
        ({
            let s = PaintView::<P>::fresh();
            &&& s.wf()
            &&& s.pixels[y * 1200 + x] == (Color { r: 255, g: 255, b: 255, a: 255 })
            &&& s.tool == Tool::Brush
            &&& s.shape_kind == ShapeKind::Rect
            &&& s.brush_size == 5
            &&& s.color == (Color { r: 0, g: 0, b: 0, a: 255 })
            &&& s.last_pos is None
            &&& s.drag_start is None
            &&& s.dirty
            &&& s.history.len() == 0
            &&& s.stroke_pre is None
            &&& s.stroke_bbox is None
        }),
{
    law_blank(Color::white(), x, y);
}

/// The eraser paints white, every other tool the chosen colour.
pub proof fn law_active_color<P>(s: PaintView<P>)
    ensures
        s.tool == Tool::Eraser ==> s.active_color() == (Color { r: 255, g: 255, b: 255, a: 255 }),
        s.tool != Tool::Eraser ==> s.active_color() == s.color,
{
}

// History.

/// Recording adds one patch and leaves all else as it was.
pub proof fn law_push_effect<P>(s: PaintView<P>, p: PatchView, b: BboxView)
    ensures
        s.push_patch(p) == (PaintView { history: pushed(s.history, p), ..s }),
        s.push_full_patch() == (PaintView {
            history: pushed(s.history, full_snapshot(s.pixels)),
            ..s
        }),
        s.push_bbox_patch(b) == (PaintView {
            history: with_snapshot(s.history, s.pixels, b),
            ..s
        }),
{
}

/// Ending a stroke records what was in its box when it began, and forgets the
/// stroke; without one, nothing happens. The canvas stays as it is.
pub proof fn law_commit_stroke_effect<P>(s: PaintView<P>)
    requires
        s.wf(),
    ensures
        s.commit_stroke() == (PaintView {
            history: match (s.stroke_pre, s.stroke_bbox) {
                (Some(pre), Some(b)) => with_snapshot(s.history, pre, b),
                _ => s.history,
            },
            stroke_pre: None,
            stroke_bbox: None,
            ..s
        }),
{
}

/// Beginning a stroke ends the one before, and keeps the canvas as it is as
/// the pre-image.
pub proof fn law_begin_stroke_effect<P>(s: PaintView<P>)
    requires
        s.wf(),
    ensures
        s.begin_stroke().pixels == s.pixels,
        s.begin_stroke() == (PaintView {
            stroke_pre: Some(s.pixels),
            stroke_bbox: None,
            ..s.commit_stroke()
        }),
{
    law_commit_stroke_effect(s);
}

/// Only a pending stroke notes what it touches.
pub proof fn law_extend_effect<P>(s: PaintView<P>, b: BboxView)
    ensures
        s.extend_stroke_bbox(b) == if s.stroke_pre is Some {
            PaintView { stroke_bbox: grown(s.stroke_bbox, b), ..s }
        } else {
            s
        },
{
}

/// Undo sets each pixel under the latest patch to what the patch holds, leaves
/// the others, and takes the patch off the history.
pub proof fn law_undo_effect<P>(s: PaintView<P>, x: int, y: int)
    requires
        s.wf(),
        in_canvas(x, y),
    ensures
        s.history.len() == 0 ==> s.undo() == s,
        s.history.len() > 0 ==> {
            let t = s.undo();
            let p = s.history[s.history.len() - 1];
            &&& colored(
                s.pixels,
                t.pixels,
                p.x <= x < p.x + p.w && p.y <= y < p.y + p.h,
                p.pixels[(y - p.y) * p.w + (x - p.x)],
                x,
                y,
            )
            &&& t == (PaintView {
                pixels: t.pixels,
                dirty: true,
                history: s.history.subrange(0, s.history.len() - 1),
                ..s
            })
        },
{
    if s.history.len() > 0 {
        law_restore(s.pixels, s.history.last(), x, y);
        assert(s.history.drop_last() =~= s.history.subrange(0, s.history.len() - 1));
    }
}

// Painting.

/// A stamp colours the pixels at most the brush size away from its centre.
pub proof fn law_stamp_effect<P>(s: PaintView<P>, c: (int, int), color: Color, x: int, y: int)
    requires
        s.wf(),
        in_canvas(x, y),
    ensures
        ({
            let t = s.stamp_circle(c, color);
            let r = s.brush_size;
            &&& colored(
                s.pixels,
                t.pixels,
                r >= 0 && (x - c.0) * (x - c.0) + (y - c.1) * (y - c.1) <= r * r,
                color,
                x,
                y,
            )
            &&& painted_in(s, t, reach(c, c, r))
        }),
{
    lemma_repaint_pixel(s.pixels, disc(c, s.brush_size), color, x, y);
}

/// A dot is a stamp in the active colour.
pub proof fn law_dot_effect<P>(s: PaintView<P>, c: (int, int), x: int, y: int)
    requires
        s.wf(),
        in_canvas(x, y),
    ensures
        ({
            let t = s.paint_dot(c);
            let r = s.brush_size;
            &&& colored(
                s.pixels,
                t.pixels,
                r >= 0 && (x - c.0) * (x - c.0) + (y - c.1) * (y - c.1) <= r * r,
                s.active_color(),
                x,
                y,
            )
            &&& painted_in(s, t, reach(c, c, r))
        }),
{
    law_stamp_effect(s, c, s.active_color(), x, y);
}

/// A stroke colours the pixels near the straight line between its ends.
pub proof fn law_stroke_effect<P>(
    s: PaintView<P>,
    a: (int, int),
    b: (int, int),
    color: Color,
    x: int,
    y: int,
)
    requires
        s.wf(),
        in_canvas(x, y),
    ensures
        ({
            let t = s.stroke_canvas(a, b, color);
            &&& colored(s.pixels, t.pixels, near_line(a, b, s.brush_size, x, y), color, x, y)
            &&& painted_in(s, t, reach(a, b, s.brush_size))
        }),
{
    lemma_repaint_pixel(s.pixels, brushed(a, b, s.brush_size), color, x, y);
}

/// A freehand segment, of the brush or of the eraser, colours the pixels near
/// the straight line between its ends in the active colour.
pub proof fn law_paint_stroke_effect<P>(
    s: PaintView<P>,
    a: (int, int),
    b: (int, int),
    x: int,
    y: int,
)
    requires
        s.wf(),
        in_canvas(x, y),
    ensures
        ({
            let t = s.paint_stroke(a, b);
            let c = if s.tool == Tool::Eraser {
                Color { r: 255, g: 255, b: 255, a: 255 }
            } else {
                s.color
            };
            &&& colored(s.pixels, t.pixels, near_line(a, b, s.brush_size, x, y), c, x, y)
            &&& painted_in(s, t, reach(a, b, s.brush_size))
        }),
{
    law_stroke_effect(s, a, b, s.active_color(), x, y);
}

/// A closed outline colours the pixels near one of its edges.
pub proof fn law_outline_effect<P>(
    s: PaintView<P>,
    points: Seq<(int, int)>,
    color: Color,
    x: int,
    y: int,
)
    requires
        s.wf(),
        in_canvas(x, y),
    ensures
        ({
            let t = s.stroke_outline(points, color);
            &&& colored(
                s.pixels,
                t.pixels,
                exists|i: int|
                    0 <= i < points.len() && near_line(
                        #[trigger] points[i],
                        points[(i + 1) % (points.len() as int)],
                        s.brush_size,
                        x,
                        y,
                    ),
                color,
                x,
                y,
            )
            &&& if points.len() == 0 {
                t == s
            } else {
                painted_in(s, t, hull(points).expand(s.brush_size))
            }
        }),
{
    let n = points.len() as int;
    lemma_repaint_pixel(s.pixels, outlined(points, n, s.brush_size), color, x, y);
    law_near_outline(points, s.brush_size, x, y);
}

/// The line tool colours the pixels near the straight line from the press to
/// the release in the chosen colour.
pub proof fn law_line_effect<P>(s: PaintView<P>, a: (int, int), b: (int, int), x: int, y: int)
    requires
        s.wf(),
        in_canvas(x, y),
    ensures
        ({
            let t = s.commit_line(a, b);
            &&& colored(s.pixels, t.pixels, near_line(a, b, s.brush_size, x, y), s.color, x, y)
            &&& painted_in(s, t, reach(a, b, s.brush_size))
        }),
{
    law_stroke_effect(s, a, b, s.color, x, y);
}

/// `(x, y)` is near the outline of the chosen shape: of the four sides of the
/// rectangle between `a` and `b`, or of the closed outline through `samples`.
pub open spec fn near_shape(
    kind: ShapeKind,
    a: (int, int),
    b: (int, int),
    samples: Seq<(int, int)>,
    r: int,
    x: int,
    y: int,
) -> bool {
    match kind {
        ShapeKind::Rect => near_sides(a, b, r, x, y),
        ShapeKind::Ellipse => exists|i: int|
            0 <= i < samples.len() && near_line(
                #[trigger] samples[i],
                samples[(i + 1) % (samples.len() as int)],
                r,
                x,
                y,
            ),
    }
}

/// The shape tool colours the pixels near the outline of the chosen shape in
/// the chosen colour.
pub proof fn law_shape_effect<P>(
    s: PaintView<P>,
    a: (int, int),
    b: (int, int),
    samples: Seq<(int, int)>,
    x: int,
    y: int,
)
    requires
        s.wf(),
        in_canvas(x, y),
    ensures
        ({
            let t = s.commit_shape(a, b, samples);
            &&& colored(
                s.pixels,
                t.pixels,
                near_shape(s.shape_kind, a, b, samples, s.brush_size, x, y),
                s.color,
                x,
                y,
            )
            &&& t == (PaintView {
                pixels: t.pixels,
                dirty: t.dirty,
                stroke_bbox: t.stroke_bbox,
                ..s
            })
            &&& t.dirty == (s.dirty || (s.brush_size >= 0 && (s.shape_kind == ShapeKind::Rect
                || samples.len() > 0)))
            &&& s.stroke_pre is None ==> t.stroke_bbox == s.stroke_bbox
        }),
{
    let points = s.shape_points(a, b, samples);
    law_outline_effect(s, points, s.color, x, y);
    law_near_outline(points, s.brush_size, x, y);
    if s.shape_kind == ShapeKind::Rect {
        law_near_rectangle(a, b, s.brush_size, x, y);
    }
}

// Whole-canvas operations.

/// A flood fill colours the area of the seed in the chosen colour, if the seed
/// is on the canvas and in another colour.
pub proof fn law_flood_fill_effect<P>(s: PaintView<P>, seed: (int, int), x: int, y: int)
    requires
        s.wf(),
        in_canvas(x, y),
    ensures
        ({
            let t = s.flood_fill(seed);
            let on = 0 <= seed.0 < 1200 && 0 <= seed.1 < 800 && s.pixels[seed.1 * 1200 + seed.0]
                != s.color;
            &&& colored(
                s.pixels,
                t.pixels,
                on && connected(s.pixels, seed, (x, y)),
                s.color,
                x,
                y,
            )
            &&& t == (PaintView { pixels: t.pixels, dirty: s.dirty || on, ..s })
        }),
{
    law_flooded(s.pixels, seed, s.color, x, y);
}

/// The fill tool colours the area of the seed in the chosen colour, and no
/// other pixel, and records the box of that area; if there is nothing to fill,
/// it only ends a pending stroke.
pub proof fn law_commit_fill_effect<P>(s: PaintView<P>, seed: (int, int), x: int, y: int)
    requires
        s.wf(),
        in_canvas(x, y),
    ensures
        ({
            let before = s.commit_stroke();
            let t = s.commit_fill(seed);
            let on = 0 <= seed.0 < 1200 && 0 <= seed.1 < 800 && s.pixels[seed.1 * 1200 + seed.0]
                != s.color;
            &&& colored(
                s.pixels,
                t.pixels,
                on && connected(s.pixels, seed, (x, y)),
                s.color,
                x,
                y,
            )
            &&& t == (PaintView {
                pixels: t.pixels,
                dirty: s.dirty || on,
                history: if on {
                    with_snapshot(before.history, s.pixels, change_box(s.pixels, t.pixels))
                } else {
                    before.history
                },
                ..before
            })
        }),
{
    law_commit_stroke_effect(s);
    law_flooded(s.pixels, seed, s.color, x, y);
}

/// Clearing makes every pixel white, and records the canvas as it was.
pub proof fn law_clear_effect<P>(s: PaintView<P>, x: int, y: int)
    requires
        s.wf(),
        in_canvas(x, y),
    ensures
        ({
            let before = s.commit_stroke();
            let t = s.clear_canvas();
            &&& colored(
                s.pixels,
                t.pixels,
                true,
                Color { r: 255, g: 255, b: 255, a: 255 },
                x,
                y,
            )
            &&& t == (PaintView {
                pixels: t.pixels,
                dirty: true,
                history: pushed(before.history, full_snapshot(s.pixels)),
                ..before
            })
        }),
{
    law_commit_stroke_effect(s);
    law_blank(Color::white(), x, y);
}

/// `after` shows at `(x, y)` the pixel that lies as far into the selection from
/// `(lx, ty)` to `(rx, by)` as `(x, y)` lies into the canvas.
pub open spec fn stretched(
    before: Seq<Color>,
    after: Seq<Color>,
    lx: int,
    ty: int,
    rx: int,
    by: int,
    x: int,
    y: int,
) -> bool {
    exists|u: int, v: int|
        {
            &&& 1200 * (u - lx) <= x * (rx - lx) < 1200 * (u - lx + 1)
            &&& 800 * (v - ty) <= y * (by - ty) < 800 * (v - ty + 1)
            &&& lx <= u < rx
            &&& ty <= v < by
            &&& pixel(after, x, y) == #[trigger] pixel(before, u, v)
        }
}

/// A crop stretches the selection evenly over the whole canvas, if it reaches
/// over at least two pixels each way; otherwise it changes nothing.
pub proof fn law_crop_effect<P>(
    s: PaintView<P>,
    a: (int, int),
    b: (int, int),
    lx: int,
    ty: int,
    rx: int,
    by: int,
    x: int,
    y: int,
)
    requires
        s.wf(),
        in_canvas(x, y),
        selects(a.0, b.0, 1200, lx, rx),
        selects(a.1, b.1, 800, ty, by),
    ensures
        ({
            let t = s.commit_crop(a, b);
            if rx - lx >= 2 && by - ty >= 2 {
                &&& is_canvas(t.pixels)
                &&& stretched(s.pixels, t.pixels, lx, ty, rx, by, x, y)
                &&& t == (PaintView { pixels: t.pixels, dirty: true, ..s })
            } else {
                t == s
            }
        }),
{
    law_cropped(s.pixels, a, b, lx, rx, ty, by, x, y);
}

// Drag tools.

/// The box of a shape spans its two corners and, of an ellipse, its points.
pub proof fn law_drag_boxes<P>(
    s: PaintView<P>,
    a: (int, int),
    b: (int, int),
    samples: Seq<(int, int)>,
)
    ensures
        s.line_or_shape_bbox(a, b) == reach(a, b, s.brush_size),
        s.shape_bbox(a, b, samples) == s.shape_box(a, b, samples).expand(s.brush_size),
        s.shape_box(a, b, samples) == if s.shape_kind == ShapeKind::Ellipse && samples.len() > 0 {
            reach(a, b, 0).union(hull(samples))
        } else {
            reach(a, b, 0)
        },
{
    lemma_hull_corners(a, b);
}

/// Releasing the line tool draws the straight line from `a` to `b`, end points
/// included, in the chosen colour, and records its box.
pub proof fn law_drag_line_effect<P>(
    s: PaintView<P>,
    a: (int, int),
    b: (int, int),
    samples: Seq<(int, int)>,
    x: int,
    y: int,
)
    requires
        s.wf(),
        s.tool == Tool::Line,
        in_canvas(x, y),
    ensures
        ({
            let before = s.commit_stroke();
            let t = s.commit_drag_tool(a, b, samples);
            let r = s.brush_size;
            &&& colored(s.pixels, t.pixels, near_line(a, b, r, x, y), s.color, x, y)
            &&& r >= 0 && ((x, y) == a || (x, y) == b) ==> t.pixels[y * 1200 + x] == s.color
            &&& t == (PaintView {
                pixels: t.pixels,
                dirty: s.dirty || r >= 0,
                history: with_snapshot(before.history, s.pixels, reach(a, b, r)),
                ..before
            })
        }),
{
    lemma_commit_keeps_canvas(s);
    law_commit_stroke_effect(s);
    let p = s.commit_stroke().push_bbox_patch(s.line_or_shape_bbox(a, b));
    assert(p.pixels == s.pixels);
    lemma_repaint_pixel(s.pixels, brushed(a, b, s.brush_size), s.color, x, y);
    if s.brush_size >= 0 {
        law_stroke_ends(s, a, b, s.color);
    }
}

/// Releasing the shape tool draws the outline of the chosen shape, and nothing
/// else, in the chosen colour, and records its box.
pub proof fn law_drag_shape_effect<P>(
    s: PaintView<P>,
    a: (int, int),
    b: (int, int),
    samples: Seq<(int, int)>,
    x: int,
    y: int,
)
    requires
        s.wf(),
        s.tool == Tool::Shape,
        in_canvas(x, y),
    ensures
        ({
            let before = s.commit_stroke();
            let t = s.commit_drag_tool(a, b, samples);
            let r = s.brush_size;
            let drawn = r >= 0 && (s.shape_kind == ShapeKind::Rect || samples.len() > 0);
            &&& colored(
                s.pixels,
                t.pixels,
                near_shape(s.shape_kind, a, b, samples, r, x, y),
                s.color,
                x,
                y,
            )
            &&& t == (PaintView {
                pixels: t.pixels,
                dirty: s.dirty || drawn,
                history: with_snapshot(before.history, s.pixels, s.shape_bbox(a, b, samples)),
                ..before
            })
        }),
{
    lemma_commit_keeps_canvas(s);
    law_commit_stroke_effect(s);
    let before = s.commit_stroke();
    let points = s.shape_points(a, b, samples);
    let n = points.len() as int;
    let p = before.push_bbox_patch(before.shape_bbox(a, b, samples));
    assert(p.pixels == s.pixels);
    assert(before.shape_bbox(a, b, samples) == s.shape_bbox(a, b, samples));
    lemma_repaint_pixel(s.pixels, outlined(points, n, s.brush_size), s.color, x, y);
    law_near_outline(points, s.brush_size, x, y);
    if s.shape_kind == ShapeKind::Rect {
        law_near_rectangle(a, b, s.brush_size, x, y);
    }
}

/// Releasing the crop tool records the canvas and crops it.
pub proof fn law_drag_crop_effect<P>(
    s: PaintView<P>,
    a: (int, int),
    b: (int, int),
    samples: Seq<(int, int)>,
    lx: int,
    ty: int,
    rx: int,
    by: int,
    x: int,
    y: int,
)
    requires
        s.wf(),
        s.tool == Tool::Crop,
        in_canvas(x, y),
        selects(a.0, b.0, 1200, lx, rx),
        selects(a.1, b.1, 800, ty, by),
    ensures
        ({
            let before = s.commit_stroke();
            let t = s.commit_drag_tool(a, b, samples);
            let large = rx - lx >= 2 && by - ty >= 2;
            &&& is_canvas(t.pixels)
            &&& large ==> stretched(s.pixels, t.pixels, lx, ty, rx, by, x, y)
            &&& !large ==> t.pixels == s.pixels
            &&& t == (PaintView {
                pixels: t.pixels,
                dirty: s.dirty || large,
                history: pushed(before.history, full_snapshot(s.pixels)),
                ..before
            })
        }),
{
    lemma_commit_keeps_canvas(s);
    law_commit_stroke_effect(s);
    law_cropped(s.pixels, a, b, lx, rx, ty, by, x, y);
}

/// With any other tool, the release of a drag only ends a pending stroke.
pub proof fn law_drag_other_effect<P>(
    s: PaintView<P>,
    a: (int, int),
    b: (int, int),
    samples: Seq<(int, int)>,
)
    requires
        s.tool == Tool::Brush || s.tool == Tool::Eraser || s.tool == Tool::FloodFill,
    ensures
        s.commit_drag_tool(a, b, samples) == s.commit_stroke(),
{
}

// Actions.

/// The colour of every pixel after an action.
pub proof fn law_perform_pixels<P>(
    s: PaintView<P>,
    action: Action<(i32, i32)>,
    samples: Seq<(int, int)>,
    x: int,
    y: int,
)
    requires
        s.wf(),
        in_canvas(x, y),
    ensures
        ({
            let t = s.perform(action, samples);
            let r = s.brush_size;
            let brush = if s.tool == Tool::Eraser {
                Color { r: 255, g: 255, b: 255, a: 255 }
            } else {
                s.color
            };
            match action {
                Action::Idle => t == s,
                Action::End => t == s.commit_stroke(),
                Action::Fill(p) => {
                    let seed = (p.0 as int, p.1 as int);
                    let on = 0 <= p.0 < 1200 && 0 <= p.1 < 800 && s.pixels[p.1 * 1200 + p.0]
                        != s.color;
                    colored(
                        s.pixels,
                        t.pixels,
                        on && connected(s.pixels, seed, (x, y)),
                        s.color,
                        x,
                        y,
                    )
                },
                Action::Begin(p) => {
                    &&& colored(
                        s.pixels,
                        t.pixels,
                        r >= 0 && (x - p.0) * (x - p.0) + (y - p.1) * (y - p.1) <= r * r,
                        brush,
                        x,
                        y,
                    )
                    &&& t.stroke_pre == Some(s.pixels)
                    &&& t.history == s.commit_stroke().history
                },
                Action::Continue(p, q) => {
                    let a = (p.0 as int, p.1 as int);
                    let b = (q.0 as int, q.1 as int);
                    &&& colored(s.pixels, t.pixels, near_line(a, b, r, x, y), brush, x, y)
                    &&& painted_in(s, t, reach(a, b, r))
                },
                Action::Drag(p, q) => {
                    let a = (p.0 as int, p.1 as int);
                    let b = (q.0 as int, q.1 as int);
                    match s.tool {
                        Tool::Line => colored(
                            s.pixels,
                            t.pixels,
                            near_line(a, b, r, x, y),
                            s.color,
                            x,
                            y,
                        ),
                        Tool::Shape => colored(
                            s.pixels,
                            t.pixels,
                            near_shape(s.shape_kind, a, b, samples, r, x, y),
                            s.color,
                            x,
                            y,
                        ),
                        Tool::Crop => forall|lx: int, ty: int, rx: int, by: int|
                            #[trigger] selects(a.0, b.0, 1200, lx, rx) && #[trigger] selects(
                                a.1,
                                b.1,
                                800,
                                ty,
                                by,
                            ) ==> if rx - lx >= 2 && by - ty >= 2 {
                                stretched(s.pixels, t.pixels, lx, ty, rx, by, x, y)
                            } else {
                                t.pixels == s.pixels
                            },
                        _ => t.pixels == s.pixels,
                    }
                },
            }
        }),
{
    lemma_commit_keeps_canvas(s);
    match action {
        Action::Fill(p) => {
            law_commit_fill_effect(s, widen(p), x, y);
        },
        Action::Begin(p) => {
            law_begin_stroke_effect(s);
            law_dot_effect(s.begin_stroke(), widen(p), x, y);
        },
        Action::Continue(p, q) => {
            law_paint_stroke_effect(s, widen(p), widen(q), x, y);
        },
        Action::Drag(p, q) => {
            let a = widen(p);
            let b = widen(q);
            if s.tool == Tool::Line {
                law_drag_line_effect(s, a, b, samples, x, y);
            } else if s.tool == Tool::Shape {
                law_drag_shape_effect(s, a, b, samples, x, y);
            } else if s.tool == Tool::Crop {
                assert forall|lx: int, ty: int, rx: int, by: int|
                    #[trigger] selects(a.0, b.0, 1200, lx, rx) && #[trigger] selects(
                        a.1,
                        b.1,
                        800,
                        ty,
                        by,
                    ) implies if rx - lx >= 2 && by - ty >= 2 {
                    stretched(
                        s.pixels,
                        s.perform(action, samples).pixels,
                        lx,
                        ty,
                        rx,
                        by,
                        x,
                        y,
                    )
                } else {
                    s.perform(action, samples).pixels == s.pixels
                } by {
                    law_drag_crop_effect(s, a, b, samples, lx, ty, rx, by, x, y);
                }
            }
        },
        _ => {},
    }
}

/// Each action is one operation: what is recorded, and what is not, is as the
/// operations say, whether or not a stroke is pending.
pub proof fn law_perform_operation<P>(
    s: PaintView<P>,
    p: (i32, i32),
    q: (i32, i32),
    samples: Seq<(int, int)>,
)
    ensures
        ({
            let a = (p.0 as int, p.1 as int);
            let b = (q.0 as int, q.1 as int);
            &&& s.perform(Action::Idle, samples) == s
            &&& s.perform(Action::Fill(p), samples) == s.commit_fill(a)
            &&& s.perform(Action::Drag(p, q), samples) == s.commit_drag_tool(a, b, samples)
            &&& s.perform(Action::Begin(p), samples) == s.begin_stroke().paint_dot(a)
            &&& s.perform(Action::Continue(p, q), samples) == s.paint_stroke(a, b)
            &&& s.perform(Action::End, samples) == s.commit_stroke()
        }),
{
}

/// An action is within range if the brush, wherever it goes, keeps to
/// coordinates of `i32`; what does not use the brush always is.
pub proof fn law_action_fits<P>(
    s: PaintView<P>,
    action: Action<(i32, i32)>,
    samples: Seq<(int, int)>,
)
    ensures
        s.action_fits(action, samples) <==> match action {
            Action::Begin(p) => {
                let c = (p.0 as int, p.1 as int);
                s.brush_size < 0 || reach(c, c, s.brush_size).in_range()
            },
            Action::Continue(p, q) => s.brush_size < 0 || reach(
                (p.0 as int, p.1 as int),
                (q.0 as int, q.1 as int),
                s.brush_size,
            ).in_range(),
            Action::Drag(p, q) => {
                let a = (p.0 as int, p.1 as int);
                let b = (q.0 as int, q.1 as int);
                match s.tool {
                    Tool::Line => reach(a, b, s.brush_size).in_range(),
                    Tool::Shape => s.shape_bbox(a, b, samples).in_range(),
                    _ => true,
                }
            },
            _ => true,
        },
{
}

// The pointer.

/// When the fill tool acts: at the press of the button on the canvas.
pub proof fn law_decide_fill<P>(s: PaintView<P>, p: Pointer<P>)
    requires
        s.tool == Tool::FloodFill,
    ensures
        s.decide(p) is Fill || s.decide(p) is Idle,
        s.decide(p) is Fill <==> p.pressed && p.inside && p.hover is Some,
        s.decide(p) matches Action::Fill(at) ==> p.hover == Some(at),
        s.track(p) == s,
{
}

/// When the drag tools act: at the release of a drag that has started, from
/// its start to the pointer, or back to the start if the pointer is gone. A
/// drag starts when the button is down on the canvas and none is under way.
pub proof fn law_decide_drag<P>(s: PaintView<P>, p: Pointer<P>)
    requires
        s.tool == Tool::Line || s.tool == Tool::Shape || s.tool == Tool::Crop,
    ensures
        s.decide(p) is Drag || s.decide(p) is Idle,
        s.decide(p) is Drag <==> !p.down && s.drag_start is Some,
        s.decide(p) matches Action::Drag(a, b) ==> s.drag_start == Some(a) && (p.hover == Some(b)
            || (p.hover is None && a == b)),
        s.track(p) == (PaintView {
            drag_start: if p.down {
                if s.drag_start is None && p.inside {
                    p.hover
                } else {
                    s.drag_start
                }
            } else {
                None
            },
            ..s
        }),
{
}

/// When the brush and the eraser act: while the button is down on the canvas,
/// beginning where there was no position before and going on from it where
/// there was; and at every frame with the button up, ending the stroke.
pub proof fn law_decide_brush<P>(s: PaintView<P>, p: Pointer<P>)
    requires
        s.tool == Tool::Brush || s.tool == Tool::Eraser,
    ensures
        s.decide(p) is End <==> !p.down,
        s.decide(p) is Begin <==> p.down && p.inside && p.hover is Some && s.last_pos is None,
        s.decide(p) is Continue <==> p.down && p.inside && p.hover is Some && s.last_pos is Some,
        s.decide(p) is Idle <==> p.down && (!p.inside || p.hover is None),
        s.decide(p) matches Action::Begin(at) ==> p.hover == Some(at),
        s.decide(p) matches Action::Continue(a, b) ==> s.last_pos == Some(a) && p.hover == Some(b),
        s.track(p) == (PaintView {
            last_pos: if p.down && p.inside {
                p.hover
            } else {
                None
            },
            ..s
        }),
{
}

/// A preview is shown of a drag that has started, from its start to the
/// pointer, in the form of the tool and the chosen shape.
pub proof fn law_preview_form<P>(s: PaintView<P>, hover: Option<P>)
    ensures
        s.preview(hover) is Some <==> s.drag_start is Some && (s.tool == Tool::Line || s.tool
            == Tool::Shape || s.tool == Tool::Crop),
        s.preview(hover) matches Some(v) ==> match v {
            Preview::Line(a, b) => s.tool == Tool::Line && s.drag_start == Some(a) && (hover
                == Some(b) || (hover is None && a == b)),
            Preview::Rect(a, b) => s.tool == Tool::Shape && s.shape_kind == ShapeKind::Rect
                && s.drag_start == Some(a) && (hover == Some(b) || (hover is None && a == b)),
            Preview::Ellipse(a, b) => s.tool == Tool::Shape && s.shape_kind == ShapeKind::Ellipse
                && s.drag_start == Some(a) && (hover == Some(b) || (hover is None && a == b)),
            Preview::Crop(a, b) => s.tool == Tool::Crop && s.drag_start == Some(a) && (hover
                == Some(b) || (hover is None && a == b)),
        },
{
}

} // verus!
