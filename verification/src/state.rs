//! The model of a painting: what it consists of, and what every operation
//! makes of it.

use vstd::prelude::*;

use crate::bbox::BboxView;
use crate::canvas::{blank, is_canvas, repaint, Region};
use crate::color::Color;
use crate::crop::{croppable, cropped};
use crate::disc::{disc, in_disc};
use crate::fill::{change_box, fillable, flooded};
use crate::line::{line_point, steps};
use crate::patch::{full_snapshot, restore, snapshot, PatchView};

verus! {

/// How many patches the undo history holds at most.
pub const HISTORY_CAP: usize = 50;

/// What the pointer does.
#[derive(Clone, Copy, PartialEq, Eq, Structural, Debug)]
pub enum Tool {
    Brush,
    Eraser,
    FloodFill,
    Line,
    Shape,
    Crop,
}

/// What the shape tool draws.
#[derive(Clone, Copy, PartialEq, Eq, Structural, Debug)]
pub enum ShapeKind {
    Rect,
    Ellipse,
}

/// The model of a painting. `P` is the type of screen positions.
#[verifier::ext_equal]
pub struct PaintView<P> {
    pub pixels: Seq<Color>,
    pub tool: Tool,
    pub shape_kind: ShapeKind,
    pub brush_size: int,
    pub color: Color,
    pub last_pos: Option<P>,
    pub drag_start: Option<P>,
    pub dirty: bool,
    pub history: Seq<PatchView>,
    pub stroke_pre: Option<Seq<Color>>,
    pub stroke_bbox: Option<BboxView>,
}

/// `(x, y)` is at most `r` away from some point of the line from `a` to `b`.
pub open spec fn near_line(a: (int, int), b: (int, int), r: int, x: int, y: int) -> bool {
    exists|k: int| 0 <= k <= steps(a, b) && in_disc(#[trigger] line_point(a, b, k), r, x, y)
}

/// What a round brush of radius `r` covers on its way from `a` to `b`.
pub open spec fn brushed(a: (int, int), b: (int, int), r: int) -> Region {
    |x: int, y: int| near_line(a, b, r, x, y)
}

/// The point after the `i`-th on a closed outline.
pub open spec fn next_point(points: Seq<(int, int)>, i: int) -> (int, int) {
    if i + 1 < points.len() {
        points[i + 1]
    } else {
        points[0]
    }
}

/// `(x, y)` is at most `r` away from one of the first `n` edges of the closed
/// outline through `points`.
pub open spec fn near_outline(points: Seq<(int, int)>, n: int, r: int, x: int, y: int) -> bool {
    exists|i: int|
        0 <= i < n && i < points.len() && near_line(
            #[trigger] points[i],
            next_point(points, i),
            r,
            x,
            y,
        )
}

/// What a round brush of radius `r` covers on its way along the first `n`
/// edges of the closed outline through `points`.
pub open spec fn outlined(points: Seq<(int, int)>, n: int, r: int) -> Region {
    |x: int, y: int| near_outline(points, n, r, x, y)
}

/// The smallest box that holds all of `points`.
pub open spec fn hull(points: Seq<(int, int)>) -> BboxView
    decreases points.len(),
{
    if points.len() <= 1 {
        BboxView::point(points[0].0, points[0].1)
    } else {
        hull(points.drop_last()).union(BboxView::point(points.last().0, points.last().1))
    }
}

/// The corners of the rectangle between `a` and `b`, in drawing order.
pub open spec fn corners(a: (int, int), b: (int, int)) -> Seq<(int, int)> {
    let r = BboxView::from_two(a, b);
    seq![(r.lx, r.ty), (r.rx, r.ty), (r.rx, r.by), (r.lx, r.by)]
}

/// The history with one more patch; the oldest goes when it is full.
pub open spec fn pushed(history: Seq<PatchView>, p: PatchView) -> Seq<PatchView> {
    if history.len() >= HISTORY_CAP {
        history.drop_first().push(p)
    } else {
        history.push(p)
    }
}

/// The brush of the given size can be put down on every pixel of `b` without
/// leaving the range of coordinates. A brush of negative size paints nothing.
pub open spec fn brush_fits(b: BboxView, size: int) -> bool {
    size < 0 || b.expand(size).in_range()
}

/// [`brush_fits`] on each of `points`.
pub open spec fn brush_fits_all(points: Seq<(int, int)>, size: int) -> bool {
    forall|i: int|
        0 <= i < points.len() ==> brush_fits(
            BboxView::point((#[trigger] points[i]).0, points[i].1),
            size,
        )
}

impl<P> PaintView<P> {
    /// The buffers have the size of the canvas, the history is bounded and
    /// holds only patches of the canvas, and only a pending stroke has a box.
    pub open spec fn wf(self) -> bool {
        &&& is_canvas(self.pixels)
        &&& self.history.len() <= HISTORY_CAP
        &&& forall|i: int| 0 <= i < self.history.len() ==> (#[trigger] self.history[i]).wf()
        &&& self.stroke_pre matches Some(pre) ==> is_canvas(pre)
        &&& self.stroke_bbox is Some ==> self.stroke_pre is Some
    }

    /// A new painting: a white canvas, a black brush, nothing to undo.
    pub open spec fn fresh() -> PaintView<P> {
        PaintView {
            pixels: blank(Color::white()),
            tool: Tool::Brush,
            shape_kind: ShapeKind::Rect,
            brush_size: 5,
            color: Color::black(),
            last_pos: None,
            drag_start: None,
            dirty: true,
            history: Seq::empty(),
            stroke_pre: None,
            stroke_bbox: None,
        }
    }

    /// The colour that the brush tools paint with.
    pub open spec fn active_color(self) -> Color {
        if self.tool == Tool::Eraser {
            Color::white()
        } else {
            self.color
        }
    }

    // History.

    pub open spec fn push_patch(self, p: PatchView) -> PaintView<P> {
        PaintView { history: pushed(self.history, p), ..self }
    }

    /// Record the whole canvas.
    pub open spec fn push_full_patch(self) -> PaintView<P> {
        self.push_patch(full_snapshot(self.pixels))
    }

    /// Record what `src` holds in the box `b`, if any of it is on the canvas.
    pub open spec fn push_snapshot(self, src: Seq<Color>, b: BboxView) -> PaintView<P> {
        match snapshot(src, b) {
            Some(p) => self.push_patch(p),
            None => self,
        }
    }

    pub open spec fn push_bbox_patch(self, b: BboxView) -> PaintView<P> {
        self.push_snapshot(self.pixels, b)
    }

    /// End the pending stroke, if there is one, and record its pre-image.
    pub open spec fn commit_stroke(self) -> PaintView<P> {
        match (self.stroke_pre, self.stroke_bbox) {
            (Some(pre), Some(b)) => PaintView {
                stroke_pre: None,
                stroke_bbox: None,
                ..self
            }.push_snapshot(pre, b),
            (Some(pre), None) => PaintView { stroke_pre: None, ..self },
            (None, _) => self,
        }
    }

    /// Start a stroke, after ending the one that may still be pending.
    pub open spec fn begin_stroke(self) -> PaintView<P> {
        PaintView { stroke_pre: Some(self.pixels), stroke_bbox: None, ..self.commit_stroke() }
    }

    /// Note that the pending stroke, if there is one, touches the box `b`.
    pub open spec fn extend_stroke_bbox(self, b: BboxView) -> PaintView<P> {
        if self.stroke_pre is None {
            self
        } else {
            PaintView {
                stroke_bbox: Some(
                    match self.stroke_bbox {
                        Some(prev) => prev.union(b),
                        None => b,
                    },
                ),
                ..self
            }
        }
    }

    /// Take back the latest recorded change.
    pub open spec fn undo(self) -> PaintView<P> {
        if self.history.len() == 0 {
            self
        } else {
            PaintView {
                pixels: restore(self.pixels, self.history.last()),
                history: self.history.drop_last(),
                dirty: true,
                ..self
            }
        }
    }

    // Drawing.

    /// Paint `region`, which lies in the box `b`, with `color`.
    pub open spec fn paint(self, region: Region, b: BboxView, color: Color) -> PaintView<P> {
        PaintView {
            pixels: repaint(self.pixels, region, color),
            dirty: true,
            ..self.extend_stroke_bbox(b)
        }
    }

    pub open spec fn stamp_circle(self, c: (int, int), color: Color) -> PaintView<P> {
        if self.brush_size < 0 {
            self
        } else {
            self.paint(
                disc(c, self.brush_size),
                BboxView::point(c.0, c.1).expand(self.brush_size),
                color,
            )
        }
    }

    pub open spec fn stroke_canvas(self, a: (int, int), b: (int, int), color: Color) -> PaintView<
        P,
    > {
        if self.brush_size < 0 {
            self
        } else {
            self.paint(
                brushed(a, b, self.brush_size),
                BboxView::from_two(a, b).expand(self.brush_size),
                color,
            )
        }
    }

    pub open spec fn stroke_outline(self, points: Seq<(int, int)>, color: Color) -> PaintView<P> {
        if self.brush_size < 0 || points.len() == 0 {
            self
        } else {
            self.paint(
                outlined(points, points.len() as int, self.brush_size),
                hull(points).expand(self.brush_size),
                color,
            )
        }
    }

    pub open spec fn paint_dot(self, c: (int, int)) -> PaintView<P> {
        self.stamp_circle(c, self.active_color())
    }

    pub open spec fn paint_stroke(self, a: (int, int), b: (int, int)) -> PaintView<P> {
        self.stroke_canvas(a, b, self.active_color())
    }

    // Whole-canvas operations.

    pub open spec fn flood_fill(self, seed: (int, int)) -> PaintView<P> {
        if fillable(self.pixels, seed, self.color) {
            PaintView { pixels: flooded(self.pixels, seed, self.color), dirty: true, ..self }
        } else {
            self
        }
    }

    /// Flood fill, recorded in the history.
    pub open spec fn commit_fill(self, seed: (int, int)) -> PaintView<P> {
        let s = self.commit_stroke();
        let t = s.flood_fill(seed);
        if fillable(s.pixels, seed, s.color) {
            t.push_snapshot(s.pixels, change_box(s.pixels, t.pixels))
        } else {
            t
        }
    }

    /// Make the canvas white, recorded in the history.
    pub open spec fn clear_canvas(self) -> PaintView<P> {
        PaintView {
            pixels: blank(Color::white()),
            dirty: true,
            ..self.commit_stroke().push_full_patch()
        }
    }

    // Drag tools.

    pub open spec fn line_or_shape_bbox(self, a: (int, int), b: (int, int)) -> BboxView {
        BboxView::from_two(a, b).expand(self.brush_size)
    }

    pub open spec fn commit_line(self, a: (int, int), b: (int, int)) -> PaintView<P> {
        self.stroke_canvas(a, b, self.color)
    }

    /// The outline that the shape tool draws between `a` and `b`; `samples`
    /// are the points around the ellipse between them.
    pub open spec fn shape_points(
        self,
        a: (int, int),
        b: (int, int),
        samples: Seq<(int, int)>,
    ) -> Seq<(int, int)> {
        match self.shape_kind {
            ShapeKind::Rect => corners(a, b),
            ShapeKind::Ellipse => samples,
        }
    }

    pub open spec fn commit_shape(
        self,
        a: (int, int),
        b: (int, int),
        samples: Seq<(int, int)>,
    ) -> PaintView<P> {
        self.stroke_outline(self.shape_points(a, b, samples), self.color)
    }

    pub open spec fn commit_crop(self, a: (int, int), b: (int, int)) -> PaintView<P> {
        if croppable(a, b) {
            PaintView { pixels: cropped(self.pixels, a, b), dirty: true, ..self }
        } else {
            self
        }
    }

    /// The box of the two corners and of everything between them that the
    /// shape tool draws a line through.
    pub open spec fn shape_box(
        self,
        a: (int, int),
        b: (int, int),
        samples: Seq<(int, int)>,
    ) -> BboxView {
        let points = self.shape_points(a, b, samples);
        let r = BboxView::from_two(a, b);
        if points.len() == 0 {
            r
        } else {
            r.union(hull(points))
        }
    }

    /// The box of everything that the brush touches when it draws the shape.
    pub open spec fn shape_bbox(
        self,
        a: (int, int),
        b: (int, int),
        samples: Seq<(int, int)>,
    ) -> BboxView {
        self.shape_box(a, b, samples).expand(self.brush_size)
    }

    /// The release of a drag from `a` to `b` stays in the range of coordinates.
    pub open spec fn drag_fits(
        self,
        a: (int, int),
        b: (int, int),
        samples: Seq<(int, int)>,
    ) -> bool {
        match self.tool {
            Tool::Line => self.line_or_shape_bbox(a, b).in_range(),
            Tool::Shape => self.shape_bbox(a, b, samples).in_range(),
            _ => true,
        }
    }

    pub open spec fn commit_drag_tool(
        self,
        a: (int, int),
        b: (int, int),
        samples: Seq<(int, int)>,
    ) -> PaintView<P> {
        let s = self.commit_stroke();
        match self.tool {
            Tool::Line => s.push_bbox_patch(s.line_or_shape_bbox(a, b)).commit_line(a, b),
            Tool::Shape => s.push_bbox_patch(s.shape_bbox(a, b, samples)).commit_shape(
                a,
                b,
                samples,
            ),
            Tool::Crop => s.push_full_patch().commit_crop(a, b),
            _ => s,
        }
    }
}

} // verus!
