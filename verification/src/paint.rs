//! A painting: the canvas, the tool settings, the stroke under way and the
//! undo history.

use std::collections::VecDeque;

use vstd::prelude::*;

use crate::bbox::{Bbox, BboxView};
use crate::canvas::{blank, CANVAS_H, CANVAS_W};
use crate::color::Color;
use crate::crop::crop;
use crate::disc::fill_disc;
use crate::fill::{change_box, fillable, flood, is_change_box};
use crate::line::{
    abs, error_term, heading, lemma_error_decides, lemma_line, lemma_progress_ends, line_point,
    progress, steps,
};
use crate::patch::{make_patch, put_back, Patch, PatchView};
use crate::state::{
    brush_fits, brush_fits_all, corners, hull, next_point, pushed, PaintView, ShapeKind, Tool,
    HISTORY_CAP,
};
use crate::stroke::{
    brushed_upto, lemma_brushed_all, lemma_brushed_start, lemma_brushed_step, lemma_error_step,
    lemma_heading_step, lemma_hull_corners, lemma_hull_fits, lemma_hull_next,
    lemma_outlined_start, lemma_outlined_step, outlined_upto,
};

verus! {

/// A painting under way. `P` is the type of screen positions, which are only
/// kept and handed back.
pub struct MasterPaint<P> {
    /// Flat pixel buffer for the canvas (row-major).
    pub pixels: Vec<Color>,
    pub tool: Tool,
    pub shape_kind: ShapeKind,
    /// Brush radius in canvas pixels.
    pub brush_size: i32,
    pub color: Color,
    /// Last cursor position while dragging: Brush and Eraser interpolate
    /// strokes between frames from it.
    pub last_pos: Option<P>,
    /// Anchor point of the current drag of Line, Shape and Crop.
    pub drag_start: Option<P>,
    /// Set whenever `pixels` changes.
    pub dirty: bool,
    /// Undo history: bounded ring of rectangular pre-image patches.
    pub history: VecDeque<Patch>,
    /// Pre-image captured at the start of an in-progress brush/eraser stroke.
    /// Cropped to `stroke_bbox` and committed to `history` on pointer-up.
    pub stroke_pre: Option<Vec<Color>>,
    /// Bbox accumulated as the in-progress stroke paints.
    pub stroke_bbox: Option<Bbox>,
}

/// A pair of coordinates without the bounds of `i32`.
pub open spec fn widen(p: (i32, i32)) -> (int, int) {
    (p.0 as int, p.1 as int)
}

/// A list of points without the bounds of `i32`.
pub open spec fn widen_all(points: Seq<(i32, i32)>) -> Seq<(int, int)> {
    points.map_values(|p: (i32, i32)| widen(p))
}

impl<P> View for MasterPaint<P> {
    type V = PaintView<P>;

    open spec fn view(&self) -> PaintView<P> {
        PaintView {
            pixels: self.pixels@,
            tool: self.tool,
            shape_kind: self.shape_kind,
            brush_size: self.brush_size as int,
            color: self.color,
            last_pos: self.last_pos,
            drag_start: self.drag_start,
            dirty: self.dirty,
            history: self.history@.map_values(|p: Patch| p@),
            stroke_pre: match self.stroke_pre {
                Some(pre) => Some(pre@),
                None => None,
            },
            stroke_bbox: match self.stroke_bbox {
                Some(b) => Some(b@),
                None => None,
            },
        }
    }
}

impl<P> Default for MasterPaint<P> {
    fn default() -> (s: Self)
        ensures
            s@ == PaintView::<P>::fresh(),
            s@.wf(),
    {
        let s = Self {
            pixels: vec![Color::white(); CANVAS_W * CANVAS_H],
            tool: Tool::Brush,
            shape_kind: ShapeKind::Rect,
            brush_size: 5,
            color: Color::black(),
            last_pos: None,
            drag_start: None,
            dirty: true,
            history: VecDeque::new(),
            stroke_pre: None,
            stroke_bbox: None,
        };
        assert(s.pixels@ =~= blank(Color::white()));
        assert(s@.history =~= Seq::<PatchView>::empty());
        s
    }
}

/// The smallest box that holds `start` and all of `points`.
fn include_points(start: Bbox, points: &Vec<(i32, i32)>) -> (bbox: Bbox)
    ensures
        bbox@ == if points@.len() == 0 {
            start@
        } else {
            start@.union(hull(widen_all(points@)))
        },
{
    let ghost pts = widen_all(points@);
    let mut bbox: Bbox = start;
    let mut i: usize = 0;
    while i < points.len()
        invariant
            i <= points@.len(),
            pts == widen_all(points@),
            i == 0 ==> bbox@ == start@,
            i > 0 ==> bbox@ == start@.union(hull(pts.take(i as int))),
        decreases points@.len() - i,
    {
        let p: (i32, i32) = points[i];
        proof {
            assert(pts[i as int] == widen(p));
            if i == 0 {
                assert(pts.take(1)[0] == pts[0]);
            } else {
                lemma_hull_next(pts, i as int);
            }
        }
        bbox.include_point(p.0, p.1);
        i = i + 1;
    }
    assert(pts.take(points@.len() as int) =~= pts);
    bbox
}

/// A copy of a pixel buffer.
fn copy_pixels(src: &Vec<Color>) -> (dst: Vec<Color>)
    ensures
        dst@ == src@,
{
    let dst = src.clone();
    assert(dst@ =~= src@);
    dst
}

impl<P> MasterPaint<P> {
    /// The colour that the brush tools paint with: the eraser paints white.
    pub fn active_color(&self) -> (c: Color)
        ensures
            c == self@.active_color(),
    {
        match self.tool {
            Tool::Eraser => Color::white(),
            _ => self.color,
        }
    }

    // History.

    /// Record a patch; the oldest is dropped when the history is full.
    pub fn push_patch(&mut self, patch: Patch)
        ensures
            final(self)@ == old(self)@.push_patch(patch@),
            old(self)@.wf() && patch@.wf() ==> final(self)@.wf(),
    {
        if self.history.len() >= HISTORY_CAP {
            self.history.pop_front();
        }
        self.history.push_back(patch);
        assert(self@.history =~= pushed(old(self)@.history, patch@));
    }

    /// Record the whole canvas.
    pub fn push_full_patch(&mut self)
        requires
            old(self)@.wf(),
        ensures
            final(self)@ == old(self)@.push_full_patch(),
            final(self)@.wf(),
    {
        let patch = Patch {
            x: 0,
            y: 0,
            w: CANVAS_W as u32,
            h: CANVAS_H as u32,
            pixels: copy_pixels(&self.pixels),
        };
        self.push_patch(patch);
    }

    /// Record the part of the canvas inside `bbox`, if there is any.
    pub fn push_bbox_patch(&mut self, bbox: Bbox)
        requires
            old(self)@.wf(),
        ensures
            final(self)@ == old(self)@.push_bbox_patch(bbox@),
            final(self)@.wf(),
    {
        if let Some(p) = make_patch(self.pixels.as_slice(), bbox) {
            self.push_patch(p);
        }
    }

    /// Begin a brush/eraser stroke: snapshot the canvas, reset the bbox.
    /// If a prior stroke was still pending (pointer left and re-entered while
    /// held), commit it first, so that each segment is undone on its own.
    pub fn begin_stroke(&mut self)
        requires
            old(self)@.wf(),
        ensures
            final(self)@ == old(self)@.begin_stroke(),
            final(self)@.wf(),
    {
        self.commit_stroke();
        self.stroke_pre = Some(copy_pixels(&self.pixels));
        self.stroke_bbox = None;
    }

    /// Note that the pending stroke touches `b`; without one, do nothing.
    pub fn extend_stroke_bbox(&mut self, b: Bbox)
        ensures
            final(self)@ == old(self)@.extend_stroke_bbox(b@),
            old(self)@.wf() ==> final(self)@.wf(),
    {
        if self.stroke_pre.is_none() {
            return;
        }
        self.stroke_bbox = Some(
            match self.stroke_bbox {
                None => b,
                Some(prev) => prev.union(b),
            },
        );
    }

    /// Crop the pending stroke pre-image to its bbox and push it as a patch.
    pub fn commit_stroke(&mut self)
        requires
            old(self)@.wf(),
        ensures
            final(self)@ == old(self)@.commit_stroke(),
            final(self)@.wf(),
    {
        let pre = match self.stroke_pre.take() {
            Some(pre) => pre,
            None => {
                return;
            },
        };
        let bbox = match self.stroke_bbox.take() {
            Some(bbox) => bbox,
            None => {
                return;
            },
        };
        if let Some(p) = make_patch(pre.as_slice(), bbox) {
            self.push_patch(p);
        }
    }

    /// Take back the latest recorded change, if there is one.
    pub fn undo(&mut self)
        requires
            old(self)@.wf(),
        ensures
            final(self)@ == old(self)@.undo(),
            final(self)@.wf(),
    {
        let ghost before = self@;
        let patch = match self.history.pop_back() {
            Some(patch) => patch,
            None => {
                return;
            },
        };
        assert(patch@ == before.history.last());
        put_back(&mut self.pixels, &patch);
        self.dirty = true;
        assert(self@.history =~= before.history.drop_last());
    }

    // Drawing primitives.

    /// Paint a filled circle of `brush_size` radius centred at (cx, cy).
    pub fn stamp_circle(&mut self, cx: i32, cy: i32, color: Color)
        requires
            old(self)@.wf(),
            brush_fits(BboxView::point(cx as int, cy as int), old(self).brush_size as int),
        ensures
            final(self)@ == old(self)@.stamp_circle((cx as int, cy as int), color),
            final(self)@.wf(),
    {
        let r: i32 = self.brush_size;
        if r < 0 {
            return;
        }
        self.extend_stroke_bbox(Bbox::point(cx, cy).expand(r));
        self.dirty = true;
        fill_disc(&mut self.pixels, cx, cy, r, color);
    }

    /// Bresenham line stamping a circle at every step.
    pub fn stroke_canvas(&mut self, x0: i32, y0: i32, x1: i32, y1: i32, c: Color)
        requires
            old(self)@.wf(),
            brush_fits(
                BboxView::from_two((x0 as int, y0 as int), (x1 as int, y1 as int)),
                old(self).brush_size as int,
            ),
        ensures
            final(self)@ == old(self)@.stroke_canvas(
                (x0 as int, y0 as int),
                (x1 as int, y1 as int),
                c,
            ),
            final(self)@.wf(),
    {
        if self.brush_size < 0 {
            return;
        }
        let ghost a = (x0 as int, y0 as int);
        let ghost b = (x1 as int, y1 as int);
        let ghost n = steps(a, b);
        let ghost r = self.brush_size as int;
        let ghost before = self@;
        let dx: i64 = if x1 >= x0 { x1 as i64 - x0 as i64 } else { x0 as i64 - x1 as i64 };
        let dy: i64 = if y1 >= y0 { y1 as i64 - y0 as i64 } else { y0 as i64 - y1 as i64 };
        let sx: i32 = if x0 < x1 { 1 } else { -1 };
        let sy: i32 = if y0 < y1 { 1 } else { -1 };
        let mut err: i64 = dx - dy;
        let mut x: i32 = x0;
        let mut y: i32 = y0;
        let ghost mut k: int = 0;
        self.stamp_circle(x, y, c);
        proof {
            lemma_line(a, b);
            lemma_progress_ends(dx as int, n);
            lemma_progress_ends(dy as int, n);
            lemma_brushed_start(before, a, b, r, c);
        }
        while x != x1 || y != y1
            invariant
                0 <= k <= n,
                a == (x0 as int, y0 as int),
                b == (x1 as int, y1 as int),
                n == steps(a, b),
                dx == abs(b.0 - a.0),
                dy == abs(b.1 - a.1),
                sx == heading(a.0, b.0),
                sy == heading(a.1, b.1),
                r >= 0,
                BboxView::from_two(a, b).expand(r).in_range(),
                (x as int, y as int) == line_point(a, b, k),
                err == error_term(
                    dx as int,
                    dy as int,
                    progress(dx as int, k, n),
                    progress(dy as int, k, n),
                ),
                before.brush_size == r,
                self@ == before.paint(
                    brushed_upto(a, b, k, r),
                    BboxView::from_two(a, line_point(a, b, k)).expand(r),
                    c,
                ),
                self@.wf(),
            decreases n - k,
        {
            proof {
                lemma_line(a, b);
                if k == n {
                    assert((x as int, y as int) == b);
                }
                lemma_error_decides(dx as int, dy as int, k);
                assert(BboxView::from_two(a, b).contains(
                    line_point(a, b, k + 1).0,
                    line_point(a, b, k + 1).1,
                ));
            }
            let ghost i = progress(dx as int, k, n);
            let ghost j = progress(dy as int, k, n);
            let e2: i64 = 2 * err;
            if e2 > -dy {
                err = err - dy;
                x = x + sx;
            }
            if e2 < dx {
                err = err + dx;
                y = y + sy;
            }
            proof {
                lemma_error_step(dx as int, dy as int, i, j);
                lemma_heading_step(sx as int, i);
                lemma_heading_step(sy as int, j);
                k = k + 1;
            }
            assert((x as int, y as int) == line_point(a, b, k));
            self.stamp_circle(x, y, c);
            proof {
                lemma_brushed_step(before, a, b, k - 1, r, c);
            }
        }
        proof {
            lemma_line(a, b);
            lemma_brushed_all(before, a, b, k, r, c);
        }
    }

    /// Stroke from each of `points` to the next, and from the last back to
    /// the first.
    pub fn stroke_outline(&mut self, points: &Vec<(i32, i32)>, c: Color)
        requires
            old(self)@.wf(),
            brush_fits_all(widen_all(points@), old(self).brush_size as int),
        ensures
            final(self)@ == old(self)@.stroke_outline(widen_all(points@), c),
            final(self)@.wf(),
    {
        if self.brush_size < 0 {
            return;
        }
        let ghost pts = widen_all(points@);
        let ghost r = self.brush_size as int;
        let ghost before = self@;
        let n: usize = points.len();
        let mut i: usize = 0;
        while i < n
            invariant
                i <= n,
                n == points@.len(),
                pts == widen_all(points@),
                r >= 0,
                before.brush_size == r,
                brush_fits_all(pts, r),
                self@.wf(),
                i == 0 ==> self@ == before,
                i > 0 ==> self@ == outlined_upto(before, pts, i as int, c),
            decreases n - i,
        {
            let p: (i32, i32) = points[i];
            let q: (i32, i32) = if i + 1 < n { points[i + 1] } else { points[0] };
            proof {
                assert(pts[i as int] == widen(p));
                assert(next_point(pts, i as int) == widen(q));
            }
            self.stroke_canvas(p.0, p.1, q.0, q.1, c);
            proof {
                if i == 0 {
                    lemma_outlined_start(before, pts, c);
                } else {
                    lemma_outlined_step(before, pts, i as int, c);
                }
            }
            i = i + 1;
        }
        assert(pts.take(n as int) =~= pts);
    }

    /// Stamp the brush at one point.
    pub fn paint_dot(&mut self, cx: i32, cy: i32)
        requires
            old(self)@.wf(),
            brush_fits(BboxView::point(cx as int, cy as int), old(self).brush_size as int),
        ensures
            final(self)@ == old(self)@.paint_dot((cx as int, cy as int)),
            final(self)@.wf(),
    {
        let c = self.active_color();
        self.stamp_circle(cx, cy, c);
    }

    /// Draw the brush from one point to another.
    pub fn paint_stroke(&mut self, a: (i32, i32), b: (i32, i32))
        requires
            old(self)@.wf(),
            brush_fits(
                BboxView::from_two(widen(a), widen(b)),
                old(self).brush_size as int,
            ),
        ensures
            final(self)@ == old(self)@.paint_stroke(widen(a), widen(b)),
            final(self)@.wf(),
    {
        let c = self.active_color();
        self.stroke_canvas(a.0, a.1, b.0, b.1, c);
    }

    // Whole-canvas operations.

    /// Flood fill from `(sx, sy)` with the current colour. Returns the bbox of
    /// changed pixels, or None if nothing was filled (seed out of bounds or
    /// seed already matches the fill colour).
    pub fn flood_fill(&mut self, sx: i32, sy: i32) -> (res: Option<Bbox>)
        requires
            old(self)@.wf(),
        ensures
            final(self)@ == old(self)@.flood_fill((sx as int, sy as int)),
            final(self)@.wf(),
            res is Some <==> fillable(
                old(self)@.pixels,
                (sx as int, sy as int),
                old(self)@.color,
            ),
            res matches Some(b) ==> is_change_box(b@, old(self)@.pixels, final(self)@.pixels) && b@
                == change_box(old(self)@.pixels, final(self)@.pixels),
    {
        let fill = self.color;
        let res = flood(&mut self.pixels, sx, sy, fill);
        if res.is_some() {
            self.dirty = true;
        }
        res
    }

    /// Flood fill as an operation of its own: end the pending stroke, fill,
    /// and record what the changed pixels were.
    pub fn commit_fill(&mut self, sx: i32, sy: i32)
        requires
            old(self)@.wf(),
        ensures
            final(self)@ == old(self)@.commit_fill((sx as int, sy as int)),
            final(self)@.wf(),
    {
        self.commit_stroke();
        let pre = copy_pixels(&self.pixels);
        if let Some(bbox) = self.flood_fill(sx, sy) {
            if let Some(p) = make_patch(pre.as_slice(), bbox) {
                self.push_patch(p);
            }
        }
    }

    /// End the pending stroke, record the whole canvas, and make it white.
    pub fn clear_canvas(&mut self)
        requires
            old(self)@.wf(),
        ensures
            final(self)@ == old(self)@.clear_canvas(),
            final(self)@.wf(),
    {
        self.commit_stroke();
        self.push_full_patch();
        self.pixels = vec![Color::white(); CANVAS_W * CANVAS_H];
        assert(self.pixels@ =~= blank(Color::white()));
        self.dirty = true;
    }

    // Commit handlers for Line / Shape / Crop drag tools.

    /// The box of everything that the brush touches between two points.
    pub fn line_or_shape_bbox(&self, a: (i32, i32), b: (i32, i32)) -> (bbox: Bbox)
        requires
            BboxView::from_two(widen(a), widen(b)).expand(self.brush_size as int).in_range(),
        ensures
            bbox@ == self@.line_or_shape_bbox(widen(a), widen(b)),
    {
        Bbox::from_two(a, b).expand(self.brush_size)
    }

    /// The box of the two corners and of everything between them that the
    /// shape tool draws a line through.
    pub fn shape_box(&self, a: (i32, i32), b: (i32, i32), samples: &Vec<(i32, i32)>) -> (bbox: Bbox)
        ensures
            bbox@ == self@.shape_box(widen(a), widen(b), widen_all(samples@)),
    {
        let corner_box = Bbox::from_two(a, b);
        match self.shape_kind {
            ShapeKind::Rect => {
                proof {
                    lemma_hull_corners(widen(a), widen(b));
                }
                corner_box
            },
            ShapeKind::Ellipse => include_points(corner_box, samples),
        }
    }

    /// The box of everything that the brush touches when it draws the shape.
    pub fn shape_bbox(&self, a: (i32, i32), b: (i32, i32), samples: &Vec<(i32, i32)>) -> (bbox:
        Bbox)
        requires
            self@.shape_bbox(widen(a), widen(b), widen_all(samples@)).in_range(),
        ensures
            bbox@ == self@.shape_bbox(widen(a), widen(b), widen_all(samples@)),
    {
        self.shape_box(a, b, samples).expand(self.brush_size)
    }

    /// Draw a straight line in the current colour.
    pub fn commit_line(&mut self, a: (i32, i32), b: (i32, i32))
        requires
            old(self)@.wf(),
            brush_fits(BboxView::from_two(widen(a), widen(b)), old(self).brush_size as int),
        ensures
            final(self)@ == old(self)@.commit_line(widen(a), widen(b)),
            final(self)@.wf(),
    {
        let c = self.color;
        self.stroke_canvas(a.0, a.1, b.0, b.1, c);
    }

    /// Draw the outline of the selected shape between two corners in the
    /// current colour. `samples` are the points around the ellipse between
    /// them; a rectangle does not need any.
    pub fn commit_shape(&mut self, a: (i32, i32), b: (i32, i32), samples: &Vec<(i32, i32)>)
        requires
            old(self)@.wf(),
            brush_fits_all(
                old(self)@.shape_points(widen(a), widen(b), widen_all(samples@)),
                old(self).brush_size as int,
            ),
        ensures
            final(self)@ == old(self)@.commit_shape(widen(a), widen(b), widen_all(samples@)),
            final(self)@.wf(),
    {
        let c = self.color;
        match self.shape_kind {
            ShapeKind::Rect => {
                let r = Bbox::from_two(a, b);
                let points: Vec<(i32, i32)> = vec![
                    (r.lx, r.ty),
                    (r.rx, r.ty),
                    (r.rx, r.by),
                    (r.lx, r.by),
                ];
                assert(widen_all(points@) =~= corners(widen(a), widen(b)));
                self.stroke_outline(&points, c);
            },
            ShapeKind::Ellipse => {
                self.stroke_outline(samples, c);
            },
        }
    }

    /// Crop: nearest-neighbour scale of the selected region to the full
    /// canvas. A region that is too small changes nothing.
    pub fn commit_crop(&mut self, a: (i32, i32), b: (i32, i32))
        requires
            old(self)@.wf(),
        ensures
            final(self)@ == old(self)@.commit_crop(widen(a), widen(b)),
            final(self)@.wf(),
    {
        if let Some(dst) = crop(&self.pixels, a, b) {
            self.pixels = dst;
            self.dirty = true;
        }
    }

    /// Dispatch a drag-tool release: snapshot the affected region into history
    /// and commit the operation. With any other tool than Line, Shape or Crop
    /// only a pending stroke is ended.
    pub fn commit_drag_tool(&mut self, a: (i32, i32), b: (i32, i32), samples: &Vec<(i32, i32)>)
        requires
            old(self)@.wf(),
            old(self)@.drag_fits(widen(a), widen(b), widen_all(samples@)),
        ensures
            final(self)@ == old(self)@.commit_drag_tool(widen(a), widen(b), widen_all(samples@)),
            final(self)@.wf(),
    {
        self.commit_stroke();
        match self.tool {
            Tool::Line => {
                let bbox = self.line_or_shape_bbox(a, b);
                self.push_bbox_patch(bbox);
                self.commit_line(a, b);
            },
            Tool::Shape => {
                let bbox = self.shape_bbox(a, b, samples);
                self.push_bbox_patch(bbox);
                proof {
                    let points = self@.shape_points(widen(a), widen(b), widen_all(samples@));
                    lemma_hull_fits(
                        points,
                        BboxView::from_two(widen(a), widen(b)),
                        self.brush_size as int,
                    );
                }
                self.commit_shape(a, b, samples);
            },
            Tool::Crop => {
                self.push_full_patch();
                self.commit_crop(a, b);
            },
            _ => {},
        }
    }
}

} // verus!
