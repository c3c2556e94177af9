//! From pointer input to operations: what the current tool makes of the state
//! of the pointer in one frame.

use vstd::prelude::*;

use crate::bbox::{max, Bbox, BboxView};
use crate::line::abs;
use crate::paint::{widen, widen_all, MasterPaint};
use crate::state::{brush_fits, PaintView, ShapeKind, Tool};

verus! {

/// The pointer in one frame.
#[derive(PartialEq, Debug)]
pub struct Pointer<P> {
    /// Where the pointer is, if it is over the window.
    pub hover: Option<P>,
    /// Whether that is on the canvas.
    pub inside: bool,
    /// Whether the primary button is held.
    pub down: bool,
    /// Whether the primary button went down in this frame.
    pub pressed: bool,
}

/// What is to be done to the painting. `P` is the type of positions: screen
/// positions when it is decided, canvas pixels when it is carried out.
#[derive(PartialEq, Debug)]
pub enum Action<P> {
    /// Nothing.
    Idle,
    /// Flood fill from a position.
    Fill(P),
    /// Release of a drag tool that went from one position to another.
    Drag(P, P),
    /// Begin a stroke with a dot.
    Begin(P),
    /// Draw the stroke on from one position to another.
    Continue(P, P),
    /// End the stroke.
    End,
}

/// What is shown of a drag before it is released.
#[derive(PartialEq, Debug)]
pub enum Preview<P> {
    Line(P, P),
    Rect(P, P),
    Ellipse(P, P),
    Crop(P, P),
}

/// The ellipse between two corners: twice its centre, and its radii.
#[derive(Clone, Copy, PartialEq, Eq, Structural, Debug)]
pub struct EllipseFrame {
    pub twice_cx: i64,
    pub twice_cy: i64,
    pub rx: i64,
    pub ry: i64,
}

/// `f` is centred between the corners `a` and `b`, and reaches from its centre
/// half way along each axis, rounded down, but at least one pixel.
pub open spec fn is_ellipse_frame(f: EllipseFrame, a: (int, int), b: (int, int)) -> bool {
    &&& f.twice_cx == a.0 + b.0
    &&& f.twice_cy == a.1 + b.1
    &&& f.rx == max(abs(b.0 - a.0) / 2, 1)
    &&& f.ry == max(abs(b.1 - a.1) / 2, 1)
}

/// The ellipse that the shape tool draws between two corners.
pub fn ellipse_frame(a: (i32, i32), b: (i32, i32)) -> (f: EllipseFrame)
    ensures
        is_ellipse_frame(f, widen(a), widen(b)),
{
    let dx: i64 = if b.0 >= a.0 { b.0 as i64 - a.0 as i64 } else { a.0 as i64 - b.0 as i64 };
    let dy: i64 = if b.1 >= a.1 { b.1 as i64 - a.1 as i64 } else { a.1 as i64 - b.1 as i64 };
    EllipseFrame {
        twice_cx: a.0 as i64 + b.0 as i64,
        twice_cy: a.1 as i64 + b.1 as i64,
        rx: if dx / 2 >= 1 { dx / 2 } else { 1 },
        ry: if dy / 2 >= 1 { dy / 2 } else { 1 },
    }
}

impl Tool {
    /// Whether the choice of a shape is offered.
    pub fn offers_shape(self) -> (b: bool)
        ensures
            b == (self == Tool::Shape),
    {
        self == Tool::Shape
    }

    /// Whether the choice of a brush size is offered.
    pub fn offers_size(self) -> (b: bool)
        ensures
            b == (self != Tool::FloodFill && self != Tool::Crop),
    {
        self != Tool::FloodFill && self != Tool::Crop
    }

    /// Whether the choice of a colour is offered.
    pub fn offers_color(self) -> (b: bool)
        ensures
            b == (self != Tool::Eraser && self != Tool::Crop),
    {
        self != Tool::Eraser && self != Tool::Crop
    }
}

impl<P> PaintView<P> {
    /// The tool works by dragging from one point to another.
    pub open spec fn drags(self) -> bool {
        self.tool == Tool::Line || self.tool == Tool::Shape || self.tool == Tool::Crop
    }

    /// The tool paints freehand strokes.
    pub open spec fn brushes(self) -> bool {
        self.tool == Tool::Brush || self.tool == Tool::Eraser
    }

    /// What the tool makes of the pointer.
    pub open spec fn decide(self, p: Pointer<P>) -> Action<P> {
        if self.drags() {
            match self.drag_start {
                Some(start) if !p.down => Action::Drag(
                    start,
                    match p.hover {
                        Some(end) => end,
                        None => start,
                    },
                ),
                _ => Action::Idle,
            }
        } else if self.brushes() {
            if !p.down {
                Action::End
            } else {
                match (p.hover, self.last_pos) {
                    (Some(pos), Some(last)) if p.inside => Action::Continue(last, pos),
                    (Some(pos), None) if p.inside => Action::Begin(pos),
                    _ => Action::Idle,
                }
            }
        } else {
            match p.hover {
                Some(pos) if p.inside && p.pressed => Action::Fill(pos),
                _ => Action::Idle,
            }
        }
    }

    /// The positions to be remembered for the next frame.
    pub open spec fn track(self, p: Pointer<P>) -> PaintView<P> {
        PaintView {
            drag_start: if !self.drags() {
                self.drag_start
            } else if !p.down {
                None
            } else if self.drag_start is None && p.inside {
                p.hover
            } else {
                self.drag_start
            },
            last_pos: if !self.brushes() {
                self.last_pos
            } else if p.down && p.inside {
                p.hover
            } else {
                None
            },
            ..self
        }
    }

    /// The preview of the drag under way, with the pointer at `hover`.
    pub open spec fn preview(self, hover: Option<P>) -> Option<Preview<P>> {
        match self.drag_start {
            Some(start) => {
                let end = match hover {
                    Some(end) => end,
                    None => start,
                };
                match (self.tool, self.shape_kind) {
                    (Tool::Line, _) => Some(Preview::Line(start, end)),
                    (Tool::Shape, ShapeKind::Rect) => Some(Preview::Rect(start, end)),
                    (Tool::Shape, ShapeKind::Ellipse) => Some(Preview::Ellipse(start, end)),
                    (Tool::Crop, _) => Some(Preview::Crop(start, end)),
                    _ => None,
                }
            },
            None => None,
        }
    }

    /// What an action makes of the painting.
    pub open spec fn perform(
        self,
        action: Action<(i32, i32)>,
        samples: Seq<(int, int)>,
    ) -> PaintView<P> {
        match action {
            Action::Idle => self,
            Action::Fill(p) => self.commit_fill(widen(p)),
            Action::Drag(a, b) => self.commit_drag_tool(widen(a), widen(b), samples),
            Action::Begin(p) => self.begin_stroke().paint_dot(widen(p)),
            Action::Continue(a, b) => self.paint_stroke(widen(a), widen(b)),
            Action::End => self.commit_stroke(),
        }
    }

    /// An action stays in the range of coordinates.
    pub open spec fn action_fits(
        self,
        action: Action<(i32, i32)>,
        samples: Seq<(int, int)>,
    ) -> bool {
        match action {
            Action::Drag(a, b) => self.drag_fits(widen(a), widen(b), samples),
            Action::Begin(p) => brush_fits(
                BboxView::point(p.0 as int, p.1 as int),
                self.brush_size,
            ),
            Action::Continue(a, b) => brush_fits(
                BboxView::from_two(widen(a), widen(b)),
                self.brush_size,
            ),
            _ => true,
        }
    }
}

impl<P: Copy> MasterPaint<P> {
    /// Decide what the current tool makes of the pointer, and remember the
    /// positions that the next frame needs.
    pub fn pointer(&mut self, p: Pointer<P>) -> (action: Action<P>)
        ensures
            action == old(self)@.decide(p),
            final(self)@ == old(self)@.track(p),
    {
        match self.tool {
            Tool::FloodFill => {
                if p.pressed && p.inside {
                    if let Some(pos) = p.hover {
                        return Action::Fill(pos);
                    }
                }
                Action::Idle
            },
            Tool::Line | Tool::Shape | Tool::Crop => {
                if p.down {
                    if self.drag_start.is_none() && p.inside {
                        self.drag_start = p.hover;
                    }
                    Action::Idle
                } else if let Some(start) = self.drag_start.take() {
                    let end = match p.hover {
                        Some(end) => end,
                        None => start,
                    };
                    Action::Drag(start, end)
                } else {
                    Action::Idle
                }
            },
            Tool::Brush | Tool::Eraser => {
                if p.down {
                    let last = self.last_pos;
                    self.last_pos = if p.inside { p.hover } else { None };
                    match (self.last_pos, last) {
                        (Some(pos), Some(last)) => Action::Continue(last, pos),
                        (Some(pos), None) => Action::Begin(pos),
                        (None, _) => Action::Idle,
                    }
                } else {
                    self.last_pos = None;
                    Action::End
                }
            },
        }
    }

    /// The preview of the drag under way, with the pointer at `hover`.
    pub fn preview(&self, hover: Option<P>) -> (res: Option<Preview<P>>)
        ensures
            res == self@.preview(hover),
    {
        let start = match self.drag_start {
            Some(start) => start,
            None => {
                return None;
            },
        };
        let end = match hover {
            Some(end) => end,
            None => start,
        };
        match self.tool {
            Tool::Line => Some(Preview::Line(start, end)),
            Tool::Shape => match self.shape_kind {
                ShapeKind::Rect => Some(Preview::Rect(start, end)),
                ShapeKind::Ellipse => Some(Preview::Ellipse(start, end)),
            },
            Tool::Crop => Some(Preview::Crop(start, end)),
            _ => None,
        }
    }
}

impl<P> MasterPaint<P> {
    /// Whether there is anything to take back.
    pub fn can_undo(&self) -> (b: bool)
        ensures
            b == (self@.history.len() > 0),
    {
        self.history.len() > 0
    }

    /// Whether the canvas has to be shown anew, which it then counts as:
    /// because it has changed, or because it has not been shown at all.
    pub fn take_dirty(&mut self, shown: bool) -> (res: bool)
        ensures
            res == (old(self)@.dirty || !shown),
            final(self)@ == (PaintView { dirty: false, ..old(self)@ }),
    {
        let res = self.dirty || !shown;
        self.dirty = false;
        res
    }

    /// Whether `perform` can carry out an action without leaving the range of
    /// coordinates.
    pub fn can_perform(&self, action: &Action<(i32, i32)>, samples: &Vec<(i32, i32)>) -> (ok: bool)
        ensures
            ok == self@.action_fits(*action, widen_all(samples@)),
    {
        let r: i32 = self.brush_size;
        match action {
            Action::Drag(a, b) => match self.tool {
                Tool::Line => Bbox::from_two(*a, *b).can_expand(r),
                Tool::Shape => self.shape_box(*a, *b, samples).can_expand(r),
                _ => true,
            },
            Action::Begin(p) => r < 0 || Bbox::point(p.0, p.1).can_expand(r),
            Action::Continue(a, b) => r < 0 || Bbox::from_two(*a, *b).can_expand(r),
            _ => true,
        }
    }

    /// Carry out an action. `samples` are the points around the ellipse that
    /// the release of a drag with the ellipse shape draws; nothing else needs
    /// any.
    pub fn perform(&mut self, action: Action<(i32, i32)>, samples: &Vec<(i32, i32)>)
        requires
            old(self)@.wf(),
            old(self)@.action_fits(action, widen_all(samples@)),
        ensures
            final(self)@ == old(self)@.perform(action, widen_all(samples@)),
            final(self)@.wf(),
    {
        match action {
            Action::Idle => {},
            Action::Fill(p) => {
                self.commit_fill(p.0, p.1);
            },
            Action::Drag(a, b) => {
                self.commit_drag_tool(a, b, samples);
            },
            Action::Begin(p) => {
                self.begin_stroke();
                self.paint_dot(p.0, p.1);
            },
            Action::Continue(a, b) => {
                self.paint_stroke(a, b);
            },
            Action::End => {
                self.commit_stroke();
            },
        }
    }
}

} // verus!
