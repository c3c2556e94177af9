//! Inclusive axis-aligned boxes in canvas pixel coordinates.

use vstd::prelude::*;

use crate::canvas::{CANVAS_H, CANVAS_W};

verus! {

/// Inclusive axis-aligned bbox in canvas pixel coordinates.
#[derive(Clone, Copy, PartialEq, Eq, Structural, Debug)]
pub struct Bbox {
    pub lx: i32,
    pub ty: i32,
    pub rx: i32,
    pub by: i32,
}

/// A box over unbounded coordinates: the model of [`Bbox`].
pub struct BboxView {
    pub lx: int,
    pub ty: int,
    pub rx: int,
    pub by: int,
}

pub open spec fn min(a: int, b: int) -> int {
    if a <= b {
        a
    } else {
        b
    }
}

pub open spec fn max(a: int, b: int) -> int {
    if a >= b {
        a
    } else {
        b
    }
}

/// `v` is a value of `i32`.
pub open spec fn is_i32(v: int) -> bool {
    i32::MIN <= v <= i32::MAX
}

impl View for Bbox {
    type V = BboxView;

    open spec fn view(&self) -> BboxView {
        BboxView {
            lx: self.lx as int,
            ty: self.ty as int,
            rx: self.rx as int,
            by: self.by as int,
        }
    }
}

impl BboxView {
    /// The box of one pixel.
    pub open spec fn point(x: int, y: int) -> BboxView {
        BboxView { lx: x, ty: y, rx: x, by: y }
    }

    /// The box with two given opposite corners.
    pub open spec fn from_two(a: (int, int), b: (int, int)) -> BboxView {
        BboxView { lx: min(a.0, b.0), ty: min(a.1, b.1), rx: max(a.0, b.0), by: max(a.1, b.1) }
    }

    /// The box moved outwards by `r` on every side.
    pub open spec fn expand(self, r: int) -> BboxView {
        BboxView { lx: self.lx - r, ty: self.ty - r, rx: self.rx + r, by: self.by + r }
    }

    /// The box that spans this one and `o`.
    pub open spec fn union(self, o: BboxView) -> BboxView {
        BboxView {
            lx: min(self.lx, o.lx),
            ty: min(self.ty, o.ty),
            rx: max(self.rx, o.rx),
            by: max(self.by, o.by),
        }
    }

    /// The box cut down to the canvas.
    pub open spec fn clip(self) -> BboxView {
        BboxView {
            lx: max(self.lx, 0),
            ty: max(self.ty, 0),
            rx: min(self.rx, CANVAS_W - 1),
            by: min(self.by, CANVAS_H - 1),
        }
    }

    /// `(x, y)` lies in the box.
    pub open spec fn contains(self, x: int, y: int) -> bool {
        self.lx <= x <= self.rx && self.ty <= y <= self.by
    }

    /// The box holds at least one pixel position.
    pub open spec fn nonempty(self) -> bool {
        self.lx <= self.rx && self.ty <= self.by
    }

    /// The box shares at least one pixel with the canvas.
    pub open spec fn meets_canvas(self) -> bool {
        self.clip().nonempty()
    }

    /// Every edge is a value of `i32`, so the box is the model of some [`Bbox`].
    pub open spec fn in_range(self) -> bool {
        is_i32(self.lx) && is_i32(self.ty) && is_i32(self.rx) && is_i32(self.by)
    }
}

impl Bbox {
    /// The box of one pixel.
    pub fn point(x: i32, y: i32) -> (b: Self)
        ensures
            b@ == BboxView::point(x as int, y as int),
    {
        Self { lx: x, ty: y, rx: x, by: y }
    }

    /// The smallest box that holds both points.
    pub fn from_two(a: (i32, i32), b: (i32, i32)) -> (r: Self)
        ensures
            r@ == BboxView::from_two((a.0 as int, a.1 as int), (b.0 as int, b.1 as int)),
    {
        Self {
            lx: if a.0 <= b.0 { a.0 } else { b.0 },
            ty: if a.1 <= b.1 { a.1 } else { b.1 },
            rx: if a.0 >= b.0 { a.0 } else { b.0 },
            by: if a.1 >= b.1 { a.1 } else { b.1 },
        }
    }

    /// Whether moving every side outwards by `r` stays within `i32`.
    pub fn can_expand(self, r: i32) -> (ok: bool)
        ensures
            ok == self@.expand(r as int).in_range(),
    {
        let r: i64 = r as i64;
        let lo: i64 = i32::MIN as i64;
        let hi: i64 = i32::MAX as i64;
        let lx: i64 = self.lx as i64 - r;
        let ty: i64 = self.ty as i64 - r;
        let rx: i64 = self.rx as i64 + r;
        let by: i64 = self.by as i64 + r;
        lo <= lx && lx <= hi && lo <= ty && ty <= hi && lo <= rx && rx <= hi && lo <= by && by <= hi
    }

    /// The box moved outwards by `r` on every side (inwards, if `r` is negative).
    pub fn expand(self, r: i32) -> (b: Self)
        requires
            self@.expand(r as int).in_range(),
        ensures
            b@ == self@.expand(r as int),
    {
        Self { lx: self.lx - r, ty: self.ty - r, rx: self.rx + r, by: self.by + r }
    }

    /// The smallest box that holds this one and `o`.
    pub fn union(self, o: Self) -> (b: Self)
        ensures
            b@ == self@.union(o@),
    {
        Self {
            lx: if self.lx <= o.lx { self.lx } else { o.lx },
            ty: if self.ty <= o.ty { self.ty } else { o.ty },
            rx: if self.rx >= o.rx { self.rx } else { o.rx },
            by: if self.by >= o.by { self.by } else { o.by },
        }
    }

    /// Grow the box until it holds `(x, y)`.
    pub fn include_point(&mut self, x: i32, y: i32)
        ensures
            final(self)@ == old(self)@.union(BboxView::point(x as int, y as int)),
    {
        if x < self.lx {
            self.lx = x;
        }
        if x > self.rx {
            self.rx = x;
        }
        if y < self.ty {
            self.ty = y;
        }
        if y > self.by {
            self.by = y;
        }
    }

    /// Clamp to the canvas: the left, top, right and bottom edge of what is
    /// left, or `None` if nothing of the box lies on the canvas.
    pub fn clamped(self) -> (res: Option<(usize, usize, usize, usize)>)
        ensures
            res is Some <==> self@.meets_canvas(),
            res matches Some(e) ==> self@.clip() == (BboxView {
                lx: e.0 as int,
                ty: e.1 as int,
                rx: e.2 as int,
                by: e.3 as int,
            }),
    {
        if self.rx < 0 || self.by < 0 || self.lx >= CANVAS_W as i32 || self.ty >= CANVAS_H as i32 {
            return None;
        }
        let lx: usize = if self.lx >= 0 { self.lx as usize } else { 0 };
        let rx: usize = if (self.rx as usize) <= CANVAS_W - 1 {
            self.rx as usize
        } else {
            CANVAS_W - 1
        };
        let ty: usize = if self.ty >= 0 { self.ty as usize } else { 0 };
        let by: usize = if (self.by as usize) <= CANVAS_H - 1 {
            self.by as usize
        } else {
            CANVAS_H - 1
        };
        if rx < lx || by < ty {
            None
        } else {
            Some((lx, ty, rx, by))
        }
    }
}

} // verus!
