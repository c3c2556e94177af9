//! Rectangular pre-images: copies of a part of the canvas, kept for undo.

use vstd::arithmetic::div_mod::lemma_fundamental_div_mod_converse;
use vstd::prelude::*;

use crate::bbox::{Bbox, BboxView};
use crate::canvas::{
    in_canvas, index, is_canvas, lemma_coords, lemma_index, pixel, CANVAS_H, CANVAS_W,
};
use crate::color::Color;

verus! {

/// A rectangular pre-image of the canvas, used to undo a destructive op.
pub struct Patch {
    pub x: u32,
    pub y: u32,
    pub w: u32,
    pub h: u32,
    pub pixels: Vec<Color>,
}

/// The model of a [`Patch`].
#[verifier::ext_equal]
pub struct PatchView {
    pub x: int,
    pub y: int,
    pub w: int,
    pub h: int,
    pub pixels: Seq<Color>,
}

impl View for Patch {
    type V = PatchView;

    open spec fn view(&self) -> PatchView {
        PatchView {
            x: self.x as int,
            y: self.y as int,
            w: self.w as int,
            h: self.h as int,
            pixels: self.pixels@,
        }
    }
}

impl PatchView {
    /// The patch lies on the canvas and holds one colour for each of its pixels.
    pub open spec fn wf(self) -> bool {
        &&& 0 <= self.x
        &&& 0 <= self.y
        &&& 1 <= self.w
        &&& 1 <= self.h
        &&& self.x + self.w <= CANVAS_W
        &&& self.y + self.h <= CANVAS_H
        &&& self.pixels.len() == self.w * self.h
    }

    /// Canvas pixel `(x, y)` lies in the patch.
    pub open spec fn covers(self, x: int, y: int) -> bool {
        self.x <= x < self.x + self.w && self.y <= y < self.y + self.h
    }

    /// The colour that the patch holds for canvas pixel `(x, y)`.
    pub open spec fn color_at(self, x: int, y: int) -> Color {
        self.pixels[(y - self.y) * self.w + (x - self.x)]
    }

    /// The part of `src` inside the box `b`.
    pub open spec fn of(src: Seq<Color>, b: BboxView) -> PatchView {
        let w = b.rx - b.lx + 1;
        let h = b.by - b.ty + 1;
        PatchView {
            x: b.lx,
            y: b.ty,
            w,
            h,
            pixels: Seq::new((w * h) as nat, |i: int| pixel(src, b.lx + i % w, b.ty + i / w)),
        }
    }
}

/// `pixels` with the part under `p` set back to what `p` holds.
pub open spec fn restore(pixels: Seq<Color>, p: PatchView) -> Seq<Color> {
    Seq::new(
        pixels.len(),
        |i: int|
            {
                let x = i % (CANVAS_W as int);
                let y = i / (CANVAS_W as int);
                if p.covers(x, y) {
                    p.color_at(x, y)
                } else {
                    pixels[i]
                }
            },
    )
}

/// The patch that `make_patch` takes of `src`: the part of the box on the
/// canvas, if there is any.
pub open spec fn snapshot(src: Seq<Color>, b: BboxView) -> Option<PatchView> {
    if b.meets_canvas() {
        Some(PatchView::of(src, b.clip()))
    } else {
        None
    }
}

/// The patch that holds a whole canvas.
pub open spec fn full_snapshot(src: Seq<Color>) -> PatchView {
    PatchView { x: 0, y: 0, w: CANVAS_W as int, h: CANVAS_H as int, pixels: src }
}

proof fn lemma_grid(row: int, col: int, w: int)
    requires
        0 <= row,
        0 <= col < w,
    ensures
        (row * w + col) / w == row,
        (row * w + col) % w == col,
{
    lemma_fundamental_div_mod_converse(row * w + col, w, row, col);
}

proof fn lemma_grid_bound(row: int, col: int, w: int, h: int)
    requires
        0 <= row < h,
        0 <= col < w,
    ensures
        0 <= row * w + col < w * h,
{
    assert(0 <= row * w + col < w * h) by (nonlinear_arith)
        requires
            0 <= row < h,
            0 <= col < w,
    ;
}

/// A patch taken inside the canvas is well-formed and holds, for each pixel
/// that it covers, the colour that the pixel had.
pub proof fn lemma_patch_of(src: Seq<Color>, b: BboxView)
    requires
        b.nonempty(),
        b.clip() == b,
    ensures
        PatchView::of(src, b).wf(),
        forall|x: int, y: int|
            PatchView::of(src, b).covers(x, y) <==> b.contains(x, y),
        forall|x: int, y: int|
            b.contains(x, y) ==> #[trigger] PatchView::of(src, b).color_at(x, y) == pixel(src, x, y),
{
    let p = PatchView::of(src, b);
    assert(p.w * p.h >= 0) by (nonlinear_arith)
        requires
            p.w >= 0,
            p.h >= 0,
    ;
    assert forall|x: int, y: int| b.contains(x, y) implies #[trigger] p.color_at(x, y) == pixel(
        src,
        x,
        y,
    ) by {
        lemma_grid(y - p.y, x - p.x, p.w);
        lemma_grid_bound(y - p.y, x - p.x, p.w, p.h);
    }
}

/// Putting a patch back gives, on the pixels that it was taken from, the
/// colours that they had when it was taken, and leaves the others alone.
pub proof fn lemma_restore_snapshot(src: Seq<Color>, cur: Seq<Color>, b: BboxView)
    requires
        is_canvas(src),
        is_canvas(cur),
        b.meets_canvas(),
    ensures
        is_canvas(restore(cur, PatchView::of(src, b.clip()))),
        forall|x: int, y: int|
            in_canvas(x, y) ==> #[trigger] pixel(restore(cur, PatchView::of(src, b.clip())), x, y)
                == if b.contains(x, y) {
                pixel(src, x, y)
            } else {
                pixel(cur, x, y)
            },
{
    let c = b.clip();
    let p = PatchView::of(src, c);
    lemma_patch_of(src, c);
    assert forall|x: int, y: int| in_canvas(x, y) implies #[trigger] pixel(restore(cur, p), x, y)
        == if b.contains(x, y) {
        pixel(src, x, y)
    } else {
        pixel(cur, x, y)
    } by {
        lemma_index(x, y);
        assert(c.contains(x, y) == b.contains(x, y));
        assert(p.covers(x, y) == b.contains(x, y));
        if b.contains(x, y) {
            assert(p.color_at(x, y) == pixel(src, x, y));
        }
    }
}

/// Putting a whole-canvas patch back gives the canvas that it was taken of.
pub proof fn lemma_restore_full(src: Seq<Color>, cur: Seq<Color>)
    requires
        is_canvas(src),
        is_canvas(cur),
    ensures
        full_snapshot(src).wf(),
        restore(cur, full_snapshot(src)) == src,
{
    let p = full_snapshot(src);
    assert forall|i: int| 0 <= i < cur.len() implies restore(cur, p)[i] == src[i] by {
        lemma_coords(i);
    }
    assert(restore(cur, p) =~= src);
}

/// Copy a rectangular region of `src` into a new `Patch`. Returns `None` if
/// the bbox lies outside the canvas.
pub fn make_patch(src: &[Color], bbox: Bbox) -> (res: Option<Patch>)
    requires
        bbox@.meets_canvas() ==> index(bbox@.clip().rx, bbox@.clip().by) < src@.len(),
    ensures
        res is Some <==> bbox@.meets_canvas(),
        res matches Some(p) ==> p@ == PatchView::of(src@, bbox@.clip()) && p@.wf(),
{
    let (lx, ty, rx, by): (usize, usize, usize, usize) = match bbox.clamped() {
        Some(e) => e,
        None => {
            return None;
        },
    };
    let ghost b = bbox@.clip();
    let w: usize = rx - lx + 1;
    let h: usize = by - ty + 1;
    let ghost want = PatchView::of(src@, b).pixels;
    proof {
        lemma_patch_of(src@, b);
    }
    let mut buf: Vec<Color> = Vec::new();
    let mut row: usize = 0;
    while row < h
        invariant
            row <= h,
            w == rx - lx + 1,
            h == by - ty + 1,
            lx <= rx < CANVAS_W,
            ty <= by < CANVAS_H,
            by * CANVAS_W + rx < src@.len(),
            b == (BboxView { lx: lx as int, ty: ty as int, rx: rx as int, by: by as int }),
            want == PatchView::of(src@, b).pixels,
            want.len() == w * h,
            buf@.len() == row * w,
            forall|i: int| 0 <= i < buf@.len() ==> buf@[i] == want[i],
        decreases h - row,
    {
        let start: usize = (ty + row) * CANVAS_W + lx;
        let mut col: usize = 0;
        while col < w
            invariant
                col <= w,
                row < h,
                w == rx - lx + 1,
                h == by - ty + 1,
                lx <= rx < CANVAS_W,
                ty <= by < CANVAS_H,
                by * CANVAS_W + rx < src@.len(),
                b == (BboxView { lx: lx as int, ty: ty as int, rx: rx as int, by: by as int }),
                want == PatchView::of(src@, b).pixels,
                want.len() == w * h,
                start == (ty + row) * CANVAS_W + lx,
                buf@.len() == row * w + col,
                forall|i: int| 0 <= i < buf@.len() ==> buf@[i] == want[i],
            decreases w - col,
        {
            proof {
                lemma_grid(row as int, col as int, w as int);
                lemma_grid_bound(row as int, col as int, w as int, h as int);
            }
            buf.push(src[start + col]);
            col = col + 1;
        }
        assert((row + 1) * w == row * w + w) by (nonlinear_arith);
        row = row + 1;
    }
    assert(h * w == w * h) by (nonlinear_arith);
    assert(buf@ =~= want);
    Some(Patch { x: lx as u32, y: ty as u32, w: w as u32, h: h as u32, pixels: buf })
}

/// Copy `patch` back over the pixels that it was taken from.
pub fn put_back(pixels: &mut Vec<Color>, patch: &Patch)
    requires
        is_canvas(old(pixels)@),
        patch@.wf(),
    ensures
        final(pixels)@ == restore(old(pixels)@, patch@),
{
    let x: usize = patch.x as usize;
    let y: usize = patch.y as usize;
    let w: usize = patch.w as usize;
    let h: usize = patch.h as usize;
    let ghost before = pixels@;
    let ghost p = patch@;
    assert(w * h <= CANVAS_W * CANVAS_H) by (nonlinear_arith)
        requires
            0 <= w <= CANVAS_W,
            0 <= h <= CANVAS_H,
    ;
    let mut row: usize = 0;
    while row < h
        invariant
            row <= h,
            p == patch@,
            p.wf(),
            x == p.x,
            y == p.y,
            w == p.w,
            h == p.h,
            w * h <= CANVAS_W * CANVAS_H,
            is_canvas(before),
            is_canvas(pixels@),
            forall|i: int|
                0 <= i < pixels@.len() ==> #[trigger] pixels@[i] == if i / (CANVAS_W as int) < y + row {
                    restore(before, p)[i]
                } else {
                    before[i]
                },
        decreases h - row,
    {
        let dst: usize = (y + row) * CANVAS_W + x;
        proof {
            lemma_grid_bound(row as int, 0, w as int, h as int);
        }
        let src: usize = row * w;
        let mut col: usize = 0;
        while col < w
            invariant
                col <= w,
                row < h,
                p == patch@,
                p.wf(),
                x == p.x,
                y == p.y,
                w == p.w,
                h == p.h,
                w * h <= CANVAS_W * CANVAS_H,
                dst == (y + row) * CANVAS_W + x,
                src == row * w,
                is_canvas(before),
                is_canvas(pixels@),
                forall|i: int|
                    0 <= i < pixels@.len() ==> #[trigger] pixels@[i] == if i / (CANVAS_W as int) < y + row
                        || dst <= i < dst + col {
                        restore(before, p)[i]
                    } else {
                        before[i]
                    },
            decreases w - col,
        {
            proof {
                lemma_grid_bound(row as int, col as int, w as int, h as int);
                lemma_index(x + col, y + row);
                assert(restore(before, p)[dst + col] == p.color_at(x + col, y + row));
            }
            pixels.set(dst + col, patch.pixels[src + col]);
            col = col + 1;
        }
        row = row + 1;
    }
    assert(pixels@ =~= restore(before, p));
}

} // verus!
