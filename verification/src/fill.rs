//! Flood fill.

use std::collections::VecDeque;

use vstd::prelude::*;

use crate::bbox::{Bbox, BboxView};
use crate::canvas::{
    in_canvas, index, is_canvas, lemma_index, lemma_repaint_pixel, lemma_same_pixels, pixel,
    repaint, CANVAS_H, CANVAS_W,
};
use crate::color::Color;

verus! {

/// `a` and `b` share an edge.
pub open spec fn adjacent(a: (int, int), b: (int, int)) -> bool {
    ||| a.0 == b.0 && (a.1 == b.1 + 1 || b.1 == a.1 + 1)
    ||| a.1 == b.1 && (a.0 == b.0 + 1 || b.0 == a.0 + 1)
}

/// `path` goes from pixel to adjacent pixel, each of them in the colour `target`.
pub open spec fn is_path(pixels: Seq<Color>, target: Color, path: Seq<(int, int)>) -> bool {
    &&& path.len() >= 1
    &&& forall|i: int|
        0 <= i < path.len() ==> in_canvas((#[trigger] path[i]).0, path[i].1) && pixel(
            pixels,
            path[i].0,
            path[i].1,
        ) == target
    &&& forall|i: int, j: int|
        0 <= i && j == i + 1 && j < path.len() ==> adjacent(#[trigger] path[i], #[trigger] path[j])
}

/// A path in the colour of pixel `a` leads from `a` to `b`.
pub open spec fn connected(pixels: Seq<Color>, a: (int, int), b: (int, int)) -> bool {
    exists|path: Seq<(int, int)>|
        #[trigger] is_path(pixels, pixel(pixels, a.0, a.1), path) && path[0] == a && path.last() == b
}

/// `pixels` with the area of one colour around `seed` set to `fill`.
pub open spec fn flooded(pixels: Seq<Color>, seed: (int, int), fill: Color) -> Seq<Color> {
    repaint(pixels, |x: int, y: int| connected(pixels, seed, (x, y)), fill)
}

/// A fill from `seed` has something to do: the seed is on the canvas and not
/// in the fill colour yet.
pub open spec fn fillable(pixels: Seq<Color>, seed: (int, int), fill: Color) -> bool {
    in_canvas(seed.0, seed.1) && pixel(pixels, seed.0, seed.1) != fill
}

/// Pixel `(x, y)` has another colour in `after` than in `before`.
pub open spec fn changed(before: Seq<Color>, after: Seq<Color>, x: int, y: int) -> bool {
    in_canvas(x, y) && pixel(before, x, y) != pixel(after, x, y)
}

/// `b` is the smallest box that holds every changed pixel: none lies outside,
/// and every edge touches one.
pub open spec fn is_change_box(b: BboxView, before: Seq<Color>, after: Seq<Color>) -> bool {
    &&& forall|x: int, y: int| #[trigger] changed(before, after, x, y) ==> b.contains(x, y)
    &&& exists|y: int| #[trigger] changed(before, after, b.lx, y)
    &&& exists|y: int| #[trigger] changed(before, after, b.rx, y)
    &&& exists|x: int| #[trigger] changed(before, after, x, b.ty)
    &&& exists|x: int| #[trigger] changed(before, after, x, b.by)
}

/// The smallest box that holds every changed pixel.
pub open spec fn change_box(before: Seq<Color>, after: Seq<Color>) -> BboxView {
    choose|b: BboxView| is_change_box(b, before, after)
}

/// There is only one smallest box of changed pixels.
pub proof fn lemma_change_box_unique(b: BboxView, before: Seq<Color>, after: Seq<Color>)
    requires
        is_change_box(b, before, after),
    ensures
        b == change_box(before, after),
{
    let c = change_box(before, after);
    assert(is_change_box(c, before, after));
    let y1 = choose|y: int| #[trigger] changed(before, after, b.lx, y);
    let y2 = choose|y: int| #[trigger] changed(before, after, c.lx, y);
    assert(changed(before, after, b.lx, y1) && changed(before, after, c.lx, y2));
    let y3 = choose|y: int| #[trigger] changed(before, after, b.rx, y);
    let y4 = choose|y: int| #[trigger] changed(before, after, c.rx, y);
    assert(changed(before, after, b.rx, y3) && changed(before, after, c.rx, y4));
    let x1 = choose|x: int| #[trigger] changed(before, after, x, b.ty);
    let x2 = choose|x: int| #[trigger] changed(before, after, x, c.ty);
    assert(changed(before, after, x1, b.ty) && changed(before, after, x2, c.ty));
    let x3 = choose|x: int| #[trigger] changed(before, after, x, b.by);
    let x4 = choose|x: int| #[trigger] changed(before, after, x, c.by);
    assert(changed(before, after, x3, b.by) && changed(before, after, x4, c.by));
}

/// The least `m` from `lo` on with `f(m)`.
proof fn lemma_first(f: spec_fn(int) -> bool, lo: int, w: int) -> (m: int)
    requires
        lo <= w,
        f(w),
    ensures
        lo <= m <= w,
        f(m),
        forall|i: int| lo <= i < m ==> !#[trigger] f(i),
    decreases w - lo,
{
    if f(lo) {
        lo
    } else {
        lemma_first(f, lo + 1, w)
    }
}

/// The greatest `m` up to `hi` with `f(m)`.
proof fn lemma_last(f: spec_fn(int) -> bool, hi: int, w: int) -> (m: int)
    requires
        w <= hi,
        f(w),
    ensures
        w <= m <= hi,
        f(m),
        forall|i: int| m < i <= hi ==> !#[trigger] f(i),
    decreases hi - w,
{
    if f(hi) {
        hi
    } else {
        lemma_last(f, hi - 1, w)
    }
}

/// If any pixel has changed, there is a smallest box of changed pixels.
pub proof fn lemma_change_box_exists(before: Seq<Color>, after: Seq<Color>, x: int, y: int)
    requires
        changed(before, after, x, y),
    ensures
        is_change_box(change_box(before, after), before, after),
{
    let column = |u: int| exists|v: int| #[trigger] changed(before, after, u, v);
    let row = |v: int| exists|u: int| #[trigger] changed(before, after, u, v);
    assert(column(x) && row(y));
    let b = BboxView {
        lx: lemma_first(column, 0, x),
        ty: lemma_first(row, 0, y),
        rx: lemma_last(column, CANVAS_W - 1, x),
        by: lemma_last(row, CANVAS_H - 1, y),
    };
    assert forall|u: int, v: int| #[trigger] changed(before, after, u, v) implies b.contains(
        u,
        v,
    ) by {
        assert(column(u) && row(v));
    }
    assert(is_change_box(b, before, after));
}

/// How many elements of `s` equal `c`.
spec fn count(s: Seq<Color>, c: Color) -> nat
    decreases s.len(),
{
    if s.len() == 0 {
        0
    } else {
        count(s.drop_last(), c) + if s.last() == c {
            1nat
        } else {
            0nat
        }
    }
}

proof fn lemma_count_update(s: Seq<Color>, i: int, c: Color, d: Color)
    requires
        0 <= i < s.len(),
        s[i] == c,
        c != d,
    ensures
        count(s.update(i, d), c) == count(s, c) - 1,
    decreases s.len(),
{
    let t = s.update(i, d);
    if i == s.len() - 1 {
        assert(t.drop_last() =~= s.drop_last());
    } else {
        assert(t.drop_last() =~= s.drop_last().update(i, d));
        lemma_count_update(s.drop_last(), i, c, d);
    }
}

/// A path may be extended by one more pixel of its colour.
pub proof fn lemma_connected_step(pixels: Seq<Color>, seed: (int, int), p: (int, int), q: (int, int))
    requires
        connected(pixels, seed, p),
        adjacent(p, q),
        in_canvas(q.0, q.1),
        pixel(pixels, q.0, q.1) == pixel(pixels, seed.0, seed.1),
    ensures
        connected(pixels, seed, q),
{
    let target = pixel(pixels, seed.0, seed.1);
    let path = choose|path: Seq<(int, int)>|
        #[trigger] is_path(pixels, target, path) && path[0] == seed && path.last() == p;
    let longer = path.push(q);
    assert(is_path(pixels, target, longer));
    assert(longer[0] == seed && longer.last() == q);
}

/// A pixel of the canvas is connected with itself.
pub proof fn lemma_connected_self(pixels: Seq<Color>, seed: (int, int))
    requires
        in_canvas(seed.0, seed.1),
    ensures
        connected(pixels, seed, seed),
{
    let path = seq![seed];
    assert(is_path(pixels, pixel(pixels, seed.0, seed.1), path));
    assert(path[0] == seed && path.last() == seed);
}

/// A connected pixel lies on the canvas and has the colour of the seed.
pub proof fn lemma_connected_color(pixels: Seq<Color>, seed: (int, int), p: (int, int))
    requires
        connected(pixels, seed, p),
    ensures
        in_canvas(p.0, p.1),
        pixel(pixels, p.0, p.1) == pixel(pixels, seed.0, seed.1),
{
    let target = pixel(pixels, seed.0, seed.1);
    let path = choose|path: Seq<(int, int)>|
        #[trigger] is_path(pixels, target, path) && path[0] == seed && path.last() == p;
    assert(path[path.len() - 1] == p);
}

/// No pixel next to `(x, y)` has the colour `target`.
spec fn settled(cur: Seq<Color>, target: Color, x: int, y: int) -> bool {
    forall|nx: int, ny: int|
        in_canvas(nx, ny) && adjacent((x, y), (nx, ny)) ==> #[trigger] pixel(cur, nx, ny) != target
}

/// The state of a fill under way: `cur` is `orig` with some of the connected
/// pixels filled, and every filled pixel is settled, except `busy` and the
/// pixels that still wait in `queue`.
spec fn spreading(
    orig: Seq<Color>,
    cur: Seq<Color>,
    queue: Seq<(usize, usize)>,
    b: BboxView,
    seed: (int, int),
    fill: Color,
    busy: Option<(int, int)>,
) -> bool {
    let target = pixel(orig, seed.0, seed.1);
    &&& is_canvas(orig)
    &&& is_canvas(cur)
    &&& fillable(orig, seed, fill)
    &&& pixel(cur, seed.0, seed.1) == fill
    &&& forall|x: int, y: int|
        #[trigger] changed(orig, cur, x, y) ==> pixel(cur, x, y) == fill && connected(
            orig,
            seed,
            (x, y),
        )
    &&& forall|i: int|
        0 <= i < queue.len() ==> changed(orig, cur, (#[trigger] queue[i]).0 as int, queue[i].1 as int)
    &&& busy matches Some(p) ==> changed(orig, cur, p.0, p.1)
    &&& forall|x: int, y: int|
        #[trigger] changed(orig, cur, x, y) && busy != Some((x, y)) && !queue.contains(
            (x as usize, y as usize),
        ) ==> settled(cur, target, x, y)
    &&& is_change_box(b, orig, cur)
}

/// Filling one more connected pixel and queueing it keeps the state of a fill.
proof fn lemma_spread(
    orig: Seq<Color>,
    cur: Seq<Color>,
    queue: Seq<(usize, usize)>,
    b: BboxView,
    seed: (int, int),
    fill: Color,
    busy: (int, int),
    nx: usize,
    ny: usize,
)
    requires
        spreading(orig, cur, queue, b, seed, fill, Some(busy)),
        in_canvas(nx as int, ny as int),
        adjacent(busy, (nx as int, ny as int)),
        pixel(cur, nx as int, ny as int) == pixel(orig, seed.0, seed.1),
    ensures
        spreading(
            orig,
            cur.update(index(nx as int, ny as int), fill),
            queue.push((nx, ny)),
            b.union(BboxView::point(nx as int, ny as int)),
            seed,
            fill,
            Some(busy),
        ),
{
    let target = pixel(orig, seed.0, seed.1);
    let x1 = nx as int;
    let y1 = ny as int;
    let next = cur.update(index(x1, y1), fill);
    let q1 = queue.push((nx, ny));
    let b1 = b.union(BboxView::point(x1, y1));
    lemma_index(x1, y1);
    assert(!changed(orig, cur, x1, y1));
    assert(pixel(orig, x1, y1) == target);
    assert forall|x: int, y: int| in_canvas(x, y) implies #[trigger] pixel(next, x, y) == if x == x1
        && y == y1 {
        fill
    } else {
        pixel(cur, x, y)
    } by {
        lemma_index(x, y);
    }
    lemma_connected_step(orig, seed, busy, (x1, y1));
    assert(changed(orig, next, x1, y1));
    assert forall|x: int, y: int| #[trigger] changed(orig, next, x, y) implies changed(
        orig,
        cur,
        x,
        y,
    ) || (x == x1 && y == y1) by {}
    assert forall|x: int, y: int| #[trigger] changed(orig, cur, x, y) implies changed(
        orig,
        next,
        x,
        y,
    ) by {}
    assert forall|i: int| 0 <= i < q1.len() implies changed(
        orig,
        next,
        (#[trigger] q1[i]).0 as int,
        q1[i].1 as int,
    ) by {
        if i < queue.len() {
            assert(q1[i] == queue[i]);
            assert(changed(orig, cur, queue[i].0 as int, queue[i].1 as int));
        }
    }
    assert forall|x: int, y: int|
        #[trigger] changed(orig, next, x, y) && Some(busy) != Some((x, y)) && !q1.contains(
            (x as usize, y as usize),
        ) implies settled(next, target, x, y) by {
        assert(q1[queue.len() as int] == (nx, ny));
        assert(!(x == x1 && y == y1));
        assert(changed(orig, cur, x, y));
        if queue.contains((x as usize, y as usize)) {
            let i = choose|i: int| 0 <= i < queue.len() && queue[i] == (x as usize, y as usize);
            assert(q1[i] == (x as usize, y as usize));
        }
        assert(settled(cur, target, x, y));
        assert forall|mx: int, my: int|
            in_canvas(mx, my) && adjacent((x, y), (mx, my)) implies #[trigger] pixel(next, mx, my)
            != target by {
            assert(pixel(cur, mx, my) != target);
        }
    }
    assert(is_change_box(b1, orig, next)) by {
        let ly = choose|y: int| #[trigger] changed(orig, cur, b.lx, y);
        let ry = choose|y: int| #[trigger] changed(orig, cur, b.rx, y);
        let tx = choose|x: int| #[trigger] changed(orig, cur, x, b.ty);
        let bx = choose|x: int| #[trigger] changed(orig, cur, x, b.by);
        assert(changed(orig, next, b.lx, ly));
        assert(changed(orig, next, b.rx, ry));
        assert(changed(orig, next, tx, b.ty));
        assert(changed(orig, next, bx, b.by));
        assert(changed(orig, next, b1.lx, if b1.lx == b.lx { ly } else { y1 }));
        assert(changed(orig, next, b1.rx, if b1.rx == b.rx { ry } else { y1 }));
        assert(changed(orig, next, if b1.ty == b.ty { tx } else { x1 }, b1.ty));
        assert(changed(orig, next, if b1.by == b.by { bx } else { x1 }, b1.by));
    }
}

/// With every filled pixel settled, a path from the seed has been filled whole.
proof fn lemma_path_filled(
    orig: Seq<Color>,
    cur: Seq<Color>,
    seed: (int, int),
    path: Seq<(int, int)>,
    i: int,
)
    requires
        is_path(orig, pixel(orig, seed.0, seed.1), path),
        path[0] == seed,
        changed(orig, cur, seed.0, seed.1),
        forall|x: int, y: int|
            #[trigger] changed(orig, cur, x, y) ==> settled(cur, pixel(orig, seed.0, seed.1), x, y),
        0 <= i < path.len(),
    ensures
        changed(orig, cur, path[i].0, path[i].1),
    decreases i,
{
    if i > 0 {
        lemma_path_filled(orig, cur, seed, path, i - 1);
        let p = path[i - 1];
        let q = path[i];
        assert(adjacent(p, q));
        assert(settled(cur, pixel(orig, seed.0, seed.1), p.0, p.1));
        assert(pixel(cur, q.0, q.1) != pixel(orig, seed.0, seed.1));
    }
}

/// When nothing waits any more, the area around the seed is filled.
proof fn lemma_spread_done(
    orig: Seq<Color>,
    cur: Seq<Color>,
    b: BboxView,
    seed: (int, int),
    fill: Color,
)
    requires
        spreading(orig, cur, Seq::empty(), b, seed, fill, None),
    ensures
        cur == flooded(orig, seed, fill),
        b == change_box(orig, cur),
{
    let target = pixel(orig, seed.0, seed.1);
    let region = |x: int, y: int| connected(orig, seed, (x, y));
    assert forall|x: int, y: int| #[trigger] changed(orig, cur, x, y) implies settled(
        cur,
        target,
        x,
        y,
    ) by {
        assert(!Seq::<(usize, usize)>::empty().contains((x as usize, y as usize)));
    }
    assert(changed(orig, cur, seed.0, seed.1));
    assert forall|x: int, y: int| in_canvas(x, y) implies #[trigger] pixel(cur, x, y) == pixel(
        flooded(orig, seed, fill),
        x,
        y,
    ) by {
        lemma_repaint_pixel(orig, region, fill, x, y);
        if connected(orig, seed, (x, y)) {
            let path = choose|path: Seq<(int, int)>|
                #[trigger] is_path(orig, target, path) && path[0] == seed && path.last() == (x, y);
            lemma_path_filled(orig, cur, seed, path, path.len() - 1);
            assert(changed(orig, cur, x, y));
        } else {
            assert(!changed(orig, cur, x, y));
        }
    }
    lemma_repaint_pixel(orig, region, fill, seed.0, seed.1);
    lemma_same_pixels(cur, flooded(orig, seed, fill));
    lemma_change_box_unique(b, orig, cur);
}

/// A fill starts with the seed filled and waiting.
proof fn lemma_spread_start(orig: Seq<Color>, seed: (usize, usize), fill: Color)
    requires
        is_canvas(orig),
        fillable(orig, (seed.0 as int, seed.1 as int), fill),
    ensures
        spreading(
            orig,
            orig.update(index(seed.0 as int, seed.1 as int), fill),
            Seq::empty().push(seed),
            BboxView::point(seed.0 as int, seed.1 as int),
            (seed.0 as int, seed.1 as int),
            fill,
            None,
        ),
{
    let s = (seed.0 as int, seed.1 as int);
    let cur = orig.update(index(s.0, s.1), fill);
    let queue = Seq::<(usize, usize)>::empty().push(seed);
    lemma_index(s.0, s.1);
    lemma_connected_self(orig, s);
    assert(changed(orig, cur, s.0, s.1));
    assert forall|x: int, y: int| #[trigger] changed(orig, cur, x, y) implies x == s.0 && y
        == s.1 by {
        lemma_index(x, y);
    }
    assert(queue[0] == seed);
    assert(queue.contains((s.0 as usize, s.1 as usize)));
    let b = BboxView::point(s.0, s.1);
    assert(changed(orig, cur, b.lx, s.1) && changed(orig, cur, b.rx, s.1));
    assert(changed(orig, cur, s.0, b.ty) && changed(orig, cur, s.0, b.by));
    assert(is_change_box(b, orig, cur));
}

/// The pixel at the head of the queue becomes the busy one.
proof fn lemma_take_next(
    orig: Seq<Color>,
    cur: Seq<Color>,
    queue: Seq<(usize, usize)>,
    b: BboxView,
    seed: (int, int),
    fill: Color,
)
    requires
        spreading(orig, cur, queue, b, seed, fill, None),
        queue.len() > 0,
    ensures
        spreading(
            orig,
            cur,
            queue.subrange(1, queue.len() as int),
            b,
            seed,
            fill,
            Some((queue[0].0 as int, queue[0].1 as int)),
        ),
        in_canvas(queue[0].0 as int, queue[0].1 as int),
{
    let rest = queue.subrange(1, queue.len() as int);
    let busy = (queue[0].0 as int, queue[0].1 as int);
    let target = pixel(orig, seed.0, seed.1);
    assert(changed(orig, cur, busy.0, busy.1));
    assert forall|x: int, y: int|
        #[trigger] changed(orig, cur, x, y) && Some(busy) != Some((x, y)) && !rest.contains(
            (x as usize, y as usize),
        ) implies settled(cur, target, x, y) by {
        if queue.contains((x as usize, y as usize)) {
            let i = choose|i: int| 0 <= i < queue.len() && queue[i] == (x as usize, y as usize);
            if i > 0 {
                assert(rest[i - 1] == (x as usize, y as usize));
            }
        }
    }
}

/// What [`visit`] does keeps the state of a fill and moves it forward.
proof fn lemma_visited(
    orig: Seq<Color>,
    cur: Seq<Color>,
    queue: Seq<(usize, usize)>,
    b: BboxView,
    next: Seq<Color>,
    next_queue: Seq<(usize, usize)>,
    next_b: BboxView,
    seed: (int, int),
    fill: Color,
    busy: (int, int),
    nx: usize,
    ny: usize,
)
    requires
        spreading(orig, cur, queue, b, seed, fill, Some(busy)),
        adjacent(busy, (nx as int, ny as int)),
        if in_canvas(nx as int, ny as int) && pixel(cur, nx as int, ny as int) == pixel(
            orig,
            seed.0,
            seed.1,
        ) {
            &&& next == cur.update(index(nx as int, ny as int), fill)
            &&& next_queue == queue.push((nx, ny))
            &&& next_b == b.union(BboxView::point(nx as int, ny as int))
        } else {
            &&& next == cur
            &&& next_queue == queue
            &&& next_b == b
        },
    ensures
        spreading(orig, next, next_queue, next_b, seed, fill, Some(busy)),
        in_canvas(nx as int, ny as int) ==> pixel(next, nx as int, ny as int) != pixel(
            orig,
            seed.0,
            seed.1,
        ),
        forall|x: int, y: int|
            in_canvas(x, y) && pixel(cur, x, y) != pixel(orig, seed.0, seed.1) ==> #[trigger] pixel(
                next,
                x,
                y,
            ) != pixel(orig, seed.0, seed.1),
        next == cur && next_queue == queue || count(next, pixel(orig, seed.0, seed.1)) < count(
            cur,
            pixel(orig, seed.0, seed.1),
        ),
{
    let target = pixel(orig, seed.0, seed.1);
    if in_canvas(nx as int, ny as int) && pixel(cur, nx as int, ny as int) == target {
        lemma_spread(orig, cur, queue, b, seed, fill, busy, nx, ny);
        lemma_index(nx as int, ny as int);
        lemma_count_update(cur, index(nx as int, ny as int), target, fill);
        assert forall|x: int, y: int|
            in_canvas(x, y) && pixel(cur, x, y) != target implies #[trigger] pixel(next, x, y)
            != target by {
            lemma_index(x, y);
        }
    }
}

/// Once all four neighbours have been visited, the busy pixel is settled.
proof fn lemma_all_visited(
    orig: Seq<Color>,
    cur: Seq<Color>,
    queue: Seq<(usize, usize)>,
    b: BboxView,
    seed: (int, int),
    fill: Color,
    busy: (int, int),
)
    requires
        spreading(orig, cur, queue, b, seed, fill, Some(busy)),
        in_canvas(busy.0 - 1, busy.1) ==> pixel(cur, busy.0 - 1, busy.1) != pixel(
            orig,
            seed.0,
            seed.1,
        ),
        in_canvas(busy.0 + 1, busy.1) ==> pixel(cur, busy.0 + 1, busy.1) != pixel(
            orig,
            seed.0,
            seed.1,
        ),
        in_canvas(busy.0, busy.1 - 1) ==> pixel(cur, busy.0, busy.1 - 1) != pixel(
            orig,
            seed.0,
            seed.1,
        ),
        in_canvas(busy.0, busy.1 + 1) ==> pixel(cur, busy.0, busy.1 + 1) != pixel(
            orig,
            seed.0,
            seed.1,
        ),
    ensures
        spreading(orig, cur, queue, b, seed, fill, None),
{
    let target = pixel(orig, seed.0, seed.1);
    assert(settled(cur, target, busy.0, busy.1));
}

/// Fill one pixel and queue it, if it is on the canvas and in the target colour.
fn visit(
    pixels: &mut Vec<Color>,
    queue: &mut VecDeque<(usize, usize)>,
    bbox: &mut Bbox,
    nx: usize,
    ny: usize,
    target: Color,
    fill: Color,
)
    requires
        is_canvas(old(pixels)@),
    ensures
        if in_canvas(nx as int, ny as int) && pixel(old(pixels)@, nx as int, ny as int) == target {
            &&& final(pixels)@ == old(pixels)@.update(index(nx as int, ny as int), fill)
            &&& final(queue)@ == old(queue)@.push((nx, ny))
            &&& final(bbox)@ == old(bbox)@.union(BboxView::point(nx as int, ny as int))
        } else {
            &&& final(pixels)@ == old(pixels)@
            &&& final(queue)@ == old(queue)@
            &&& final(bbox)@ == old(bbox)@
        },
{
    if nx < CANVAS_W && ny < CANVAS_H {
        proof {
            lemma_index(nx as int, ny as int);
        }
        if pixels[ny * CANVAS_W + nx] == target {
            pixels.set(ny * CANVAS_W + nx, fill);
            queue.push_back((nx, ny));
            bbox.include_point(nx as i32, ny as i32);
        }
    }
}

/// BFS flood fill. Returns the bbox of changed pixels, or None if nothing
/// was filled (seed out of bounds or seed already matches the fill colour).
pub fn flood(pixels: &mut Vec<Color>, sx: i32, sy: i32, fill: Color) -> (res: Option<Bbox>)
    requires
        is_canvas(old(pixels)@),
    ensures
        res is Some <==> fillable(old(pixels)@, (sx as int, sy as int), fill),
        res is None ==> final(pixels)@ == old(pixels)@,
        res matches Some(b) ==> {
            &&& final(pixels)@ == flooded(old(pixels)@, (sx as int, sy as int), fill)
            &&& is_change_box(b@, old(pixels)@, final(pixels)@)
            &&& b@ == change_box(old(pixels)@, final(pixels)@)
        },
{
    if sx < 0 || sx >= CANVAS_W as i32 || sy < 0 || sy >= CANVAS_H as i32 {
        return None;
    }
    let tx: usize = sx as usize;
    let ty: usize = sy as usize;
    proof {
        lemma_index(tx as int, ty as int);
    }
    let target: Color = pixels[ty * CANVAS_W + tx];
    if target == fill {
        return None;
    }
    let ghost orig = pixels@;
    let ghost seed = (sx as int, sy as int);
    let mut queue: VecDeque<(usize, usize)> = VecDeque::new();
    pixels.set(ty * CANVAS_W + tx, fill);
    queue.push_back((tx, ty));
    let mut bbox: Bbox = Bbox::point(sx, sy);
    proof {
        lemma_spread_start(orig, (tx, ty), fill);
    }
    loop
        invariant
            spreading(orig, pixels@, queue@, bbox@, seed, fill, None),
            target == pixel(orig, seed.0, seed.1),
            target != fill,
        ensures
            queue@ == Seq::<(usize, usize)>::empty(),
        decreases count(pixels@, target), queue@.len(),
    {
        let ghost waiting = queue@;
        let (x, y): (usize, usize) = match queue.pop_front() {
            Some(p) => p,
            None => {
                break;
            },
        };
        proof {
            lemma_take_next(orig, pixels@, waiting, bbox@, seed, fill);
            assert(queue@ =~= waiting.subrange(1, waiting.len() as int));
        }
        let ghost p0 = (x as int, y as int);
        let ghost c0 = pixels@;
        let ghost q0 = queue@;
        let ghost b0 = bbox@;
        visit(pixels, &mut queue, &mut bbox, x.wrapping_sub(1), y, target, fill);
        proof {
            if x > 0 {
                lemma_visited(
                    orig,
                    c0,
                    q0,
                    b0,
                    pixels@,
                    queue@,
                    bbox@,
                    seed,
                    fill,
                    p0,
                    (x - 1) as usize,
                    y,
                );
            }
        }
        let ghost c1 = pixels@;
        let ghost q1 = queue@;
        let ghost b1 = bbox@;
        visit(pixels, &mut queue, &mut bbox, x + 1, y, target, fill);
        proof {
            lemma_visited(
                orig,
                c1,
                q1,
                b1,
                pixels@,
                queue@,
                bbox@,
                seed,
                fill,
                p0,
                (x + 1) as usize,
                y,
            );
        }
        let ghost c2 = pixels@;
        let ghost q2 = queue@;
        let ghost b2 = bbox@;
        visit(pixels, &mut queue, &mut bbox, x, y.wrapping_sub(1), target, fill);
        proof {
            if y > 0 {
                lemma_visited(
                    orig,
                    c2,
                    q2,
                    b2,
                    pixels@,
                    queue@,
                    bbox@,
                    seed,
                    fill,
                    p0,
                    x,
                    (y - 1) as usize,
                );
            }
        }
        let ghost c3 = pixels@;
        let ghost q3 = queue@;
        let ghost b3 = bbox@;
        visit(pixels, &mut queue, &mut bbox, x, y + 1, target, fill);
        proof {
            lemma_visited(
                orig,
                c3,
                q3,
                b3,
                pixels@,
                queue@,
                bbox@,
                seed,
                fill,
                p0,
                x,
                (y + 1) as usize,
            );
            lemma_all_visited(orig, pixels@, queue@, bbox@, seed, fill, p0);
        }
    }
    proof {
        lemma_spread_done(orig, pixels@, bbox@, seed, fill);
    }
    Some(bbox)
}

} // verus!
