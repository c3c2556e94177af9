//! The canvas: a row-major pixel buffer of fixed size.

use vstd::prelude::*;

use crate::color::Color;

verus! {

/// Canvas width in pixels.
pub const CANVAS_W: usize = 1200;

/// Canvas height in pixels.
pub const CANVAS_H: usize = 800;

/// `(x, y)` is a pixel of the canvas.
pub open spec fn in_canvas(x: int, y: int) -> bool {
    0 <= x < CANVAS_W && 0 <= y < CANVAS_H
}

/// The position of pixel `(x, y)` in a row-major buffer.
pub open spec fn index(x: int, y: int) -> int {
    y * CANVAS_W + x
}

/// `pixels` holds one colour for every pixel of the canvas.
pub open spec fn is_canvas(pixels: Seq<Color>) -> bool {
    pixels.len() == CANVAS_W * CANVAS_H
}

/// The colour of pixel `(x, y)`.
pub open spec fn pixel(pixels: Seq<Color>, x: int, y: int) -> Color {
    pixels[index(x, y)]
}

/// A set of pixel positions, given by its membership test.
pub type Region = spec_fn(int, int) -> bool;

/// `pixels` with every pixel of `region` set to `color`.
pub open spec fn repaint(pixels: Seq<Color>, region: Region, color: Color) -> Seq<Color> {
    Seq::new(
        pixels.len(),
        |i: int|
            if region(i % (CANVAS_W as int), i / (CANVAS_W as int)) {
                color
            } else {
                pixels[i]
            },
    )
}

/// The canvas with every pixel in one colour.
pub open spec fn blank(color: Color) -> Seq<Color> {
    Seq::new((CANVAS_W * CANVAS_H) as nat, |i: int| color)
}

/// Row-major positions and coordinates determine each other.
pub proof fn lemma_index(x: int, y: int)
    requires
        in_canvas(x, y),
    ensures
        0 <= index(x, y) < CANVAS_W * CANVAS_H,
        index(x, y) % (CANVAS_W as int) == x,
        index(x, y) / (CANVAS_W as int) == y,
{
}

/// Every position of a canvas buffer is the position of one pixel.
pub proof fn lemma_coords(i: int)
    requires
        0 <= i < CANVAS_W * CANVAS_H,
    ensures
        in_canvas(i % (CANVAS_W as int), i / (CANVAS_W as int)),
        index(i % (CANVAS_W as int), i / (CANVAS_W as int)) == i,
{
}

/// What a repainted canvas shows at a pixel.
pub proof fn lemma_repaint_pixel(
    pixels: Seq<Color>,
    region: Region,
    color: Color,
    x: int,
    y: int,
)
    requires
        is_canvas(pixels),
        in_canvas(x, y),
    ensures
        is_canvas(repaint(pixels, region, color)),
        pixel(repaint(pixels, region, color), x, y) == if region(x, y) {
            color
        } else {
            pixel(pixels, x, y)
        },
{
    lemma_index(x, y);
}

/// Two canvases that agree on every pixel are equal.
pub proof fn lemma_same_pixels(a: Seq<Color>, b: Seq<Color>)
    requires
        is_canvas(a),
        is_canvas(b),
        forall|x: int, y: int|
            in_canvas(x, y) ==> #[trigger] pixel(a, x, y) == pixel(b, x, y),
    ensures
        a == b,
{
    assert forall|i: int| 0 <= i < a.len() implies a[i] == b[i] by {
        lemma_coords(i);
        let x = i % (CANVAS_W as int);
        let y = i / (CANVAS_W as int);
        assert(pixel(a, x, y) == pixel(b, x, y));
    }
    assert(a =~= b);
}

} // verus!
