# master_paint

The core of a small raster paint program, written and proved in Verus: a
canvas of 1200 by 800 pixels with brush, eraser, flood fill, line, rectangle,
ellipse and crop, and an undo history of the last 50 changes.

- `src/` is the verified library. `state.rs` holds the model of a painting and
  what each operation makes of it; `paint.rs` and `input.rs` hold the
  executable operations, each proved equal to its model; `bbox.rs`,
  `canvas.rs`, `patch.rs`, `line.rs`, `disc.rs`, `fill.rs` and `crop.rs` hold
  the algorithms; `stroke.rs` shows how strokes add up; `laws.rs` states what
  holds across operations, above all that undo takes back every recorded
  change.
- `app/` is the window around it: the toolbar, the texture, and the conversion
  of screen positions, colours and curves, which needs floating point.
- `tests/` runs the library on concrete values.
