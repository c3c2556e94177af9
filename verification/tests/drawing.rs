use master_paint::bbox::Bbox;
use master_paint::canvas::{CANVAS_H, CANVAS_W};
use master_paint::color::Color;
use master_paint::paint::MasterPaint;
use master_paint::state::{ShapeKind, Tool};

fn new_paint() -> MasterPaint<()> {
    MasterPaint::default()
}

fn pixel(p: &MasterPaint<()>, x: usize, y: usize) -> Color {
    p.pixels[y * CANVAS_W + x]
}

fn painted(p: &MasterPaint<()>, c: Color) -> Vec<(usize, usize)> {
    let mut out = Vec::new();
    for y in 0..CANVAS_H {
        for x in 0..CANVAS_W {
            if pixel(p, x, y) == c {
                out.push((x, y));
            }
        }
    }
    out
}

fn red() -> Color {
    Color::new(255, 0, 0, 255)
}

/// The textbook loop, as a list of points.
fn bresenham(mut x0: i32, mut y0: i32, x1: i32, y1: i32) -> Vec<(i32, i32)> {
    let dx = (x1 - x0).abs();
    let dy = (y1 - y0).abs();
    let sx = if x0 < x1 { 1 } else { -1 };
    let sy = if y0 < y1 { 1 } else { -1 };
    let mut err = dx - dy;
    let mut out = Vec::new();
    loop {
        out.push((x0, y0));
        if x0 == x1 && y0 == y1 {
            return out;
        }
        let e2 = 2 * err;
        if e2 > -dy {
            err -= dy;
            x0 += sx;
        }
        if e2 < dx {
            err += dx;
            y0 += sy;
        }
    }
}

#[test]
fn a_new_painting_is_white() {
    let p = new_paint();
    assert_eq!(p.pixels.len(), 1200 * 800);
    assert!(p.pixels.iter().all(|c| *c == Color::new(255, 255, 255, 255)));
    assert_eq!(p.tool, Tool::Brush);
    assert_eq!(p.shape_kind, ShapeKind::Rect);
    assert_eq!(p.brush_size, 5);
    assert_eq!(p.color, Color::new(0, 0, 0, 255));
    assert!(p.dirty);
    assert!(p.history.is_empty());
    assert!(p.stroke_pre.is_none());
    assert_eq!(p.stroke_bbox, None);
}

#[test]
fn only_the_eraser_paints_white() {
    let mut p = new_paint();
    p.color = red();
    for tool in [Tool::Brush, Tool::FloodFill, Tool::Line, Tool::Shape, Tool::Crop] {
        p.tool = tool;
        assert_eq!(p.active_color(), red());
    }
    p.tool = Tool::Eraser;
    assert_eq!(p.active_color(), Color::white());
}

#[test]
fn a_stamp_is_a_filled_circle() {
    let mut p = new_paint();
    p.dirty = false;
    p.stamp_circle(100, 200, red());
    assert!(p.dirty);
    assert_eq!(painted(&p, red()).len(), 81);
    assert_eq!(pixel(&p, 105, 200), red());
    assert_eq!(pixel(&p, 106, 200), Color::white());
    assert_eq!(pixel(&p, 103, 204), red());
    assert_eq!(pixel(&p, 104, 204), Color::white());
    assert_eq!(pixel(&p, 100, 195), red());
    assert_eq!(pixel(&p, 100, 194), Color::white());
}

#[test]
fn stamp_sizes() {
    for (size, pixels) in [(0, 1), (1, 5), (2, 13), (3, 29), (50, 7845)] {
        let mut p = new_paint();
        p.brush_size = size;
        p.stamp_circle(600, 400, red());
        assert_eq!(painted(&p, red()).len(), pixels);
    }
}

#[test]
fn stamp_rows_are_as_wide_as_the_square_root_says() {
    for r in 0..=50 {
        let mut p = new_paint();
        p.brush_size = r;
        p.stamp_circle(600, 400, red());
        for dy in -r..=r {
            let w = ((r * r - dy * dy) as f32).sqrt() as i32;
            let row: Vec<i32> = (0..CANVAS_W as i32)
                .filter(|x| pixel(&p, *x as usize, (400 + dy) as usize) == red())
                .collect();
            assert_eq!(row, (600 - w..=600 + w).collect::<Vec<i32>>());
        }
    }
}

#[test]
fn a_stamp_is_cut_off_at_the_edge() {
    let mut p = new_paint();
    p.brush_size = 2;
    p.stamp_circle(0, 0, red());
    assert_eq!(painted(&p, red()), vec![(0, 0), (1, 0), (2, 0), (0, 1), (1, 1), (0, 2)]);
    let mut p = new_paint();
    p.brush_size = 1;
    p.stamp_circle(1199, 799, red());
    assert_eq!(painted(&p, red()), vec![(1199, 798), (1198, 799), (1199, 799)]);
    let mut p = new_paint();
    p.stamp_circle(-6, 100, red());
    p.stamp_circle(100, 805, red());
    assert_eq!(painted(&p, red()).len(), 0);
    assert!(p.dirty);
}

#[test]
fn a_brush_of_negative_size_paints_nothing() {
    let mut p = new_paint();
    p.dirty = false;
    p.brush_size = -1;
    p.begin_stroke();
    p.stamp_circle(100, 100, red());
    p.stroke_canvas(0, 0, 50, 50, red());
    p.stroke_outline(&vec![(1, 1), (9, 9)], red());
    assert_eq!(painted(&p, red()).len(), 0);
    assert!(!p.dirty);
    assert_eq!(p.stroke_bbox, None);
}

#[test]
fn a_line_goes_through_the_nearest_pixels() {
    let mut p = new_paint();
    p.brush_size = 0;
    p.stroke_canvas(0, 0, 4, 2, red());
    assert_eq!(painted(&p, red()), vec![(0, 0), (1, 0), (2, 1), (3, 1), (4, 2)]);
}

#[test]
fn lines_in_every_direction() {
    for (x1, y1) in [
        (20, 20), (30, 20), (10, 20), (20, 30), (20, 10), (31, 23), (9, 13), (27, 5), (12, 38),
        (21, 20), (19, 21), (40, 39), (3, 33),
    ] {
        let mut p = new_paint();
        p.brush_size = 0;
        p.stroke_canvas(20, 20, x1, y1, red());
        let mut want: Vec<(usize, usize)> = bresenham(20, 20, x1, y1)
            .into_iter()
            .map(|(x, y)| (x as usize, y as usize))
            .collect();
        want.sort_by_key(|q| (q.1, q.0));
        assert_eq!(painted(&p, red()), want);
    }
}

#[test]
fn a_line_may_start_and_end_off_the_canvas() {
    let mut p = new_paint();
    p.brush_size = 0;
    p.stroke_canvas(-3, 10, 2, 10, red());
    p.stroke_canvas(5000, 799, 1198, 799, red());
    assert_eq!(
        painted(&p, red()),
        vec![(0, 10), (1, 10), (2, 10), (1198, 799), (1199, 799)]
    );
}

#[test]
fn a_line_that_goes_nowhere_is_a_stamp() {
    let mut p = new_paint();
    p.stroke_canvas(50, 60, 50, 60, red());
    let mut q = new_paint();
    q.stamp_circle(50, 60, red());
    assert_eq!(p.pixels, q.pixels);
}

#[test]
fn painting_a_line_again_changes_nothing() {
    let mut p = new_paint();
    p.stroke_canvas(50, 60, 90, 75, red());
    let once = p.pixels.clone();
    p.stroke_canvas(50, 60, 90, 75, red());
    assert_eq!(p.pixels, once);
}

#[test]
fn a_thick_line_stays_in_its_box() {
    let mut p = new_paint();
    p.begin_stroke();
    p.brush_size = 4;
    p.stroke_canvas(50, 60, 90, 75, red());
    assert_eq!(p.stroke_bbox, Some(Bbox { lx: 46, ty: 56, rx: 94, by: 79 }));
    let all = painted(&p, red());
    assert!(all.iter().all(|(x, y)| (46..=94).contains(x) && (56..=79).contains(y)));
    assert_eq!(pixel(&p, 46, 60), red());
    assert_eq!(pixel(&p, 94, 75), red());
    assert_eq!(pixel(&p, 50, 56), red());
    assert_eq!(pixel(&p, 90, 79), red());
}

#[test]
fn stroke_boxes_add_up_only_while_a_stroke_is_pending() {
    let mut p = new_paint();
    p.extend_stroke_bbox(Bbox::point(1, 1));
    assert_eq!(p.stroke_bbox, None);
    p.begin_stroke();
    p.extend_stroke_bbox(Bbox::point(4, 9));
    assert_eq!(p.stroke_bbox, Some(Bbox::point(4, 9)));
    p.extend_stroke_bbox(Bbox::point(2, 12));
    assert_eq!(p.stroke_bbox, Some(Bbox { lx: 2, ty: 9, rx: 4, by: 12 }));
}

#[test]
fn dots_and_strokes_use_the_active_colour() {
    let mut p = new_paint();
    p.brush_size = 0;
    p.color = red();
    p.paint_dot(7, 8);
    p.paint_stroke((20, 20), (22, 20));
    assert_eq!(painted(&p, red()), vec![(7, 8), (20, 20), (21, 20), (22, 20)]);
    p.tool = Tool::Eraser;
    p.paint_dot(7, 8);
    p.paint_stroke((21, 20), (30, 20));
    assert_eq!(painted(&p, red()), vec![(20, 20)]);
}

#[test]
fn a_rectangle_is_its_four_sides() {
    let mut p = new_paint();
    p.brush_size = 0;
    p.color = red();
    p.commit_shape((13, 22), (10, 20), &Vec::new());
    assert_eq!(
        painted(&p, red()),
        vec![
            (10, 20), (11, 20), (12, 20), (13, 20),
            (10, 21), (13, 21),
            (10, 22), (11, 22), (12, 22), (13, 22),
        ]
    );
}

#[test]
fn an_ellipse_is_the_closed_outline_of_its_points() {
    let mut p = new_paint();
    p.brush_size = 0;
    p.color = red();
    p.shape_kind = ShapeKind::Ellipse;
    p.commit_shape((0, 0), (4, 4), &vec![(4, 2), (2, 4), (0, 2), (2, 0)]);
    assert_eq!(
        painted(&p, red()),
        vec![(2, 0), (1, 1), (3, 1), (0, 2), (4, 2), (1, 3), (3, 3), (2, 4)]
    );
}

#[test]
fn outlines_of_one_point_and_of_none() {
    let mut p = new_paint();
    p.brush_size = 0;
    p.dirty = false;
    p.stroke_outline(&Vec::new(), red());
    assert!(!p.dirty);
    p.stroke_outline(&vec![(3, 4)], red());
    assert_eq!(painted(&p, red()), vec![(3, 4)]);
    assert!(p.dirty);
}
