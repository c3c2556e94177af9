use master_paint::bbox::Bbox;
use master_paint::canvas::CANVAS_W;
use master_paint::color::Color;
use master_paint::paint::MasterPaint;
use master_paint::patch::{make_patch, put_back, Patch};
use master_paint::state::{ShapeKind, Tool, HISTORY_CAP};

fn new_paint() -> MasterPaint<()> {
    MasterPaint::default()
}

fn red() -> Color {
    Color::new(255, 0, 0, 255)
}

fn shade(i: usize) -> Color {
    Color::new(i as u8, 0, 0, 255)
}

#[test]
fn a_patch_holds_the_pixels_of_its_box() {
    let mut p = new_paint();
    for i in 0..12 {
        p.pixels[(7 + i / 4) * CANVAS_W + 3 + i % 4] = shade(i);
    }
    let patch = make_patch(&p.pixels, Bbox { lx: 3, ty: 7, rx: 6, by: 9 }).unwrap();
    assert_eq!((patch.x, patch.y, patch.w, patch.h), (3, 7, 4, 3));
    assert_eq!(patch.pixels, (0..12).map(shade).collect::<Vec<Color>>());
}

#[test]
fn a_patch_is_cut_to_the_canvas() {
    let p = new_paint();
    let patch = make_patch(&p.pixels, Bbox { lx: -5, ty: 795, rx: 1, by: 900 }).unwrap();
    assert_eq!((patch.x, patch.y, patch.w, patch.h), (0, 795, 2, 5));
    assert_eq!(patch.pixels.len(), 10);
    assert!(make_patch(&p.pixels, Bbox { lx: -5, ty: 0, rx: -1, by: 9 }).is_none());
}

#[test]
fn putting_a_patch_back_touches_only_its_box() {
    let mut px = vec![red(); 1200 * 800];
    let patch = Patch { x: 10, y: 20, w: 2, h: 2, pixels: (0..4).map(shade).collect() };
    put_back(&mut px, &patch);
    assert_eq!(px[20 * CANVAS_W + 10], shade(0));
    assert_eq!(px[20 * CANVAS_W + 11], shade(1));
    assert_eq!(px[21 * CANVAS_W + 10], shade(2));
    assert_eq!(px[21 * CANVAS_W + 11], shade(3));
    assert_eq!(px.iter().filter(|c| **c == red()).count(), 1200 * 800 - 4);
}

#[test]
fn undo_without_history_does_nothing() {
    let mut p = new_paint();
    p.dirty = false;
    p.undo();
    assert!(!p.dirty);
    assert!(!p.can_undo());
}

#[test]
fn undo_takes_back_a_stroke_of_many_segments() {
    let mut p = new_paint();
    p.begin_stroke();
    p.paint_dot(100, 100);
    p.paint_stroke((100, 100), (150, 120));
    p.paint_stroke((150, 120), (90, 300));
    assert!(!p.can_undo());
    p.commit_stroke();
    assert_eq!(p.history.len(), 1);
    let patch = &p.history[0];
    assert_eq!((patch.x, patch.y, patch.w, patch.h), (85, 95, 71, 211));
    p.dirty = false;
    p.undo();
    assert!(p.dirty);
    assert_eq!(p.pixels, new_paint().pixels);
    assert!(!p.can_undo());
}

#[test]
fn a_stroke_off_the_canvas_is_not_recorded() {
    let mut p = new_paint();
    p.begin_stroke();
    p.paint_stroke((-100, -100), (-50, -20));
    p.commit_stroke();
    assert!(!p.can_undo());
    assert!(p.stroke_pre.is_none());
    assert_eq!(p.stroke_bbox, None);
    p.begin_stroke();
    p.commit_stroke();
    assert!(!p.can_undo());
}

#[test]
fn a_new_stroke_commits_the_pending_one() {
    let mut p = new_paint();
    p.begin_stroke();
    p.paint_dot(100, 100);
    let first = p.pixels.clone();
    p.begin_stroke();
    assert_eq!(p.history.len(), 1);
    p.paint_dot(300, 300);
    p.commit_stroke();
    assert_eq!(p.history.len(), 2);
    p.undo();
    assert_eq!(p.pixels, first);
    p.undo();
    assert_eq!(p.pixels, new_paint().pixels);
}

#[test]
fn undo_takes_back_lines_shapes_crops_fills_and_clears() {
    let mut p = new_paint();
    let none: Vec<(i32, i32)> = Vec::new();
    let mut seen = vec![p.pixels.clone()];
    p.tool = Tool::Line;
    p.commit_drag_tool((-20, 30), (400, 500), &none);
    seen.push(p.pixels.clone());
    p.tool = Tool::Shape;
    p.commit_drag_tool((600, 100), (500, 300), &none);
    seen.push(p.pixels.clone());
    p.shape_kind = ShapeKind::Ellipse;
    p.commit_drag_tool((50, 50), (90, 90), &vec![(90, 70), (70, 90), (50, 70), (70, 50)]);
    seen.push(p.pixels.clone());
    p.color = red();
    p.commit_fill(550, 200);
    seen.push(p.pixels.clone());
    p.tool = Tool::Crop;
    p.commit_drag_tool((30, 20), (700, 600), &none);
    seen.push(p.pixels.clone());
    p.clear_canvas();
    assert_eq!(p.pixels, seen[0]);
    assert_eq!(p.history.len(), 6);
    for want in seen.iter().rev() {
        assert!(p.can_undo());
        p.undo();
        assert_eq!(p.pixels, *want);
    }
    assert!(!p.can_undo());
}

#[test]
fn a_line_off_the_canvas_is_not_recorded() {
    let mut p = new_paint();
    p.tool = Tool::Line;
    p.commit_drag_tool((-100, 0), (-50, 700), &Vec::new());
    assert!(!p.can_undo());
    assert_eq!(p.pixels, new_paint().pixels);
}

#[test]
fn a_crop_that_is_too_small_is_recorded_all_the_same() {
    let mut p = new_paint();
    p.tool = Tool::Crop;
    p.commit_drag_tool((5, 5), (6, 6), &Vec::new());
    assert_eq!(p.history.len(), 1);
    assert_eq!(p.history[0].pixels.len(), 1200 * 800);
}

#[test]
fn an_ellipse_without_extent_is_recorded_whole() {
    let mut p = new_paint();
    p.brush_size = 1;
    p.tool = Tool::Shape;
    p.shape_kind = ShapeKind::Ellipse;
    p.commit_drag_tool((100, 100), (100, 100), &vec![(101, 100), (100, 101), (99, 100), (100, 99)]);
    assert_eq!(p.pixels[100 * CANVAS_W + 102], Color::black());
    assert_eq!(p.history.len(), 1);
    let patch = &p.history[0];
    assert_eq!((patch.x, patch.y, patch.w, patch.h), (98, 98, 5, 5));
    p.undo();
    assert_eq!(p.pixels, new_paint().pixels);
}

#[test]
fn the_box_of_a_shape_holds_its_points() {
    let mut p = new_paint();
    p.brush_size = 2;
    let samples = vec![(31, 40), (20, 61)];
    assert_eq!(
        p.shape_bbox((30, 40), (10, 60), &samples),
        Bbox { lx: 8, ty: 38, rx: 32, by: 62 }
    );
    p.shape_kind = ShapeKind::Ellipse;
    assert_eq!(p.shape_box((30, 40), (10, 60), &samples), Bbox { lx: 10, ty: 40, rx: 31, by: 61 });
    assert_eq!(
        p.shape_bbox((30, 40), (10, 60), &samples),
        Bbox { lx: 8, ty: 38, rx: 33, by: 63 }
    );
    assert_eq!(
        p.shape_bbox((30, 40), (10, 60), &vec![(30, 50), (10, 50)]),
        p.line_or_shape_bbox((30, 40), (10, 60))
    );
    assert_eq!(
        p.shape_bbox((30, 40), (10, 60), &Vec::new()),
        p.line_or_shape_bbox((30, 40), (10, 60))
    );
}

#[test]
fn patches_of_no_size_are_kept_in_order_too() {
    let mut p = new_paint();
    for i in 0..51u32 {
        p.push_patch(Patch { x: i, y: 0, w: 0, h: 0, pixels: vec![] });
    }
    assert_eq!(p.history.len(), 50);
    assert_eq!(p.history[0].x, 1);
    assert_eq!(p.history[49].x, 50);
}

#[test]
fn undo_stops_at_the_oldest_patch() {
    let mut p = new_paint();
    p.tool = Tool::Line;
    p.commit_drag_tool((5, 5), (50, 5), &Vec::new());
    p.commit_drag_tool((5, 50), (50, 50), &Vec::new());
    p.undo();
    assert_eq!(p.history.len(), 1);
    p.undo();
    assert_eq!(p.history.len(), 0);
    let bottom = p.pixels.clone();
    p.undo();
    p.undo();
    assert_eq!(p.pixels, bottom);
    assert_eq!(bottom, new_paint().pixels);
}

#[test]
fn a_fill_that_fills_nothing_is_not_recorded() {
    let mut p = new_paint();
    p.color = Color::white();
    p.commit_fill(10, 10);
    assert!(!p.can_undo());
    p.commit_fill(-1, 10);
    assert!(!p.can_undo());
}

#[test]
fn drag_tools_commit_a_pending_stroke_first() {
    let mut p = new_paint();
    p.begin_stroke();
    p.paint_dot(100, 100);
    let dot = p.pixels.clone();
    p.tool = Tool::Line;
    p.commit_drag_tool((300, 300), (400, 300), &Vec::new());
    assert_eq!(p.history.len(), 2);
    p.undo();
    assert_eq!(p.pixels, dot);
    p.undo();
    assert_eq!(p.pixels, new_paint().pixels);
}

#[test]
fn other_tools_only_commit_the_stroke() {
    for tool in [Tool::Brush, Tool::Eraser, Tool::FloodFill] {
        let mut p = new_paint();
        p.begin_stroke();
        p.paint_dot(100, 100);
        let dot = p.pixels.clone();
        p.tool = tool;
        p.commit_drag_tool((300, 300), (400, 300), &Vec::new());
        assert_eq!(p.history.len(), 1);
        assert_eq!(p.pixels, dot);
    }
}

#[test]
fn the_history_keeps_the_latest_fifty() {
    assert_eq!(HISTORY_CAP, 50);
    let mut p = new_paint();
    p.brush_size = 0;
    p.tool = Tool::Line;
    for i in 0..60 {
        p.commit_drag_tool((i * 3, 5), (i * 3, 5), &Vec::new());
    }
    assert_eq!(p.history.len(), 50);
    assert_eq!(p.history[0].x, 30);
    assert_eq!(p.history[49].x, 177);
    for _ in 0..60 {
        p.undo();
    }
    assert!(!p.can_undo());
    // The ten oldest lines are there for good.
    let left: Vec<usize> = (0..CANVAS_W)
        .filter(|x| p.pixels[5 * CANVAS_W + x] == Color::black())
        .collect();
    assert_eq!(left, (0..10).map(|i| i * 3).collect::<Vec<usize>>());
}

#[test]
fn patches_are_pushed_in_order() {
    let mut p = new_paint();
    p.push_patch(Patch { x: 1, y: 2, w: 1, h: 1, pixels: vec![red()] });
    p.push_bbox_patch(Bbox { lx: 4, ty: 5, rx: 6, by: 7 });
    p.push_bbox_patch(Bbox { lx: -4, ty: 5, rx: -1, by: 7 });
    p.push_full_patch();
    assert_eq!(p.history.len(), 3);
    assert_eq!((p.history[1].x, p.history[1].y, p.history[1].w, p.history[1].h), (4, 5, 3, 3));
    assert_eq!((p.history[2].w, p.history[2].h), (1200, 800));
}

#[test]
fn the_box_of_a_line_reaches_as_far_as_the_brush() {
    let p = new_paint();
    assert_eq!(
        p.line_or_shape_bbox((10, 50), (30, 20)),
        Bbox { lx: 5, ty: 15, rx: 35, by: 55 }
    );
}
