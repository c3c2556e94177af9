use master_paint::canvas::CANVAS_W;
use master_paint::color::Color;
use master_paint::input::{ellipse_frame, Action, EllipseFrame, Pointer, Preview};
use master_paint::paint::MasterPaint;
use master_paint::state::{ShapeKind, Tool};

type At = (i32, i32);

fn new_paint(tool: Tool) -> MasterPaint<At> {
    let mut p: MasterPaint<At> = MasterPaint::default();
    p.tool = tool;
    p
}

fn held(at: At) -> Pointer<At> {
    Pointer { hover: Some(at), inside: true, down: true, pressed: false }
}

fn outside(at: At) -> Pointer<At> {
    Pointer { hover: Some(at), inside: false, down: true, pressed: false }
}

fn released(hover: Option<At>) -> Pointer<At> {
    Pointer { hover, inside: true, down: false, pressed: false }
}

#[test]
fn a_press_on_the_canvas_fills() {
    let mut p = new_paint(Tool::FloodFill);
    let press = Pointer { hover: Some((4, 5)), inside: true, down: true, pressed: true };
    assert_eq!(p.pointer(press), Action::Fill((4, 5)));
    assert_eq!(p.pointer(held((4, 5))), Action::Idle);
    let off = Pointer { hover: Some((4, 5)), inside: false, down: true, pressed: true };
    assert_eq!(p.pointer(off), Action::Idle);
    let gone = Pointer { hover: None, inside: true, down: true, pressed: true };
    assert_eq!(p.pointer(gone), Action::Idle);
    assert_eq!((p.last_pos, p.drag_start), (None, None));
}

#[test]
fn a_drag_goes_from_press_to_release() {
    for tool in [Tool::Line, Tool::Shape, Tool::Crop] {
        let mut p = new_paint(tool);
        assert_eq!(p.pointer(outside((1, 1))), Action::Idle);
        assert_eq!(p.drag_start, None);
        assert_eq!(p.pointer(held((2, 2))), Action::Idle);
        assert_eq!(p.drag_start, Some((2, 2)));
        assert_eq!(p.pointer(held((3, 3))), Action::Idle);
        assert_eq!(p.pointer(outside((4, 4))), Action::Idle);
        assert_eq!(p.drag_start, Some((2, 2)));
        assert_eq!(p.pointer(released(Some((9, 8)))), Action::Drag((2, 2), (9, 8)));
        assert_eq!(p.drag_start, None);
        assert_eq!(p.pointer(released(Some((9, 8)))), Action::Idle);
    }
}

#[test]
fn a_drag_released_off_the_window_ends_where_it_started() {
    let mut p = new_paint(Tool::Line);
    p.pointer(held((2, 2)));
    assert_eq!(p.pointer(released(None)), Action::Drag((2, 2), (2, 2)));
}

#[test]
fn the_segments_of_a_stroke_join_up() {
    for tool in [Tool::Brush, Tool::Eraser] {
        let mut p = new_paint(tool);
        assert_eq!(p.pointer(held((1, 1))), Action::Begin((1, 1)));
        assert_eq!(p.pointer(held((2, 3))), Action::Continue((1, 1), (2, 3)));
        assert_eq!(p.pointer(held((5, 8))), Action::Continue((2, 3), (5, 8)));
        assert_eq!(p.pointer(outside((6, 9))), Action::Idle);
        assert_eq!(p.last_pos, None);
        assert_eq!(p.pointer(held((7, 9))), Action::Begin((7, 9)));
        let gone = Pointer { hover: None, inside: false, down: true, pressed: false };
        assert_eq!(p.pointer(gone), Action::Idle);
        assert_eq!(p.last_pos, None);
        assert_eq!(p.pointer(held((7, 9))), Action::Begin((7, 9)));
        assert_eq!(p.pointer(released(Some((7, 9)))), Action::End);
        assert_eq!(p.last_pos, None);
        assert_eq!(p.pointer(released(None)), Action::End);
    }
}

#[test]
fn previews_follow_the_tool() {
    let mut p = new_paint(Tool::Line);
    assert_eq!(p.preview(Some((5, 5))), None);
    p.drag_start = Some((1, 2));
    assert_eq!(p.preview(Some((5, 5))), Some(Preview::Line((1, 2), (5, 5))));
    assert_eq!(p.preview(None), Some(Preview::Line((1, 2), (1, 2))));
    p.tool = Tool::Shape;
    assert_eq!(p.preview(Some((5, 5))), Some(Preview::Rect((1, 2), (5, 5))));
    p.shape_kind = ShapeKind::Ellipse;
    assert_eq!(p.preview(Some((5, 5))), Some(Preview::Ellipse((1, 2), (5, 5))));
    p.tool = Tool::Crop;
    assert_eq!(p.preview(Some((5, 5))), Some(Preview::Crop((1, 2), (5, 5))));
    for tool in [Tool::Brush, Tool::Eraser, Tool::FloodFill] {
        p.tool = tool;
        assert_eq!(p.preview(Some((5, 5))), None);
    }
}

#[test]
fn a_preview_shows_what_a_release_draws() {
    let mut p = new_paint(Tool::Crop);
    p.pointer(held((2, 2)));
    assert_eq!(p.preview(Some((9, 8))), Some(Preview::Crop((2, 2), (9, 8))));
    assert_eq!(p.pointer(released(Some((9, 8)))), Action::Drag((2, 2), (9, 8)));
    assert_eq!(p.preview(Some((9, 8))), None);
}

#[test]
fn tools_offer_what_they_use() {
    let all = [Tool::Brush, Tool::Eraser, Tool::FloodFill, Tool::Line, Tool::Shape, Tool::Crop];
    let shape: Vec<bool> = all.iter().map(|t| t.offers_shape()).collect();
    let size: Vec<bool> = all.iter().map(|t| t.offers_size()).collect();
    let color: Vec<bool> = all.iter().map(|t| t.offers_color()).collect();
    assert_eq!(shape, vec![false, false, false, false, true, false]);
    assert_eq!(size, vec![true, true, false, true, true, false]);
    assert_eq!(color, vec![true, false, true, true, true, false]);
}

#[test]
fn the_canvas_is_shown_when_it_has_changed() {
    let mut p = new_paint(Tool::Brush);
    assert!(p.take_dirty(true));
    assert!(!p.take_dirty(true));
    assert!(p.take_dirty(false));
    p.paint_dot(5, 5);
    assert!(p.take_dirty(true));
    assert!(!p.dirty);
}

#[test]
fn actions_are_carried_out() {
    let none: Vec<At> = Vec::new();
    let mut p = new_paint(Tool::Brush);
    p.brush_size = 0;
    p.perform(Action::Idle, &none);
    assert!(!p.can_undo());
    p.perform(Action::Begin((3, 3)), &none);
    p.perform(Action::Continue((3, 3), (5, 3)), &none);
    assert!(!p.can_undo());
    p.perform(Action::End, &none);
    assert!(p.can_undo());
    let line: Vec<bool> = (2..7).map(|x| p.pixels[3 * CANVAS_W + x] == Color::black()).collect();
    assert_eq!(line, vec![false, true, true, true, false]);
    p.color = Color::new(0, 0, 255, 255);
    p.perform(Action::Fill((4, 3)), &none);
    assert_eq!(p.pixels[3 * CANVAS_W + 5], Color::new(0, 0, 255, 255));
    p.tool = Tool::Line;
    p.perform(Action::Drag((0, 0), (0, 2)), &none);
    assert_eq!(p.pixels[2 * CANVAS_W], Color::new(0, 0, 255, 255));
    assert_eq!(p.history.len(), 3);
    p.undo();
    p.undo();
    p.undo();
    assert!(p.pixels.iter().all(|c| *c == Color::white()));
}

#[test]
fn actions_beyond_the_range_of_coordinates_are_told_apart() {
    let none: Vec<At> = Vec::new();
    let mut p = new_paint(Tool::Brush);
    assert!(p.can_perform(&Action::Begin((i32::MAX - 5, 0)), &none));
    assert!(!p.can_perform(&Action::Begin((i32::MAX - 4, 0)), &none));
    assert!(!p.can_perform(&Action::Continue((0, 0), (0, i32::MIN)), &none));
    assert!(p.can_perform(&Action::Fill((i32::MIN, i32::MAX)), &none));
    assert!(p.can_perform(&Action::End, &none));
    assert!(p.can_perform(&Action::Drag((i32::MAX, 0), (0, 0)), &none));
    p.tool = Tool::Line;
    assert!(!p.can_perform(&Action::Drag((i32::MAX, 0), (0, 0)), &none));
    p.tool = Tool::Crop;
    assert!(p.can_perform(&Action::Drag((i32::MAX, 0), (0, 0)), &none));
    p.tool = Tool::Shape;
    assert!(p.can_perform(&Action::Drag((9, 9), (0, 0)), &vec![(i32::MAX, 0)]));
    assert!(!p.can_perform(&Action::Drag((9, i32::MAX), (0, 0)), &none));
    p.shape_kind = ShapeKind::Ellipse;
    assert!(!p.can_perform(&Action::Drag((9, 9), (0, 0)), &vec![(i32::MAX, 0)]));
    assert!(p.can_perform(&Action::Drag((9, 9), (0, 0)), &vec![(9, 4), (4, 9)]));
    p.brush_size = -1;
    assert!(p.can_perform(&Action::Drag((9, 9), (0, 0)), &vec![(i32::MAX, 0)]));
    assert!(p.can_perform(&Action::Begin((i32::MAX, 0)), &none));
}

#[test]
fn ellipses_lie_between_their_corners() {
    assert_eq!(
        ellipse_frame((10, 20), (30, 25)),
        EllipseFrame { twice_cx: 40, twice_cy: 45, rx: 10, ry: 2 }
    );
    assert_eq!(
        ellipse_frame((30, 5), (-31, 5)),
        EllipseFrame { twice_cx: -1, twice_cy: 10, rx: 30, ry: 1 }
    );
    assert_eq!(
        ellipse_frame((i32::MIN, 0), (i32::MAX, 1)),
        EllipseFrame { twice_cx: -1, twice_cy: 1, rx: 2147483647, ry: 1 }
    );
}
