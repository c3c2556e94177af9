use master_paint::bbox::Bbox;
use master_paint::canvas::{CANVAS_H, CANVAS_W};

fn bbox(lx: i32, ty: i32, rx: i32, by: i32) -> Bbox {
    Bbox { lx, ty, rx, by }
}

#[test]
fn a_point_is_a_box_of_one_pixel() {
    assert_eq!(Bbox::point(3, -4), bbox(3, -4, 3, -4));
}

#[test]
fn two_points_span_a_box_in_any_order() {
    assert_eq!(Bbox::from_two((5, 9), (2, 11)), bbox(2, 9, 5, 11));
    assert_eq!(Bbox::from_two((2, 11), (5, 9)), bbox(2, 9, 5, 11));
    assert_eq!(Bbox::from_two((7, 7), (7, 7)), Bbox::point(7, 7));
}

#[test]
fn expanding_moves_every_side() {
    assert_eq!(bbox(2, 3, 5, 7).expand(4), bbox(-2, -1, 9, 11));
    assert_eq!(bbox(2, 3, 5, 7).expand(-1), bbox(3, 4, 4, 6));
    assert_eq!(bbox(2, 3, 5, 7).expand(6).expand(-6), bbox(2, 3, 5, 7));
}

#[test]
fn expanding_is_possible_within_i32_only() {
    assert!(Bbox::point(0, 0).can_expand(i32::MAX));
    assert!(!Bbox::point(1, 0).can_expand(i32::MAX));
    assert!(Bbox::point(i32::MAX, i32::MIN).can_expand(0));
    assert!(!Bbox::point(i32::MAX, 0).can_expand(1));
    assert!(!Bbox::point(0, i32::MIN).can_expand(1));
    assert!(!Bbox::point(0, 0).can_expand(i32::MIN));
}

#[test]
fn a_union_holds_both_boxes() {
    let a = bbox(0, 0, 4, 4);
    let b = bbox(-3, 2, 1, 9);
    assert_eq!(a.union(b), bbox(-3, 0, 4, 9));
    assert_eq!(b.union(a), a.union(b));
    assert_eq!(a.union(a), a);
}

#[test]
fn including_points_grows_a_box() {
    let mut b = Bbox::point(5, 5);
    b.include_point(7, 5);
    assert_eq!(b, bbox(5, 5, 7, 5));
    b.include_point(6, 5);
    assert_eq!(b, bbox(5, 5, 7, 5));
    b.include_point(-1, 9);
    assert_eq!(b, bbox(-1, 5, 7, 9));
    b.include_point(0, -2);
    assert_eq!(b, bbox(-1, -2, 7, 9));
}

#[test]
fn clamping_cuts_a_box_to_the_canvas() {
    assert_eq!(bbox(2, 3, 5, 7).clamped(), Some((2, 3, 5, 7)));
    assert_eq!(bbox(-10, -20, 5, 7).clamped(), Some((0, 0, 5, 7)));
    assert_eq!(
        bbox(-1, -1, 5000, 5000).clamped(),
        Some((0, 0, CANVAS_W - 1, CANVAS_H - 1))
    );
    assert_eq!(bbox(1199, 799, 1300, 900).clamped(), Some((1199, 799, 1199, 799)));
}

#[test]
fn a_box_off_the_canvas_has_nothing_left() {
    assert_eq!(bbox(-5, 0, -1, 10).clamped(), None);
    assert_eq!(bbox(0, -5, 10, -1).clamped(), None);
    assert_eq!(bbox(1200, 0, 1300, 10).clamped(), None);
    assert_eq!(bbox(0, 800, 10, 900).clamped(), None);
    // Turned inside out by a negative expansion.
    assert_eq!(bbox(5, 5, 4, 9).clamped(), None);
    assert_eq!(bbox(5, 9, 8, 5).clamped(), None);
}
