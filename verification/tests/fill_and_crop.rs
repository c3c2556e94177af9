use master_paint::bbox::Bbox;
use master_paint::canvas::{CANVAS_H, CANVAS_W};
use master_paint::color::Color;
use master_paint::paint::MasterPaint;

fn new_paint() -> MasterPaint<()> {
    MasterPaint::default()
}

fn red() -> Color {
    Color::new(255, 0, 0, 255)
}

fn set(p: &mut MasterPaint<()>, x: usize, y: usize, c: Color) {
    p.pixels[y * CANVAS_W + x] = c;
}

fn get(p: &MasterPaint<()>, x: usize, y: usize) -> Color {
    p.pixels[y * CANVAS_W + x]
}

/// A picture in which every pixel has its own colour, nearly.
fn patterned() -> MasterPaint<()> {
    let mut p = new_paint();
    for y in 0..CANVAS_H {
        for x in 0..CANVAS_W {
            let c = Color::new((x % 256) as u8, (x / 256) as u8, (y % 256) as u8, (y / 256) as u8);
            set(&mut p, x, y, c);
        }
    }
    p
}

#[test]
fn a_fill_covers_an_empty_canvas() {
    let mut p = new_paint();
    p.color = red();
    p.dirty = false;
    let b = p.flood_fill(600, 400);
    assert_eq!(b, Some(Bbox { lx: 0, ty: 0, rx: 1199, by: 799 }));
    assert!(p.pixels.iter().all(|c| *c == red()));
    assert!(p.dirty);
}

#[test]
fn a_fill_stays_inside_a_closed_outline() {
    let mut p = new_paint();
    p.brush_size = 0;
    p.commit_shape((10, 20), (30, 35), &Vec::new());
    p.color = red();
    let b = p.flood_fill(15, 25);
    assert_eq!(b, Some(Bbox { lx: 11, ty: 21, rx: 29, by: 34 }));
    for y in 0..CANVAS_H {
        for x in 0..CANVAS_W {
            let inside = (11..=29).contains(&x) && (21..=34).contains(&y);
            assert_eq!(get(&p, x, y) == red(), inside);
        }
    }
}

#[test]
fn a_fill_does_not_slip_through_a_corner() {
    let mut p = new_paint();
    set(&mut p, 1, 0, Color::black());
    set(&mut p, 0, 1, Color::black());
    p.color = red();
    assert_eq!(p.flood_fill(0, 0), Some(Bbox::point(0, 0)));
    assert_eq!(get(&p, 1, 1), Color::white());
}

#[test]
fn a_fill_goes_round_corners() {
    let mut p = new_paint();
    // An L of black pixels.
    for i in 0..5 {
        set(&mut p, 100, 100 + i, Color::black());
        set(&mut p, 100 + i, 104, Color::black());
    }
    p.color = red();
    let b = p.flood_fill(104, 104);
    assert_eq!(b, Some(Bbox { lx: 100, ty: 100, rx: 104, by: 104 }));
    assert_eq!(p.pixels.iter().filter(|c| **c == red()).count(), 9);
    assert!(!p.pixels.contains(&Color::black()));
}

#[test]
fn a_fill_with_the_colour_that_is_there_does_nothing() {
    let mut p = new_paint();
    p.color = Color::white();
    p.dirty = false;
    assert_eq!(p.flood_fill(3, 3), None);
    assert!(!p.dirty);
    p.color = red();
    assert!(p.flood_fill(3, 3).is_some());
    assert_eq!(p.flood_fill(3, 3), None);
}

#[test]
fn a_fill_from_off_the_canvas_does_nothing() {
    for (x, y) in [(-1, 0), (0, -1), (1200, 0), (0, 800), (i32::MIN, i32::MAX)] {
        let mut p = new_paint();
        p.color = red();
        assert_eq!(p.flood_fill(x, y), None);
        assert!(p.pixels.iter().all(|c| *c == Color::white()));
    }
}

#[test]
fn the_seed_of_a_fill_may_be_any_pixel_of_the_area() {
    let mut p = new_paint();
    let mut q = new_paint();
    for s in [&mut p, &mut q] {
        s.brush_size = 0;
        s.stroke_canvas(0, 700, 300, 799, Color::black());
        s.color = red();
    }
    let a = p.flood_fill(0, 799);
    let b = q.flood_fill(150, 780);
    assert_eq!(a, b);
    assert_eq!(p.pixels, q.pixels);
}

#[test]
fn a_crop_shows_the_nearest_pixels_of_the_selection() {
    let before = patterned();
    let mut p = patterned();
    p.dirty = false;
    p.commit_crop((700, 450), (100, 50));
    assert!(p.dirty);
    for (x, y) in [(0, 0), (1, 1), (2, 2), (3, 5), (600, 400), (1198, 798), (1199, 799)] {
        let sx = 100 + x * 600 / 1200;
        let sy = 50 + y * 400 / 800;
        assert_eq!(get(&p, x, y), get(&before, sx, sy));
    }
    assert_eq!(get(&p, 1199, 799), get(&before, 699, 449));
}

#[test]
fn a_crop_is_cut_to_the_canvas() {
    let before = patterned();
    let mut p = patterned();
    p.commit_crop((-50, 790), (9, 5000));
    // Columns 0 to 9 and rows 790 to 799.
    assert_eq!(get(&p, 0, 0), get(&before, 0, 790));
    assert_eq!(get(&p, 1199, 799), get(&before, 8, 798));
    assert_eq!(get(&p, 600, 400), get(&before, 4, 794));
}

#[test]
fn a_selection_off_the_canvas_changes_nothing() {
    for (a, b) in [
        ((-100, 100), (-50, 300)),
        ((100, -300), (300, -1)),
        ((-9, -9), (-1, -1)),
        ((1200, 100), (1300, 300)),
        ((100, 800), (300, 900)),
    ] {
        let mut p = new_paint();
        set(&mut p, 0, 100, Color::black());
        set(&mut p, 100, 0, Color::black());
        let before = p.pixels.clone();
        p.dirty = false;
        p.commit_crop(a, b);
        assert_eq!(p.pixels, before);
        assert!(!p.dirty);
    }
}

#[test]
fn a_small_selection_is_not_cropped() {
    for (a, b) in [((5, 5), (6, 300)), ((5, 5), (300, 6)), ((5, 5), (5, 5)), ((1300, 0), (1400, 300))] {
        let before = patterned();
        let mut p = patterned();
        p.dirty = false;
        p.commit_crop(a, b);
        assert_eq!(p.pixels, before.pixels);
        assert!(!p.dirty);
    }
    let before = patterned();
    let mut p = patterned();
    p.commit_crop((5, 5), (7, 7));
    assert!(p.pixels != before.pixels);
}

#[test]
fn a_crop_may_be_dragged_from_any_corner() {
    let mut p = patterned();
    let mut q = patterned();
    p.commit_crop((10, 20), (300, 200));
    q.commit_crop((300, 20), (10, 200));
    assert_eq!(p.pixels, q.pixels);
}
