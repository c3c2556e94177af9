use eframe::egui::Color32;
use master_paint::color::Color;

fn components(c: Color32) -> Color {
    let [r, g, b, a] = c.to_array();
    Color::new(r, g, b, a)
}

#[test]
fn white_and_black_are_those_of_the_toolkit() {
    assert_eq!(Color::white(), components(Color32::WHITE));
    assert_eq!(Color::black(), components(Color32::BLACK));
}

#[test]
fn colours_are_equal_if_all_components_are() {
    let c = Color::new(1, 2, 3, 4);
    assert_eq!((c.r, c.g, c.b, c.a), (1, 2, 3, 4));
    assert_eq!(c, Color::new(1, 2, 3, 4));
    assert_ne!(c, Color::new(0, 2, 3, 4));
    assert_ne!(c, Color::new(1, 0, 3, 4));
    assert_ne!(c, Color::new(1, 2, 0, 4));
    assert_ne!(c, Color::new(1, 2, 3, 0));
}
