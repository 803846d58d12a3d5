use pathtracer::color::Color;

#[test]
fn black_has_no_light() {
    assert_eq!(Color::black(), Color { r: 0u8, g: 0u8, b: 0u8 });
}

#[test]
fn white_is_full_on_every_channel() {
    assert_eq!(Color::white(), Color { r: 255u8, g: 255u8, b: 255u8 });
}

#[test]
fn primaries_light_one_channel_each() {
    assert_eq!(Color::red(), Color { r: 255u8, g: 0u8, b: 0u8 });
    assert_eq!(Color::green(), Color { r: 0u8, g: 255u8, b: 0u8 });
    assert_eq!(Color::blue(), Color { r: 0u8, g: 0u8, b: 255u8 });
}

#[test]
fn colors_are_plain_values() {
    let a = Color::red();
    let b = a;
    assert_eq!(a, b);
    assert_ne!(a, Color::blue());
    assert_eq!(format!("{:?}", Color::green()), "Color { r: 0, g: 255, b: 0 }");
}
