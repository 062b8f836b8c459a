use simcore::color::Color;

#[test]
fn test_to_string() {
    let rgb_white = Color::Rgb { r: 255, g: 255, b: 255 };
    let rgba_opaque_white = Color::Rgba { r: 255, g: 255, b: 255, a: 255 };
    let white_string_1 = rgb_white.to_string();
    let white_string_2 = rgba_opaque_white.to_string();

    assert!(white_string_1 == "rgb( 255, 255, 255)");
    assert!(white_string_2 == "rgba( 255, 255, 255, 1.0)");
}

#[test]
fn test_to_string_digit_widths() {
    assert_eq!(Color::Rgb { r: 0, g: 7, b: 42 }.to_string(), "rgb( 0, 7, 42)");
    assert_eq!(Color::Rgb { r: 100, g: 99, b: 9 }.to_string(), "rgb( 100, 99, 9)");
    assert_eq!(Color::Rgb { r: 153, g: 153, b: 153 }.to_string(), "rgb( 153, 153, 153)");
}

#[test]
fn test_to_string_alpha_rounding() {
    // alpha is rendered as a fraction of 255 to one decimal, rounded to nearest
    assert_eq!(Color::Rgba { r: 1, g: 2, b: 3, a: 0 }.to_string(), "rgba( 1, 2, 3, 0.0)");
    assert_eq!(Color::Rgba { r: 1, g: 2, b: 3, a: 128 }.to_string(), "rgba( 1, 2, 3, 0.5)");
    assert_eq!(Color::Rgba { r: 1, g: 2, b: 3, a: 51 }.to_string(), "rgba( 1, 2, 3, 0.2)");
    assert_eq!(Color::Rgba { r: 1, g: 2, b: 3, a: 26 }.to_string(), "rgba( 1, 2, 3, 0.1)");
    assert_eq!(Color::Rgba { r: 1, g: 2, b: 3, a: 204 }.to_string(), "rgba( 1, 2, 3, 0.8)");
    assert_eq!(Color::Rgba { r: 1, g: 2, b: 3, a: 254 }.to_string(), "rgba( 1, 2, 3, 1.0)");
}
