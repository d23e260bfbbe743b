use room_nets::{char_to_color, ColorHsla};

#[test]
fn color_hue_comes_from_the_symbol() {
    assert_eq!(
        char_to_color('a'),
        ColorHsla { hue: 119, saturation: 100, lightness: 50, alpha: 100 }
    );
    assert_eq!(char_to_color('x').hue, 240);
}

#[test]
fn color_hash_wraps_at_32_bits() {
    assert_eq!(char_to_color('\u{10FFFF}').hue, 225);
}
