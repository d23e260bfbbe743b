use vstd::prelude::*;

verus! {

/// A colour in hue, saturation, lightness and alpha; the hue is in whole
/// degrees, the other three in percent.
#[derive(Clone, Copy, Debug, PartialEq, Eq, Structural)]
pub struct ColorHsla {
    pub hue: u32,
    pub saturation: u32,
    pub lightness: u32,
    pub alpha: u32,
}

/// The hue that a symbol is drawn in: its code point times the prime 10007,
/// taken modulo 2^32, then reduced to degrees. The product wraps on purpose,
/// so that every character, up to U+10FFFF, has a colour.
pub open spec fn color_hue(c: char) -> u32 {
    ((((c as u32) as nat * 10007nat) % 0x1_0000_0000nat) % 360nat) as u32
}

/// The colour of a symbol: fully saturated, at half lightness, opaque, with a
/// hue that depends on the symbol alone.
pub fn char_to_color(c: char) -> (r: ColorHsla)
    ensures
        r.hue == color_hue(c),
        r.hue < 360,
        r.saturation == 100,
        r.lightness == 50,
        r.alpha == 100,
{
    let hash: u32 = (c as u32).wrapping_mul(10007);
    ColorHsla { hue: hash % 360, saturation: 100, lightness: 50, alpha: 100 }
}

} // verus!
