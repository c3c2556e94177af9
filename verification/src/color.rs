//! Pixel colours.

use vstd::prelude::*;

verus! {

/// A pixel colour: red, green and blue premultiplied by alpha, and alpha.
#[derive(Clone, Copy, PartialEq, Eq, Structural, Debug)]
pub struct Color {
    pub r: u8,
    pub g: u8,
    pub b: u8,
    pub a: u8,
}

impl Color {
    /// The colour of the given premultiplied components.
    pub fn new(r: u8, g: u8, b: u8, a: u8) -> (c: Color)
        ensures
            c == (Color { r, g, b, a }),
    {
        Color { r, g, b, a }
    }

    /// Opaque white: the paper, and what the eraser paints.
    #[verifier::allow_in_spec]
    pub fn white() -> Color
        returns
            (Color { r: 255, g: 255, b: 255, a: 255 }),
    {
        Color { r: 255, g: 255, b: 255, a: 255 }
    }

    /// Opaque black: the colour a new painting starts with.
    #[verifier::allow_in_spec]
    pub fn black() -> Color
        returns
            (Color { r: 0, g: 0, b: 0, a: 255 }),
    {
        Color { r: 0, g: 0, b: 0, a: 255 }
    }
}

} // verus!
