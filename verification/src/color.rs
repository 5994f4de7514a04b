//! RGBA color values as plain bytes.
//!
//! A designated sentinel color (pure black in the game) stands for "no scene
//! geometry drawn here"; the compositor tells it apart from drawn content by
//! exact equality on the four channels.

use vstd::prelude::*;

verus! {

/// An RGBA color with one byte per channel.
#[derive(Clone, Copy, PartialEq, Eq, Structural, Debug)]
pub struct Rgba {
    pub r: u8,
    pub g: u8,
    pub b: u8,
    pub a: u8,
}

impl Rgba {
    /// Builds a color from its four channels.
    pub fn new(r: u8, g: u8, b: u8, a: u8) -> (c: Rgba)
        ensures
            c == (Rgba { r, g, b, a }),
    {
        Rgba { r, g, b, a }
    }

    /// Opaque pure black, the sentinel for "nothing drawn here yet".
    pub fn black() -> (c: Rgba)
        ensures
            c == spec_black(),
    {
        Rgba { r: 0, g: 0, b: 0, a: 255 }
    }
}

/// Opaque pure black, the sentinel for "nothing drawn here yet".
pub open spec fn spec_black() -> Rgba {
    Rgba { r: 0, g: 0, b: 0, a: 255 }
}

} // verus!
