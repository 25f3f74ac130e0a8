//! LED colors.

use vstd::prelude::*;

verus! {

/// An 8-bit-per-channel RGB LED color.
#[derive(Clone, Copy, Debug, Default, PartialEq, Eq, Structural)]
pub struct Rgb {
    /// Red channel.
    pub r: u8,
    /// Green channel.
    pub g: u8,
    /// Blue channel.
    pub b: u8,
}

impl Rgb {
    /// All channels off.
    pub fn black() -> (color: Rgb)
        ensures
            color == (Rgb { r: 0, g: 0, b: 0 }),
    {
        Rgb { r: 0, g: 0, b: 0 }
    }

    /// The color packed as `0xRRGGBB` in the low 24 bits of `value`; higher
    /// bits are ignored.
    pub fn from_u24(value: u32) -> (color: Rgb)
        ensures
            color.r == (value / 0x1_0000) % 0x100,
            color.g == (value / 0x100) % 0x100,
            color.b == value % 0x100,
    {
        Rgb {
            r: ((value / 0x1_0000) % 0x100) as u8,
            g: ((value / 0x100) % 0x100) as u8,
            b: (value % 0x100) as u8,
        }
    }
}

} // verus!
