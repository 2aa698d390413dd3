//! Colours of the editor's theme.

use vstd::prelude::*;

verus! {

/// An RGBA colour, one byte per channel.
#[derive(Clone, Copy, PartialEq, Eq, Hash, Debug, Structural)]
pub struct Color(pub u8, pub u8, pub u8, pub u8);

/// Opaque white.
pub fn white() -> (r: Color)
    ensures
        r == Color(255, 255, 255, 255),
{
    Color(255, 255, 255, 255)
}

/// Opaque black.
pub fn black() -> (r: Color)
    ensures
        r == Color(0, 0, 0, 255),
{
    Color(0, 0, 0, 255)
}

/// Opaque green.
pub fn green() -> (r: Color)
    ensures
        r == Color(0, 255, 0, 255),
{
    Color(0, 255, 0, 255)
}

impl Color {
    /// Converts a CSS-style hex colour code (`0xRRGGBB`, higher bits ignored) to a colour;
    /// alpha is full.
    pub fn hex(rgb: u32) -> (r: Self)
        ensures
            r == Color(((rgb / 0x1_0000) % 256) as u8, ((rgb / 0x100) % 256) as u8, (rgb % 256) as u8, 255),
    {
        Color(((rgb / 0x1_0000) % 256) as u8, ((rgb / 0x100) % 256) as u8, (rgb % 256) as u8, 255)
    }

    /// The channels as a tuple.
    pub fn as_rgba_u8_tuple(&self) -> (r: (u8, u8, u8, u8))
        ensures
            r == (self.0, self.1, self.2, self.3),
    {
        (self.0, self.1, self.2, self.3)
    }
}

/// The editor's accent colour.
pub fn purple() -> (r: Color)
    ensures
        r == Color(0x80, 0x7F, 0xFF, 255),
{
    Color::hex(0x807FFF)
}

/// The editor's background colour.
pub fn background() -> (r: Color)
    ensures
        r == Color(0x13, 0x12, 0x17, 255),
{
    Color::hex(0x131217)
}

} // verus!
