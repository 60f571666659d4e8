//! RGB colors with eight bits per channel.

use vstd::prelude::*;

verus! {

/// A color as its red, green and blue channels.
#[derive(Clone, Copy, Debug, PartialEq, Eq, Structural)]
pub struct Color(pub u8, pub u8, pub u8);

impl Color {
    /// Pure black.
    pub fn black() -> (c: Color)
        ensures
            c == Color(0, 0, 0),
    {
        Color(0, 0, 0)
    }

    /// Pure white.
    pub fn white() -> (c: Color)
        ensures
            c == Color(255, 255, 255),
    {
        Color(255, 255, 255)
    }
}

} // verus!
