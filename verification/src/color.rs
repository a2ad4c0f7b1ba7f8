//! Colors: three 8-bit channels; alpha is fixed fully opaque at write time.

use vstd::prelude::*;

verus! {

/// An RGB color value. Alpha is not stored: every write emits 0xff.
#[derive(Debug, Clone, Copy, PartialEq, Eq, Structural)]
pub struct Rgb {
    pub r: u8,
    pub g: u8,
    pub b: u8,
}

/// The four bytes that a plot of color `c` writes: R, G, B, then full opacity.
pub open spec fn rgba_bytes(c: Rgb) -> Seq<u8> {
    seq![c.r, c.g, c.b, 0xffu8]
}

impl Rgb {
    pub fn new(r: u8, g: u8, b: u8) -> (c: Rgb)
        ensures
            c == (Rgb { r, g, b }),
    {
        Rgb { r, g, b }
    }

    pub fn black() -> (c: Rgb)
        ensures
            c == (Rgb { r: 0, g: 0, b: 0 }),
    {
        Rgb { r: 0, g: 0, b: 0 }
    }

    pub fn white() -> (c: Rgb)
        ensures
            c == (Rgb { r: 0xff, g: 0xff, b: 0xff }),
    {
        Rgb { r: 0xff, g: 0xff, b: 0xff }
    }

    pub fn red() -> (c: Rgb)
        ensures
            c == (Rgb { r: 0xff, g: 0, b: 0 }),
    {
        Rgb { r: 0xff, g: 0, b: 0 }
    }

    pub fn orange() -> (c: Rgb)
        ensures
            c == (Rgb { r: 0xff, g: 0x80, b: 0 }),
    {
        Rgb { r: 0xff, g: 0x80, b: 0 }
    }

    pub fn yellow() -> (c: Rgb)
        ensures
            c == (Rgb { r: 0xff, g: 0xff, b: 0 }),
    {
        Rgb { r: 0xff, g: 0xff, b: 0 }
    }

    pub fn chartreuse() -> (c: Rgb)
        ensures
            c == (Rgb { r: 0x80, g: 0xff, b: 0 }),
    {
        Rgb { r: 0x80, g: 0xff, b: 0 }
    }

    pub fn green() -> (c: Rgb)
        ensures
            c == (Rgb { r: 0, g: 0xff, b: 0 }),
    {
        Rgb { r: 0, g: 0xff, b: 0 }
    }

    pub fn spring_green() -> (c: Rgb)
        ensures
            c == (Rgb { r: 0, g: 0xff, b: 0x80 }),
    {
        Rgb { r: 0, g: 0xff, b: 0x80 }
    }

    pub fn cyan() -> (c: Rgb)
        ensures
            c == (Rgb { r: 0, g: 0xff, b: 0xff }),
    {
        Rgb { r: 0, g: 0xff, b: 0xff }
    }

    pub fn azure() -> (c: Rgb)
        ensures
            c == (Rgb { r: 0, g: 0x80, b: 0xff }),
    {
        Rgb { r: 0, g: 0x80, b: 0xff }
    }

    pub fn blue() -> (c: Rgb)
        ensures
            c == (Rgb { r: 0, g: 0, b: 0xff }),
    {
        Rgb { r: 0, g: 0, b: 0xff }
    }

    pub fn violet() -> (c: Rgb)
        ensures
            c == (Rgb { r: 0x80, g: 0, b: 0xff }),
    {
        Rgb { r: 0x80, g: 0, b: 0xff }
    }

    pub fn magenta() -> (c: Rgb)
        ensures
            c == (Rgb { r: 0xff, g: 0, b: 0xff }),
    {
        Rgb { r: 0xff, g: 0, b: 0xff }
    }

    pub fn rose() -> (c: Rgb)
        ensures
            c == (Rgb { r: 0xff, g: 0, b: 0x80 }),
    {
        Rgb { r: 0xff, g: 0, b: 0x80 }
    }
}

} // verus!
