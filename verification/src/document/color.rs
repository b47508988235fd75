use vstd::prelude::*;

verus! {

/// A 24-bit RGB colour.
#[derive(Debug, Clone, Copy, PartialEq, Eq, Structural)]
pub struct Color {
    pub r: u8,
    pub g: u8,
    pub b: u8,
}

impl Color {
    pub fn black() -> (c: Self)
        ensures
            c == (Color { r: 0, g: 0, b: 0 }),
    {
        Color { r: 0, g: 0, b: 0 }
    }

    pub fn white() -> (c: Self)
        ensures
            c == (Color { r: 255, g: 255, b: 255 }),
    {
        Color { r: 255, g: 255, b: 255 }
    }

    pub fn gray(level: u8) -> (c: Self)
        ensures
            c == (Color { r: level, g: level, b: level }),
    {
        Color { r: level, g: level, b: level }
    }

    pub fn red(level: u8) -> (c: Self)
        ensures
            c == (Color { r: level, g: 0, b: 0 }),
    {
        Color { r: level, g: 0, b: 0 }
    }

    pub fn green(level: u8) -> (c: Self)
        ensures
            c == (Color { r: 0, g: level, b: 0 }),
    {
        Color { r: 0, g: level, b: 0 }
    }

    pub fn blue(level: u8) -> (c: Self)
        ensures
            c == (Color { r: 0, g: 0, b: level }),
    {
        Color { r: 0, g: 0, b: level }
    }
}

} // verus!
