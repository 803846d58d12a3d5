//! Quantized RGB colors, the unit stored in tile buffers and in the framebuffer.

use vstd::prelude::*;

verus! {

/// One RGB sample with channels of type `T`.
#[derive(Debug, Clone, Copy, PartialEq, Eq, Structural)]
pub struct Color<T> {
    pub r: T,
    pub g: T,
    pub b: T,
}

impl Color<u8> {
    /// The color every tile buffer starts from.
    pub fn black() -> (c: Self)
        ensures
            c == (Color::<u8> { r: 0, g: 0, b: 0 }),
    {
        Color { r: 0, g: 0, b: 0 }
    }

    pub fn white() -> (c: Self)
        ensures
            c == (Color::<u8> { r: 255, g: 255, b: 255 }),
    {
        Color { r: 255, g: 255, b: 255 }
    }

    pub fn red() -> (c: Self)
        ensures
            c == (Color::<u8> { r: 255, g: 0, b: 0 }),
    {
        Color { r: 255, g: 0, b: 0 }
    }

    pub fn green() -> (c: Self)
        ensures
            c == (Color::<u8> { r: 0, g: 255, b: 0 }),
    {
        Color { r: 0, g: 255, b: 0 }
    }

    pub fn blue() -> (c: Self)
        ensures
            c == (Color::<u8> { r: 0, g: 0, b: 255 }),
    {
        Color { r: 0, g: 0, b: 255 }
    }
}

} // verus!
