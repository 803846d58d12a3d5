//! The framebuffer layout: three bytes for each pixel, pixels row by row, the
//! first row being the bottom of the picture.

use vstd::prelude::*;
use vstd::arithmetic::div_mod::{lemma_fundamental_div_mod, lemma_fundamental_div_mod_converse};
use crate::color::Color;

verus! {

/// Channel `k` of a color: red, green, blue for 0, 1, 2.
pub open spec fn channel(c: Color<u8>, k: int) -> u8 {
    if k == 0 {
        c.r
    } else if k == 1 {
        c.g
    } else {
        c.b
    }
}

/// Index of the first byte of pixel `(px, py)` in a framebuffer for an image
/// that is `width` pixels wide.
pub open spec fn frame_index(px: int, py: int, width: int) -> int {
    px * 3 + py * 3 * width
}

/// The pixel that byte `i` of the framebuffer belongs to.
pub open spec fn frame_pixel(i: int, width: int) -> (int, int) {
    ((i / 3) % width, (i / 3) / width)
}

/// The color that the framebuffer holds for pixel `(px, py)`.
pub open spec fn frame_color(frame: Seq<u8>, width: int, px: int, py: int) -> Color<u8> {
    let i = frame_index(px, py, width);
    Color { r: frame[i], g: frame[i + 1], b: frame[i + 2] }
}

/// The three bytes of a pixel of the image lie inside the framebuffer, and
/// nothing on the way to their index leaves the range of the buffer's length.
pub proof fn lemma_frame_index_bounds(px: int, py: int, width: int, height: int)
    requires
        0 <= px < width,
        0 <= py < height,
    ensures
        0 <= frame_index(px, py, width),
        frame_index(px, py, width) + 2 < width * height * 3,
        py * 3 <= py * 3 * width <= frame_index(px, py, width),
{
    assert(py * 3 <= py * 3 * width && px * 3 + py * 3 * width + 2 < width * height * 3)
        by (nonlinear_arith)
        requires
            0 <= px < width,
            0 <= py < height,
    ;
}

/// Each of the three bytes of pixel `(px, py)` belongs to that pixel, and its
/// channel is its offset from the pixel's first byte.
pub proof fn lemma_frame_pixel_of_index(px: int, py: int, k: int, width: int)
    requires
        0 <= px < width,
        0 <= py,
        0 <= k < 3,
    ensures
        frame_pixel(frame_index(px, py, width) + k, width) == (px, py),
        (frame_index(px, py, width) + k) % 3 == k,
{
    let i = frame_index(px, py, width) + k;
    let p = py * width + px;
    assert(i == 3 * p + k) by (nonlinear_arith)
        requires
            i == px * 3 + py * 3 * width + k,
            p == py * width + px,
    ;
    assert(0 <= py * width) by (nonlinear_arith)
        requires
            0 <= py,
            0 <= width,
    ;
    lemma_fundamental_div_mod_converse(i, 3, p, k);
    assert(p == width * py + px) by (nonlinear_arith)
        requires
            p == py * width + px,
    ;
    lemma_fundamental_div_mod_converse(p, width, py, px);
}

/// A byte that belongs to pixel `(px, py)` is one of that pixel's three.
pub proof fn lemma_frame_index_of_pixel(i: int, width: int)
    requires
        0 <= i,
        0 < width,
    ensures
        i == frame_index(frame_pixel(i, width).0, frame_pixel(i, width).1, width) + i % 3,
        0 <= i % 3 < 3,
        0 <= frame_pixel(i, width).0 < width,
        0 <= frame_pixel(i, width).1,
{
    let p = i / 3;
    lemma_fundamental_div_mod(i, 3);
    lemma_fundamental_div_mod(p, width);
    let px = p % width;
    let py = p / width;
    assert(0 <= py) by (nonlinear_arith)
        requires
            p == width * py + px,
            0 <= p,
            0 <= px < width,
    ;
    assert(px * 3 + py * 3 * width + i % 3 == i) by (nonlinear_arith)
        requires
            i == 3 * p + i % 3,
            p == width * py + px,
    ;
}

} // verus!
