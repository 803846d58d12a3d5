//! A tile: one rectangle of the image together with the pixel buffer that its
//! worker fills.

use vstd::prelude::*;
use crate::color::Color;
use crate::frame::{
    channel, frame_index, frame_pixel, lemma_frame_index_bounds, lemma_frame_index_of_pixel,
    lemma_frame_pixel_of_index,
};

verus! {

/// A rectangle of pixels: `w` columns starting at column `x`, `h` rows
/// starting at row `y`.
pub struct Region {
    pub x: int,
    pub y: int,
    pub w: int,
    pub h: int,
}

impl Region {
    /// Pixel `(px, py)` lies inside the rectangle.
    pub open spec fn covers(self, px: int, py: int) -> bool {
        self.x <= px < self.x + self.w && self.y <= py < self.y + self.h
    }

    /// The rectangle lies inside an image of `width` by `height` pixels.
    pub open spec fn within(self, width: int, height: int) -> bool {
        &&& 0 <= self.x
        &&& 0 <= self.y
        &&& 0 <= self.w
        &&& 0 <= self.h
        &&& self.x + self.w <= width
        &&& self.y + self.h <= height
    }

    /// Every coordinate of a pixel of the rectangle is a `usize`.
    pub open spec fn addressable(self) -> bool {
        &&& self.x + self.w <= usize::MAX
        &&& self.y + self.h <= usize::MAX
    }
}

/// What a tile is: its rectangle and its pixels, row by row.
pub struct TileView {
    pub region: Region,
    pub data: Seq<Color<u8>>,
}

impl TileView {
    /// The buffer holds one color for each pixel of the rectangle.
    pub open spec fn rendered(self) -> bool {
        self.data.len() == self.region.w * self.region.h
    }

    /// The color stored for the pixel in column `lx` and row `ly` of the tile.
    pub open spec fn texel(self, lx: int, ly: int) -> Color<u8> {
        self.data[lx + ly * self.region.w]
    }

    /// The color stored for the pixel `(px, py)` of the image.
    pub open spec fn pixel(self, px: int, py: int) -> Color<u8> {
        self.texel(px - self.region.x, py - self.region.y)
    }

    /// The color stored for each pixel of the tile is one that `shade`
    /// returns for that pixel.
    pub open spec fn shaded_by<F: Fn(usize, usize) -> Color<u8>>(self, shade: &F) -> bool {
        forall|px: usize, py: usize|
            self.region.covers(px as int, py as int) ==> call_ensures(
                shade,
                (px, py),
                #[trigger] self.pixel(px as int, py as int),
            )
    }
}

#[derive(Debug)]
pub struct Tile {
    pub x: usize,
    pub y: usize,
    pub w: usize,
    pub h: usize,
    pub data: Vec<Color<u8>>,
}

impl View for Tile {
    type V = TileView;

    open spec fn view(&self) -> TileView {
        TileView {
            region: Region { x: self.x as int, y: self.y as int, w: self.w as int, h: self.h as int },
            data: self.data@,
        }
    }
}

impl Tile {
    /// A tile over the given rectangle whose buffer is still empty.
    pub fn new(x: usize, y: usize, w: usize, h: usize) -> (tile: Self)
        ensures
            tile.x == x,
            tile.y == y,
            tile.w == w,
            tile.h == h,
            tile.data@ == Seq::<Color<u8>>::empty(),
    {
        let data: Vec<Color<u8>> = Vec::new();
        Tile { x, y, w, h, data }
    }

    /// Image coordinates of the tile's pixel in column `x` and row `y`.
    pub fn world_location_of_pixel(&self, x: usize, y: usize) -> (at: (usize, usize))
        requires
            self.x + x <= usize::MAX,
            self.y + y <= usize::MAX,
        ensures
            at.0 == self.x + x,
            at.1 == self.y + y,
    {
        (self.x + x, self.y + y)
    }

    /// Whether every pixel of the tile has coordinates in the image that are
    /// a `usize`, so that the tile can be rendered.
    pub fn is_addressable(&self) -> (yes: bool)
        ensures
            yes == self@.region.addressable(),
    {
        self.x <= usize::MAX - self.w && self.y <= usize::MAX - self.h
    }

    /// Whether the tile's buffer holds one color for each of its pixels.
    pub fn is_rendered(&self) -> (yes: bool)
        ensures
            yes == self@.rendered(),
    {
        let held: usize = self.data.len();
        match self.w.checked_mul(self.h) {
            Some(pixels) => held == pixels,
            None => false,
        }
    }

    /// Whether the tile lies inside an image of `width` by `height` pixels.
    pub fn fits(&self, width: usize, height: usize) -> (yes: bool)
        ensures
            yes == self@.region.within(width as int, height as int),
    {
        self.w <= width && self.x <= width - self.w && self.h <= height && self.y <= height
            - self.h
    }

    /// Shades every pixel of the tile, row by row, and stores the colors in
    /// the tile's buffer. `shade` is called once for each pixel, with the
    /// pixel's image coordinates, and whatever the buffer held before is
    /// replaced.
    pub fn run<F: Fn(usize, usize) -> Color<u8>>(&mut self, shade: &F)
        requires
            old(self)@.region.addressable(),
            forall|px: usize, py: usize|
                old(self)@.region.covers(px as int, py as int) ==> call_requires(shade, (px, py)),
        ensures
            final(self)@.region == old(self)@.region,
            final(self)@.rendered(),
            final(self)@.shaded_by(shade),
    {
        let mut data: Vec<Color<u8>> = Vec::new();
        let mut y: usize = 0;
        while y < self.h
            invariant
                y <= self.h,
                *self == *old(self),
                self.x + self.w <= usize::MAX,
                self.y + self.h <= usize::MAX,
                forall|px: usize, py: usize|
                    self@.region.covers(px as int, py as int) ==> call_requires(shade, (px, py)),
                data@.len() == y * self.w,
                shaded_in_rows(shade, self@.region, data@),
            decreases self.h - y,
        {
            let mut x: usize = 0;
            while x < self.w
                invariant
                    x <= self.w,
                    y < self.h,
                    *self == *old(self),
                    self.x + self.w <= usize::MAX,
                    self.y + self.h <= usize::MAX,
                    forall|px: usize, py: usize|
                        self@.region.covers(px as int, py as int) ==> call_requires(
                            shade,
                            (px, py),
                        ),
                    data@.len() == y * self.w + x,
                    shaded_in_rows(shade, self@.region, data@),
                decreases self.w - x,
            {
                let screen_pos = self.world_location_of_pixel(x, y);
                assert(self@.region.covers(screen_pos.0 as int, screen_pos.1 as int));
                let color = shade(screen_pos.0, screen_pos.1);
                proof {
                    lemma_row_major(x as int, y as int, self.w as int);
                }
                data.push(color);
                x += 1;
            }
            proof {
                lemma_next_row(y as int, self.w as int);
            }
            y += 1;
        }
        self.data = data;
        proof {
            vstd::arithmetic::mul::lemma_mul_is_commutative(self.h as int, self.w as int);
            assert forall|px: usize, py: usize|
                old(self)@.region.covers(px as int, py as int) implies call_ensures(
                shade,
                (px, py),
                #[trigger] self@.pixel(px as int, py as int),
            ) by {
                let lx = px - self.x;
                let ly = py - self.y;
                lemma_row_major(lx, ly, self.w as int);
                lemma_row_major_bound(lx, ly, self.w as int, self.h as int);
                assert(self@.pixel(px as int, py as int) == self.data@[lx + ly * self.w]);
            }
        }
    }

    /// Copies the tile's pixels into the framebuffer `target` of an image
    /// that is `w` pixels wide and `h` pixels high. The pixel in column `x` and
    /// row `y` of the tile goes to the three bytes from index
    /// `(x + self.x) * 3 + (y + self.y) * 3 * w` on; no other byte changes.
    pub fn write_data(&self, target: &mut Vec<u8>, w: usize, h: usize)
        requires
            self@.rendered(),
            self@.region.within(w as int, h as int),
            old(target)@.len() == w * h * 3,
        ensures
            final(target)@ == paint(old(target)@, self@, w as int),
    {
        let mut y: usize = 0;
        while y < self.h
            invariant
                y <= self.h,
                self@.rendered(),
                self@.region.within(w as int, h as int),
                target@.len() == w * h * 3,
                target@ == paint_prefix(old(target)@, self@, w as int, y * self.w),
            decreases self.h - y,
        {
            let mut x: usize = 0;
            while x < self.w
                invariant
                    x <= self.w,
                    y < self.h,
                    self@.rendered(),
                    self@.region.within(w as int, h as int),
                    target@.len() == w * h * 3,
                    target@ == paint_prefix(old(target)@, self@, w as int, y * self.w + x),
                decreases self.w - x,
            {
                proof {
                    lemma_row_major(x as int, y as int, self.w as int);
                    lemma_row_major_bound(x as int, y as int, self.w as int, self.h as int);
                    lemma_frame_index_bounds(x + self.x, y + self.y, w as int, h as int);
                    assert(self.data@.len() == self.w * self.h);
                    assert(self.data.len() <= usize::MAX);
                    assert(x + y * self.w < self.data.len());
                    assert(target.len() <= usize::MAX);
                }
                let ghost before = target@;
                let index: usize = x + y * self.w;
                let index_target: usize = (x + self.x) * 3 + (y + self.y) * 3 * w;
                target[index_target] = self.data[index].r;
                target[index_target + 1] = self.data[index].g;
                target[index_target + 2] = self.data[index].b;
                proof {
                    lemma_paint_step(old(target)@, before, target@, self@, w as int, x as int, y as int);
                }
                x += 1;
            }
            proof {
                lemma_next_row(y as int, self.w as int);
            }
            y += 1;
        }
        proof {
            vstd::arithmetic::mul::lemma_mul_is_commutative(self.h as int, self.w as int);
            lemma_paint_prefix_all(old(target)@, self@, w as int);
        }
    }
}

/// Every color in `data` is one that `shade` returned for the pixel whose
/// place in the tile, counted row by row, is the color's index.
spec fn shaded_in_rows<F: Fn(usize, usize) -> Color<u8>>(
    shade: &F,
    region: Region,
    data: Seq<Color<u8>>,
) -> bool {
    forall|k: int|
        0 <= k < data.len() ==> call_ensures(
            shade,
            ((region.x + k % region.w) as usize, (region.y + k / region.w) as usize),
            #[trigger] data[k],
        )
}

/// Counting row by row, the pixel in column `lx` of row `ly` has index
/// `lx + ly * w`, and column and row are recovered from that index.
pub proof fn lemma_row_major(lx: int, ly: int, w: int)
    requires
        0 <= lx < w,
        0 <= ly,
    ensures
        (lx + ly * w) % w == lx,
        (lx + ly * w) / w == ly,
        lx + ly * w == ly * w + lx,
        0 <= lx + ly * w,
{
    vstd::arithmetic::mul::lemma_mul_is_commutative(ly, w);
    vstd::arithmetic::mul::lemma_mul_nonnegative(ly, w);
    vstd::arithmetic::div_mod::lemma_fundamental_div_mod_converse(lx + ly * w, w, ly, lx);
}

/// The index of a pixel inside a `w` by `h` rectangle is below `w * h`.
pub proof fn lemma_row_major_bound(lx: int, ly: int, w: int, h: int)
    requires
        0 <= lx < w,
        0 <= ly < h,
    ensures
        0 <= lx + ly * w < w * h,
{
    assert(0 <= lx + ly * w < w * h) by (nonlinear_arith)
        requires
            0 <= lx < w,
            0 <= ly < h,
    ;
}

proof fn lemma_next_row(y: int, w: int)
    ensures
        y * w + w == (y + 1) * w,
{
    assert(y * w + w == (y + 1) * w) by (nonlinear_arith);
}

/// The framebuffer `frame` after `tile` was copied into it: each byte of a
/// pixel that the tile covers is the channel of the color that the tile
/// stores for the pixel, and every other byte is as it was.
pub open spec fn paint(frame: Seq<u8>, tile: TileView, width: int) -> Seq<u8> {
    Seq::new(
        frame.len(),
        |i: int|
            {
                let at = frame_pixel(i, width);
                if tile.region.covers(at.0, at.1) {
                    channel(tile.pixel(at.0, at.1), i % 3)
                } else {
                    frame[i]
                }
            },
    )
}

/// As `paint`, but only the first `count` pixels of the tile, counted row by
/// row, have been copied.
spec fn paint_prefix(frame: Seq<u8>, tile: TileView, width: int, count: int) -> Seq<u8> {
    Seq::new(
        frame.len(),
        |i: int|
            {
                let at = frame_pixel(i, width);
                if tile.region.covers(at.0, at.1) && (at.0 - tile.region.x) + (at.1
                    - tile.region.y) * tile.region.w < count {
                    channel(tile.pixel(at.0, at.1), i % 3)
                } else {
                    frame[i]
                }
            },
    )
}

proof fn lemma_paint_prefix_all(frame: Seq<u8>, tile: TileView, width: int)
    requires
        0 <= tile.region.w,
        0 <= tile.region.h,
    ensures
        paint_prefix(frame, tile, width, tile.region.w * tile.region.h) == paint(
            frame,
            tile,
            width,
        ),
{
    let full = paint_prefix(frame, tile, width, tile.region.w * tile.region.h);
    assert forall|i: int| 0 <= i < frame.len() implies full[i] == paint(frame, tile, width)[i] by {
        let at = frame_pixel(i, width);
        if tile.region.covers(at.0, at.1) {
            lemma_row_major_bound(
                at.0 - tile.region.x,
                at.1 - tile.region.y,
                tile.region.w,
                tile.region.h,
            );
        }
    }
}

/// Writing the three bytes of the tile's pixel in column `lx` and row `ly`
/// extends what has been copied by that one pixel.
proof fn lemma_paint_step(
    frame: Seq<u8>,
    before: Seq<u8>,
    after: Seq<u8>,
    tile: TileView,
    width: int,
    lx: int,
    ly: int,
)
    requires
        0 <= lx < tile.region.w,
        0 <= ly < tile.region.h,
        0 <= tile.region.x,
        0 <= tile.region.y,
        tile.region.x + tile.region.w <= width,
        before.len() == frame.len(),
        before == paint_prefix(frame, tile, width, ly * tile.region.w + lx),
        frame_index(tile.region.x + lx, tile.region.y + ly, width) + 2 < frame.len(),
        after == before.update(
            frame_index(tile.region.x + lx, tile.region.y + ly, width),
            tile.texel(lx, ly).r,
        ).update(
            frame_index(tile.region.x + lx, tile.region.y + ly, width) + 1,
            tile.texel(lx, ly).g,
        ).update(
            frame_index(tile.region.x + lx, tile.region.y + ly, width) + 2,
            tile.texel(lx, ly).b,
        ),
    ensures
        after == paint_prefix(frame, tile, width, ly * tile.region.w + lx + 1),
{
    let gx = tile.region.x + lx;
    let gy = tile.region.y + ly;
    let t = frame_index(gx, gy, width);
    let count = ly * tile.region.w + lx;
    let goal = paint_prefix(frame, tile, width, count + 1);
    lemma_row_major(lx, ly, tile.region.w);
    lemma_frame_pixel_of_index(gx, gy, 0, width);
    lemma_frame_pixel_of_index(gx, gy, 1, width);
    lemma_frame_pixel_of_index(gx, gy, 2, width);
    assert forall|i: int| 0 <= i < frame.len() implies after[i] == goal[i] by {
        let at = frame_pixel(i, width);
        lemma_frame_index_of_pixel(i, width);
        if at.0 == gx && at.1 == gy {
            assert(i == t + i % 3);
            assert(tile.pixel(gx, gy) == tile.texel(lx, ly));
        } else {
            assert(i != t && i != t + 1 && i != t + 2);
            assert(after[i] == before[i]);
            if tile.region.covers(at.0, at.1) {
                lemma_row_major(at.0 - tile.region.x, at.1 - tile.region.y, tile.region.w);
            }
        }
    }
    assert(after =~= goal);
}

} // verus!
