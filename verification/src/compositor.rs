//! The compositor: copies finished tiles into one framebuffer. Each pixel
//! ends up with the color of the tile that was copied over it last, and a
//! pixel that no tile covers keeps the color it had.

use vstd::prelude::*;
use crate::frame::{frame_color, frame_index, lemma_frame_pixel_of_index};
use crate::renderer::{paint, Tile, TileView};

verus! {

/// The framebuffer of an image in which nothing has been rendered: every
/// byte is zero.
pub open spec fn blank(width: int, height: int) -> Seq<u8> {
    Seq::new((width * height * 3) as nat, |i: int| 0u8)
}

/// The framebuffer `frame` after the tiles were copied into it one after the
/// other.
pub open spec fn paint_tiles(frame: Seq<u8>, tiles: Seq<Tile>, width: int) -> Seq<u8>
    decreases tiles.len(),
{
    if tiles.len() == 0 {
        frame
    } else {
        paint(paint_tiles(frame, tiles.drop_last(), width), tiles.last()@, width)
    }
}

/// The framebuffer `frame` after the batches were copied into it one after
/// the other.
pub open spec fn paint_batches(frame: Seq<u8>, batches: Seq<Vec<Tile>>, width: int) -> Seq<u8>
    decreases batches.len(),
{
    if batches.len() == 0 {
        frame
    } else {
        paint_tiles(paint_batches(frame, batches.drop_last(), width), batches.last()@, width)
    }
}

/// Copies the finished tiles of all workers into a new framebuffer for an
/// image of `width` by `height` pixels, batch after batch and tile after
/// tile. Bytes of pixels that no tile covers are zero.
pub fn composite(batches: &Vec<Vec<Tile>>, width: usize, height: usize) -> (frame: Vec<u8>)
    requires
        width * height * 3 <= usize::MAX,
        forall|b: int, j: int|
            0 <= b < batches@.len() && 0 <= j < batches@[b]@.len() ==> {
                &&& (#[trigger] batches@[b]@[j])@.rendered()
                &&& batches@[b]@[j]@.region.within(width as int, height as int)
            },
    ensures
        frame@ == paint_batches(blank(width as int, height as int), batches@, width as int),
{
    proof {
        assert(width * height <= width * height * 3) by (nonlinear_arith)
            requires
                0 <= width,
                0 <= height,
        ;
    }
    let mut frame: Vec<u8> = Vec::new();
    frame.resize(width * height * 3, 0);
    assert(frame@ =~= blank(width as int, height as int));
    let mut b: usize = 0;
    while b < batches.len()
        invariant
            b <= batches@.len(),
            frame@.len() == width * height * 3,
            forall|c: int, j: int|
                0 <= c < batches@.len() && 0 <= j < batches@[c]@.len() ==> {
                    &&& (#[trigger] batches@[c]@[j])@.rendered()
                    &&& batches@[c]@[j]@.region.within(width as int, height as int)
                },
            frame@ == paint_batches(
                blank(width as int, height as int),
                batches@.take(b as int),
                width as int,
            ),
        decreases batches@.len() - b,
    {
        let batch = &batches[b];
        let ghost done = frame@;
        let mut j: usize = 0;
        while j < batch.len()
            invariant
                j <= batch@.len(),
                b < batches@.len(),
                *batch == batches@[b as int],
                frame@.len() == width * height * 3,
                forall|c: int, k: int|
                    0 <= c < batches@.len() && 0 <= k < batches@[c]@.len() ==> {
                        &&& (#[trigger] batches@[c]@[k])@.rendered()
                        &&& batches@[c]@[k]@.region.within(width as int, height as int)
                    },
                frame@ == paint_tiles(done, batch@.take(j as int), width as int),
            decreases batch@.len() - j,
        {
            assert(batch@[j as int] == batches@[b as int]@[j as int]);
            batch[j].write_data(&mut frame, width, height);
            proof {
                assert(batch@.take(j + 1).drop_last() =~= batch@.take(j as int));
            }
            j += 1;
        }
        proof {
            assert(batch@.take(batch@.len() as int) =~= batch@);
            assert(batches@.take(b + 1).drop_last() =~= batches@.take(b as int));
        }
        b += 1;
    }
    proof {
        assert(batches@.take(batches@.len() as int) =~= batches@);
    }
    frame
}

/// Copying one tile gives each pixel that the tile covers the tile's color
/// for it, and leaves every other pixel as it was.
pub proof fn lemma_paint_color(frame: Seq<u8>, tile: TileView, width: int, px: int, py: int)
    requires
        0 <= px < width,
        0 <= py,
        frame_index(px, py, width) + 2 < frame.len(),
    ensures
        paint(frame, tile, width).len() == frame.len(),
        frame_color(paint(frame, tile, width), width, px, py) == if tile.region.covers(px, py) {
            tile.pixel(px, py)
        } else {
            frame_color(frame, width, px, py)
        },
{
    lemma_frame_pixel_of_index(px, py, 0, width);
    lemma_frame_pixel_of_index(px, py, 1, width);
    lemma_frame_pixel_of_index(px, py, 2, width);
    assert(0 <= frame_index(px, py, width)) by (nonlinear_arith)
        requires
            0 <= px < width,
            0 <= py,
            frame_index(px, py, width) == px * 3 + py * 3 * width,
    ;
}

/// Copying tiles does not change the length of the framebuffer.
pub proof fn lemma_paint_tiles_len(frame: Seq<u8>, tiles: Seq<Tile>, width: int)
    ensures
        paint_tiles(frame, tiles, width).len() == frame.len(),
    decreases tiles.len(),
{
    if tiles.len() > 0 {
        lemma_paint_tiles_len(frame, tiles.drop_last(), width);
    }
}

/// Copying batches does not change the length of the framebuffer.
pub proof fn lemma_paint_batches_len(frame: Seq<u8>, batches: Seq<Vec<Tile>>, width: int)
    ensures
        paint_batches(frame, batches, width).len() == frame.len(),
    decreases batches.len(),
{
    if batches.len() > 0 {
        lemma_paint_batches_len(frame, batches.drop_last(), width);
        lemma_paint_tiles_len(
            paint_batches(frame, batches.drop_last(), width),
            batches.last()@,
            width,
        );
    }
}

/// A pixel that none of the tiles covers keeps its color.
pub proof fn lemma_paint_tiles_miss(frame: Seq<u8>, tiles: Seq<Tile>, width: int, px: int, py: int)
    requires
        0 <= px < width,
        0 <= py,
        frame_index(px, py, width) + 2 < frame.len(),
        forall|k: int| 0 <= k < tiles.len() ==> !(#[trigger] tiles[k])@.region.covers(px, py),
    ensures
        frame_color(paint_tiles(frame, tiles, width), width, px, py) == frame_color(
            frame,
            width,
            px,
            py,
        ),
    decreases tiles.len(),
{
    if tiles.len() > 0 {
        let before = tiles.drop_last();
        assert forall|k: int| 0 <= k < before.len() implies !(#[trigger] before[k])@.region.covers(
            px,
            py,
        ) by {
            assert(before[k] == tiles[k]);
        }
        lemma_paint_tiles_miss(frame, before, width, px, py);
        lemma_paint_tiles_len(frame, before, width);
        assert(!tiles[tiles.len() - 1]@.region.covers(px, py));
        lemma_paint_color(paint_tiles(frame, before, width), tiles.last()@, width, px, py);
    }
}

/// A pixel has the color of the last of the tiles that cover it.
pub proof fn lemma_paint_tiles_top(
    frame: Seq<u8>,
    tiles: Seq<Tile>,
    width: int,
    px: int,
    py: int,
    m: int,
)
    requires
        0 <= px < width,
        0 <= py,
        frame_index(px, py, width) + 2 < frame.len(),
        0 <= m < tiles.len(),
        tiles[m]@.region.covers(px, py),
        forall|k: int| m < k < tiles.len() ==> !(#[trigger] tiles[k])@.region.covers(px, py),
    ensures
        frame_color(paint_tiles(frame, tiles, width), width, px, py) == tiles[m]@.pixel(px, py),
    decreases tiles.len(),
{
    let before = tiles.drop_last();
    lemma_paint_tiles_len(frame, before, width);
    lemma_paint_color(paint_tiles(frame, before, width), tiles.last()@, width, px, py);
    if m < tiles.len() - 1 {
        assert(!tiles[tiles.len() - 1]@.region.covers(px, py));
        assert(before[m] == tiles[m]);
        assert forall|k: int| m < k < before.len() implies !(#[trigger] before[k])@.region.covers(
            px,
            py,
        ) by {
            assert(before[k] == tiles[k]);
        }
        lemma_paint_tiles_top(frame, before, width, px, py, m);
    }
}

/// A pixel that no tile of any batch covers keeps its color.
pub proof fn lemma_paint_batches_miss(
    frame: Seq<u8>,
    batches: Seq<Vec<Tile>>,
    width: int,
    px: int,
    py: int,
)
    requires
        0 <= px < width,
        0 <= py,
        frame_index(px, py, width) + 2 < frame.len(),
        forall|b: int, j: int|
            0 <= b < batches.len() && 0 <= j < batches[b]@.len() ==> !(
            #[trigger] batches[b]@[j])@.region.covers(px, py),
    ensures
        frame_color(paint_batches(frame, batches, width), width, px, py) == frame_color(
            frame,
            width,
            px,
            py,
        ),
    decreases batches.len(),
{
    if batches.len() > 0 {
        let before = batches.drop_last();
        let last = batches.len() - 1;
        assert forall|b: int, j: int|
            0 <= b < before.len() && 0 <= j < before[b]@.len() implies !(
        #[trigger] before[b]@[j])@.region.covers(px, py) by {
            assert(before[b] == batches[b]);
            assert(!batches[b]@[j]@.region.covers(px, py));
        }
        lemma_paint_batches_miss(frame, before, width, px, py);
        lemma_paint_batches_len(frame, before, width);
        assert forall|k: int| 0 <= k < batches.last()@.len() implies !(
        #[trigger] batches.last()@[k])@.region.covers(px, py) by {
            assert(!batches[last]@[k]@.region.covers(px, py));
        }
        lemma_paint_tiles_miss(paint_batches(frame, before, width), batches.last()@, width, px, py);
    }
}

/// A pixel has the color of the tile that covers it, where no tile later in
/// the same batch and no tile of a later batch covers it too.
pub proof fn lemma_paint_batches_top(
    frame: Seq<u8>,
    batches: Seq<Vec<Tile>>,
    width: int,
    px: int,
    py: int,
    b: int,
    j: int,
)
    requires
        0 <= px < width,
        0 <= py,
        frame_index(px, py, width) + 2 < frame.len(),
        0 <= b < batches.len(),
        0 <= j < batches[b]@.len(),
        batches[b]@[j]@.region.covers(px, py),
        forall|c: int, k: int|
            0 <= c < batches.len() && 0 <= k < batches[c]@.len() && (b < c || (b == c && j < k))
                ==> !(#[trigger] batches[c]@[k])@.region.covers(px, py),
    ensures
        frame_color(paint_batches(frame, batches, width), width, px, py) == batches[b]@[j]@.pixel(
            px,
            py,
        ),
    decreases batches.len(),
{
    let before = batches.drop_last();
    let last = batches.len() - 1;
    lemma_paint_batches_len(frame, before, width);
    let under = paint_batches(frame, before, width);
    if b == last {
        assert forall|k: int| j < k < batches.last()@.len() implies !(
        #[trigger] batches.last()@[k])@.region.covers(px, py) by {
            assert(!batches[last]@[k]@.region.covers(px, py));
        }
        lemma_paint_tiles_top(under, batches.last()@, width, px, py, j);
    } else {
        assert forall|k: int| 0 <= k < batches.last()@.len() implies !(
        #[trigger] batches.last()@[k])@.region.covers(px, py) by {
            assert(!batches[last]@[k]@.region.covers(px, py));
        }
        lemma_paint_tiles_miss(under, batches.last()@, width, px, py);
        assert(before[b] == batches[b]);
        assert forall|c: int, k: int|
            0 <= c < before.len() && 0 <= k < before[c]@.len() && (b < c || (b == c && j < k))
            implies !(#[trigger] before[c]@[k])@.region.covers(px, py) by {
            assert(before[c] == batches[c]);
            assert(!batches[c]@[k]@.region.covers(px, py));
        }
        lemma_paint_batches_top(frame, before, width, px, py, b, j);
    }
}

} // verus!
