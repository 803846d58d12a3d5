//! The render scheduler: cuts the image into tiles, deals them out to
//! workers, has each batch rendered and composes the frame. With a balanced
//! split every pixel of the image is rendered exactly once.

use vstd::prelude::*;
use crate::color::Color;
use crate::compositor::{
    blank, composite, lemma_paint_batches_len, lemma_paint_batches_miss, lemma_paint_batches_top,
};
use crate::frame::{frame_color, lemma_frame_index_bounds};
use crate::grid::{
    grid_len, grid_region, grid_tile_of, lemma_grid_covers_once, lemma_grid_tile_of_pixel,
    lemma_grid_tile_within, partition,
};
use crate::renderer::{Region, Tile};
use crate::split::{
    assigned, batch_len, distribute, is_slot, lemma_assigned_in_range, lemma_assigned_once,
    lemma_assigned_somewhere, unassigned, workers_for, SplitPolicy,
};

verus! {

/// What the scheduler is asked to do: the size of the image, the number of
/// tiles along each axis, the number of threads, and how to split the tiles
/// among the workers.
pub struct Schedule {
    pub width: nat,
    pub height: nat,
    pub per_axis: nat,
    pub threads: nat,
    pub policy: SplitPolicy,
}

impl Schedule {
    /// Number of tiles in the grid.
    pub open spec fn tiles(self) -> int {
        grid_len(self.width as int, self.height as int, self.per_axis as int)
    }

    /// Number of workers.
    pub open spec fn workers(self) -> int {
        workers_for(self.threads as int, self.tiles())
    }

    /// Pixel `(px, py)` is a pixel of the image.
    pub open spec fn in_image(self, px: int, py: int) -> bool {
        0 <= px < self.width && 0 <= py < self.height
    }

    /// Worker `b` has a `j`-th tile.
    pub open spec fn has_slot(self, b: int, j: int) -> bool {
        is_slot(self.tiles(), self.workers(), self.policy, b, j)
    }

    /// Number, in the grid, of the `j`-th tile of worker `b`.
    pub open spec fn tile_number(self, b: int, j: int) -> int {
        assigned(self.tiles(), self.workers(), self.policy, b, j)
    }

    /// Rectangle of the `j`-th tile of worker `b`.
    pub open spec fn tile(self, b: int, j: int) -> Region {
        grid_region(
            self.width as int,
            self.height as int,
            self.per_axis as int,
            self.tile_number(b, j),
        )
    }

    /// Number, in the grid, of the tile that holds pixel `(px, py)`.
    pub open spec fn home(self, px: int, py: int) -> int {
        grid_tile_of(self.width as int, self.height as int, self.per_axis as int, px, py)
    }

    /// Number of tiles that go to no worker.
    pub open spec fn left_out(self) -> int {
        unassigned(self.tiles(), self.workers(), self.policy)
    }

    /// Worker `b` has a `j`-th tile, and that tile covers pixel `(px, py)`.
    pub open spec fn dispatched_at(self, b: int, j: int, px: int, py: int) -> bool {
        self.has_slot(b, j) && self.tile(b, j).covers(px, py)
    }

    /// Pixel `(px, py)` lies in a tile that some worker takes.
    pub open spec fn dispatched(self, px: int, py: int) -> bool {
        exists|b: int, j: int| #[trigger] self.dispatched_at(b, j, px, py)
    }
}

/// Renders the tiles of one worker, in their order in the batch.
pub fn render_batch<F: Fn(usize, usize) -> Color<u8>>(batch: &mut Vec<Tile>, shade: &F)
    requires
        forall|i: int|
            0 <= i < old(batch)@.len() ==> (#[trigger] old(batch)@[i])@.region.addressable(),
        forall|i: int, px: usize, py: usize|
            0 <= i < old(batch)@.len() && (#[trigger] old(batch)@[i])@.region.covers(
                px as int,
                py as int,
            ) ==> #[trigger] call_requires(shade, (px, py)),
    ensures
        final(batch)@.len() == old(batch)@.len(),
        forall|i: int|
            0 <= i < final(batch)@.len() ==> {
                &&& (#[trigger] final(batch)@[i])@.region == old(batch)@[i]@.region
                &&& final(batch)@[i]@.rendered()
                &&& final(batch)@[i]@.shaded_by(shade)
            },
{
    let mut i: usize = 0;
    while i < batch.len()
        invariant
            i <= batch@.len(),
            batch@.len() == old(batch)@.len(),
            forall|k: int|
                0 <= k < batch@.len() ==> (#[trigger] batch@[k])@.region == old(batch)@[k]@.region,
            forall|k: int|
                0 <= k < old(batch)@.len() ==> (#[trigger] old(batch)@[k])@.region.addressable(),
            forall|k: int, px: usize, py: usize|
                0 <= k < old(batch)@.len() && (#[trigger] old(batch)@[k])@.region.covers(
                    px as int,
                    py as int,
                ) ==> #[trigger] call_requires(shade, (px, py)),
            forall|k: int|
                0 <= k < i ==> (#[trigger] batch@[k])@.rendered() && batch@[k]@.shaded_by(shade),
        decreases batch@.len() - i,
    {
        batch[i].run(shade);
        i += 1;
    }
}

/// Renders an image of `width` by `height` pixels on the calling thread:
/// cuts it into tiles, deals the tiles out as for `threads` workers, renders
/// the batches one after the other and copies the tiles into a new
/// framebuffer. A pixel whose tile was dealt to a worker has a color that
/// `shade` returned for it; with `SplitPolicy::Balanced` that is every pixel.
/// A pixel whose tile went to nobody is black.
pub fn render<F: Fn(usize, usize) -> Color<u8>>(
    width: usize,
    height: usize,
    tiles_per_axis: usize,
    threads: usize,
    policy: SplitPolicy,
    shade: &F,
) -> (frame: Vec<u8>)
    requires
        width * height * 3 <= usize::MAX,
        forall|px: usize, py: usize| px < width && py < height ==> call_requires(shade, (px, py)),
    ensures
        frame@.len() == width * height * 3,
        forall|px: usize, py: usize|
            px < width && py < height ==> if (Schedule {
                width: width as nat,
                height: height as nat,
                per_axis: tiles_per_axis as nat,
                threads: threads as nat,
                policy: policy,
            }).dispatched(px as int, py as int) {
                call_ensures(
                    shade,
                    (px, py),
                    #[trigger] frame_color(frame@, width as int, px as int, py as int),
                )
            } else {
                frame_color(frame@, width as int, px as int, py as int) == (Color::<u8> {
                    r: 0,
                    g: 0,
                    b: 0,
                })
            },
{
    let ghost plan = Schedule {
        width: width as nat,
        height: height as nat,
        per_axis: tiles_per_axis as nat,
        threads: threads as nat,
        policy: policy,
    };
    let tiles = partition(width, height, tiles_per_axis);
    let mut batches = distribute(tiles, threads, policy);
    proof {
        assert forall|b: int, j: int|
            0 <= b < batches@.len() && 0 <= j < batches@[b]@.len() implies (
        #[trigger] batches@[b]@[j])@.region == plan.tile(b, j) by {
            lemma_dealt_tile(plan, b, j);
        }
    }
    let mut b: usize = 0;
    while b < batches.len()
        invariant
            b <= batches@.len(),
            batches@.len() == plan.workers(),
            plan.width == width,
            plan.height == height,
            forall|px: usize, py: usize|
                px < width && py < height ==> call_requires(shade, (px, py)),
            forall|c: int|
                0 <= c < batches@.len() ==> (#[trigger] batches@[c])@.len() == batch_len(
                    plan.tiles(),
                    plan.workers(),
                    plan.policy,
                    c,
                ),
            forall|c: int, j: int|
                0 <= c < batches@.len() && 0 <= j < batches@[c]@.len() ==> (
                #[trigger] batches@[c]@[j])@.region == plan.tile(c, j),
            forall|c: int, j: int|
                0 <= c < b && 0 <= j < batches@[c]@.len() ==> (
                #[trigger] batches@[c]@[j])@.rendered() && batches@[c]@[j]@.shaded_by(shade),
        decreases batches@.len() - b,
    {
        let ghost before = batches@;
        assert forall|i: int| 0 <= i < batches@[b as int]@.len() implies (
        #[trigger] batches@[b as int]@[i])@.region.addressable() by {
            lemma_dealt_tile(plan, b as int, i);
        }
        assert forall|i: int, px: usize, py: usize|
            0 <= i < batches@[b as int]@.len() && (#[trigger] batches@[b as int]@[i])@.region.covers(
                px as int,
                py as int,
            ) implies #[trigger] call_requires(shade, (px, py)) by {
            lemma_dealt_tile(plan, b as int, i);
        }
        render_batch(&mut batches[b], shade);
        proof {
            assert forall|c: int| 0 <= c < batches@.len() implies (#[trigger] batches@[c])@.len()
                == batch_len(plan.tiles(), plan.workers(), plan.policy, c) by {
                if c != b {
                    assert(batches@[c] == before[c]);
                }
            }
            assert forall|c: int, j: int|
                0 <= c < batches@.len() && 0 <= j < batches@[c]@.len() implies (
            #[trigger] batches@[c]@[j])@.region == plan.tile(c, j) by {
                if c != b {
                    assert(batches@[c] == before[c]);
                }
                assert(before[c]@[j]@.region == batches@[c]@[j]@.region);
            }
            assert forall|c: int, j: int|
                0 <= c < b + 1 && 0 <= j < batches@[c]@.len() implies (
            #[trigger] batches@[c]@[j])@.rendered() && batches@[c]@[j]@.shaded_by(shade) by {
                if c != b {
                    assert(batches@[c] == before[c]);
                }
            }
        }
        b += 1;
    }
    proof {
        assert forall|c: int, k: int|
            0 <= c < batches@.len() && 0 <= k < batches@[c]@.len() implies (
        #[trigger] batches@[c]@[k])@.region.within(width as int, height as int) by {
            lemma_dealt_tile(plan, c, k);
        }
    }
    let frame = composite(&batches, width, height);
    proof {
        let start = blank(width as int, height as int);
        lemma_paint_batches_len(start, batches@, width as int);
        assert forall|px: usize, py: usize| px < width && py < height implies if plan.dispatched(
            px as int,
            py as int,
        ) {
            call_ensures(
                shade,
                (px, py),
                #[trigger] frame_color(frame@, width as int, px as int, py as int),
            )
        } else {
            frame_color(frame@, width as int, px as int, py as int) == (Color::<u8> {
                r: 0,
                g: 0,
                b: 0,
            })
        } by {
            let (x, y) = (px as int, py as int);
            lemma_frame_index_bounds(x, y, width as int, height as int);
            lemma_dispatched_iff(plan, x, y);
            assert forall|c: int, k: int|
                0 <= c < batches@.len() && 0 <= k < batches@[c]@.len() implies ((
            #[trigger] batches@[c]@[k])@.region.covers(x, y) <==> plan.tile_number(c, k)
                == plan.home(x, y)) by {
                lemma_dealt_tile(plan, c, k);
                lemma_grid_covers_once(
                    plan.width,
                    plan.height,
                    plan.per_axis,
                    x,
                    y,
                    plan.tile_number(c, k),
                );
            }
            if plan.left_out() <= plan.home(x, y) {
                lemma_grid_tile_of_pixel(plan.width, plan.height, plan.per_axis, x, y);
                let slot = lemma_assigned_somewhere(
                    plan.tiles(),
                    plan.workers(),
                    plan.policy,
                    plan.home(x, y),
                );
                assert forall|c: int, k: int|
                    0 <= c < batches@.len() && 0 <= k < batches@[c]@.len() && (slot.0 < c || (
                    slot.0 == c && slot.1 < k)) implies !(
                #[trigger] batches@[c]@[k])@.region.covers(x, y) by {
                    if batches@[c]@[k]@.region.covers(x, y) {
                        lemma_assigned_once(
                            plan.tiles(),
                            plan.workers(),
                            plan.policy,
                            slot.0,
                            slot.1,
                            c,
                            k,
                        );
                    }
                }
                lemma_paint_batches_top(start, batches@, width as int, x, y, slot.0, slot.1);
                assert(batches@[slot.0]@[slot.1]@.shaded_by(shade));
                assert(batches@[slot.0]@[slot.1]@.region.covers(px as int, py as int));
            } else {
                assert forall|c: int, k: int|
                    0 <= c < batches@.len() && 0 <= k < batches@[c]@.len() implies !(
                #[trigger] batches@[c]@[k])@.region.covers(x, y) by {
                    lemma_dealt_tile(plan, c, k);
                }
                lemma_paint_batches_miss(start, batches@, width as int, x, y);
            }
        }
    }
    frame
}

/// Each tile that a worker takes is a tile of the grid, none of those left
/// out, and lies inside the image.
pub proof fn lemma_dealt_tile(plan: Schedule, b: int, j: int)
    requires
        plan.has_slot(b, j),
    ensures
        0 <= plan.left_out() <= plan.tile_number(b, j) < plan.tiles(),
        plan.tile(b, j).within(plan.width as int, plan.height as int),
{
    lemma_assigned_in_range(plan.tiles(), plan.workers(), plan.policy, b, j);
    lemma_grid_tile_within(plan.width, plan.height, plan.per_axis, plan.tile_number(b, j));
}

/// A pixel of the image lies in a tile that some worker takes if and only if
/// its tile is not one of the first `left_out()` tiles of the grid. With a
/// truncating split those are the tiles that stay unrendered.
pub proof fn lemma_dispatched_iff(plan: Schedule, px: int, py: int)
    requires
        plan.in_image(px, py),
    ensures
        plan.dispatched(px, py) <==> plan.left_out() <= plan.home(px, py),
{
    lemma_grid_tile_of_pixel(plan.width, plan.height, plan.per_axis, px, py);
    if plan.dispatched(px, py) {
        let (b, j) = choose|b: int, j: int| #[trigger] plan.dispatched_at(b, j, px, py);
        lemma_dealt_tile(plan, b, j);
        lemma_grid_covers_once(
            plan.width,
            plan.height,
            plan.per_axis,
            px,
            py,
            plan.tile_number(b, j),
        );
    }
    if plan.left_out() <= plan.home(px, py) {
        let slot = lemma_assigned_somewhere(
            plan.tiles(),
            plan.workers(),
            plan.policy,
            plan.home(px, py),
        );
        lemma_grid_covers_once(plan.width, plan.height, plan.per_axis, px, py, plan.home(px, py));
        assert(plan.dispatched_at(slot.0, slot.1, px, py));
    }
}

/// No pixel is rendered twice: the tiles that the workers take do not
/// overlap, whatever the policy.
pub proof fn lemma_dispatched_once(plan: Schedule, px: int, py: int, b: int, j: int, c: int, k: int)
    requires
        plan.dispatched_at(b, j, px, py),
        plan.dispatched_at(c, k, px, py),
    ensures
        b == c,
        j == k,
{
    lemma_dealt_tile(plan, b, j);
    lemma_dealt_tile(plan, c, k);
    lemma_grid_covers_once(
        plan.width,
        plan.height,
        plan.per_axis,
        px,
        py,
        plan.tile_number(b, j),
    );
    lemma_grid_covers_once(
        plan.width,
        plan.height,
        plan.per_axis,
        px,
        py,
        plan.tile_number(c, k),
    );
    lemma_assigned_once(plan.tiles(), plan.workers(), plan.policy, b, j, c, k);
}

/// Whatever the size of the image, the number of tiles along an axis and the
/// number of threads: with a balanced split every pixel of the image lies in
/// a tile that was handed to a worker, and in only one such tile; and every
/// tile that was handed to a worker lies inside the image.
pub proof fn lemma_dispatch_covers_image_once(
    width: nat,
    height: nat,
    per_axis: nat,
    threads: nat,
)
    ensures
        ({
            let plan = Schedule { width, height, per_axis, threads, policy: SplitPolicy::Balanced };
            &&& forall|px: int, py: int|
                plan.in_image(px, py) ==> #[trigger] plan.dispatched(px, py)
            &&& forall|px: int, py: int, b: int, j: int, c: int, k: int|
                #[trigger] plan.dispatched_at(b, j, px, py) && #[trigger] plan.dispatched_at(
                    c,
                    k,
                    px,
                    py,
                ) ==> b == c && j == k
            &&& forall|b: int, j: int| #[trigger]
                plan.has_slot(b, j) ==> plan.tile(b, j).within(width as int, height as int)
        }),
{
    let plan = Schedule { width, height, per_axis, threads, policy: SplitPolicy::Balanced };
    assert forall|px: int, py: int| plan.in_image(px, py) implies #[trigger] plan.dispatched(
        px,
        py,
    ) by {
        lemma_grid_tile_of_pixel(width, height, per_axis, px, py);
        lemma_dispatched_iff(plan, px, py);
    }
    assert forall|px: int, py: int, b: int, j: int, c: int, k: int|
        #[trigger] plan.dispatched_at(b, j, px, py) && #[trigger] plan.dispatched_at(
            c,
            k,
            px,
            py,
        ) implies b == c && j == k by {
        lemma_dispatched_once(plan, px, py, b, j, c, k);
    }
    assert forall|b: int, j: int| #[trigger] plan.has_slot(b, j) implies plan.tile(b, j).within(
        width as int,
        height as int,
    ) by {
        lemma_dealt_tile(plan, b, j);
    }
}

} // verus!
