//! The split of the tiles among the workers: a fixed batch of tiles for each
//! worker, decided before any of them starts.

use vstd::prelude::*;
use vstd::arithmetic::div_mod::lemma_fundamental_div_mod;
use crate::renderer::Tile;

verus! {

/// How the tiles are divided among the workers.
#[derive(Debug, Clone, Copy, PartialEq, Eq, Structural)]
pub enum SplitPolicy {
    /// Every tile goes to a worker: each worker takes `tiles / workers`
    /// tiles, and the first `tiles % workers` workers take one more.
    Balanced,
    /// Each worker takes `tiles / workers` tiles and no more, so that
    /// `tiles % workers` tiles go to nobody and stay unrendered.
    Truncating,
}

/// Number of workers that get tiles: the number of threads asked for, at
/// least one, and no more than there are tiles.
pub open spec fn workers_for(threads: int, tiles: int) -> int {
    let wanted = if threads < 1 {
        1
    } else {
        threads
    };
    if tiles < wanted {
        tiles
    } else {
        wanted
    }
}

/// Number of tiles that worker `b` takes.
pub open spec fn batch_len(tiles: int, workers: int, policy: SplitPolicy, b: int) -> int {
    if policy is Balanced && b < tiles % workers {
        tiles / workers + 1
    } else {
        tiles / workers
    }
}

/// Number of tiles that the workers before worker `b` take.
pub open spec fn batch_start(tiles: int, workers: int, policy: SplitPolicy, b: int) -> int {
    let extra = if policy is Balanced {
        if b < tiles % workers {
            b
        } else {
            tiles % workers
        }
    } else {
        0
    };
    b * (tiles / workers) + extra
}

/// Number of tiles that go to nobody.
pub open spec fn unassigned(tiles: int, workers: int, policy: SplitPolicy) -> int {
    if policy is Balanced || workers < 1 {
        0
    } else {
        tiles % workers
    }
}

/// Index, in the list of tiles, of the tile that worker `b` takes as its
/// `j`-th. The tiles are handed out from the end of the list: worker 0 takes
/// the last tile first.
pub open spec fn assigned(tiles: int, workers: int, policy: SplitPolicy, b: int, j: int) -> int {
    tiles - 1 - (batch_start(tiles, workers, policy, b) + j)
}

/// Worker `b` has a `j`-th tile.
pub open spec fn is_slot(tiles: int, workers: int, policy: SplitPolicy, b: int, j: int) -> bool {
    0 <= b < workers && 0 <= j < batch_len(tiles, workers, policy, b)
}

/// Number of workers for `threads` threads and `tiles` tiles.
pub fn worker_count(threads: usize, tiles: usize) -> (workers: usize)
    ensures
        workers == workers_for(threads as int, tiles as int),
{
    let wanted: usize = if threads == 0 {
        1
    } else {
        threads
    };
    if tiles < wanted {
        tiles
    } else {
        wanted
    }
}

/// Seed of the random number generator of worker `worker` in a render that
/// was given `seed`: the sum of the two, wrapped around at 64 bits. A render
/// that is given the same seed again seeds each worker as before.
pub open spec fn seed_for(seed: u64, worker: int) -> int {
    if seed + worker > u64::MAX {
        seed + worker - 0x1_0000_0000_0000_0000
    } else {
        seed + worker
    }
}

/// Seed of the random number generator of worker `worker`.
pub fn worker_seed(seed: u64, worker: usize) -> (own: u64)
    ensures
        own == seed_for(seed, worker as int),
{
    seed.wrapping_add(worker as u64)
}

/// Deals the tiles out to `worker_count(threads, tiles.len())` workers, one
/// batch for each worker. With `SplitPolicy::Balanced` every tile is in
/// exactly one batch. The tiles leave the list from its end: the first batch
/// starts with the last tile.
pub fn distribute(tiles: Vec<Tile>, threads: usize, policy: SplitPolicy) -> (batches: Vec<
    Vec<Tile>,
>)
    ensures
        batches@.len() == workers_for(threads as int, tiles@.len() as int),
        forall|b: int|
            0 <= b < batches@.len() ==> (#[trigger] batches@[b])@.len() == batch_len(
                tiles@.len() as int,
                batches@.len() as int,
                policy,
                b,
            ),
        forall|b: int, j: int|
            0 <= b < batches@.len() && 0 <= j < batches@[b]@.len() ==> #[trigger] batches@[b]@[j]
                == tiles@[assigned(tiles@.len() as int, batches@.len() as int, policy, b, j)],
{
    let ghost all = tiles@;
    let mut rest = tiles;
    let total: usize = rest.len();
    let workers: usize = worker_count(threads, total);
    let mut batches: Vec<Vec<Tile>> = Vec::with_capacity(workers);
    if workers == 0 {
        return batches;
    }
    let share: usize = total / workers;
    let extra: usize = total % workers;
    let mut b: usize = 0;
    while b < workers
        invariant
            b <= workers,
            1 <= workers <= total,
            total == all.len(),
            share == total / workers,
            extra == total % workers,
            batches@.len() == b,
            0 <= batch_start(total as int, workers as int, policy, b as int) <= total,
            rest@ == all.take(total - batch_start(total as int, workers as int, policy, b as int)),
            forall|c: int|
                0 <= c < b ==> (#[trigger] batches@[c])@.len() == batch_len(
                    total as int,
                    workers as int,
                    policy,
                    c,
                ),
            forall|c: int, j: int|
                0 <= c < b && 0 <= j < batches@[c]@.len() ==> #[trigger] batches@[c]@[j]
                    == all[assigned(total as int, workers as int, policy, c, j)],
        decreases workers - b,
    {
        proof {
            lemma_batches_adjoin(total as int, workers as int, policy, b as int);
        }
        let take: usize = match policy {
            SplitPolicy::Balanced => if b < extra {
                share + 1
            } else {
                share
            },
            SplitPolicy::Truncating => share,
        };
        let ghost start = batch_start(total as int, workers as int, policy, b as int);
        let mut batch: Vec<Tile> = Vec::with_capacity(take);
        let mut j: usize = 0;
        while j < take
            invariant
                j <= take,
                total == all.len(),
                0 <= start,
                start + take <= total,
                start == batch_start(total as int, workers as int, policy, b as int),
                rest@ == all.take(total - start - j),
                batch@.len() == j,
                forall|i: int|
                    0 <= i < j ==> #[trigger] batch@[i] == all[assigned(
                        total as int,
                        workers as int,
                        policy,
                        b as int,
                        i,
                    )],
            decreases take - j,
        {
            let tile = rest.pop().unwrap();
            batch.push(tile);
            j += 1;
        }
        batches.push(batch);
        b += 1;
    }
    batches
}

/// The batches follow one another without a gap, and all of them together
/// hold the tiles that are not left unassigned.
pub proof fn lemma_batches_adjoin(tiles: int, workers: int, policy: SplitPolicy, b: int)
    requires
        1 <= workers <= tiles,
        0 <= b < workers,
    ensures
        1 <= batch_len(tiles, workers, policy, b),
        batch_start(tiles, workers, policy, 0) == 0,
        0 <= batch_start(tiles, workers, policy, b),
        batch_start(tiles, workers, policy, b + 1) == batch_start(tiles, workers, policy, b)
            + batch_len(tiles, workers, policy, b),
        batch_start(tiles, workers, policy, b + 1) <= tiles - unassigned(tiles, workers, policy),
        batch_start(tiles, workers, policy, workers) == tiles - unassigned(
            tiles,
            workers,
            policy,
        ),
{
    let q = tiles / workers;
    let r = tiles % workers;
    lemma_fundamental_div_mod(tiles, workers);
    assert(1 <= q) by (nonlinear_arith)
        requires
            tiles == workers * q + r,
            0 <= r < workers,
            workers <= tiles,
    ;
    assert(0 <= b * q && (b + 1) * q == b * q + q && (b + 1) * q <= workers * q && workers * q
        == tiles - r) by (nonlinear_arith)
        requires
            tiles == workers * q + r,
            0 <= b < workers,
            1 <= q,
    ;
}

/// The batches are laid out in the order of the workers: a later worker's
/// batch starts where an earlier worker's batch ends, or after that.
proof fn lemma_batches_ordered(tiles: int, workers: int, policy: SplitPolicy, b: int, c: int)
    requires
        1 <= workers <= tiles,
        0 <= b < c <= workers,
    ensures
        batch_start(tiles, workers, policy, b) + batch_len(tiles, workers, policy, b)
            <= batch_start(tiles, workers, policy, c),
    decreases c - b,
{
    lemma_batches_adjoin(tiles, workers, policy, b);
    if b + 1 < c {
        lemma_batches_adjoin(tiles, workers, policy, c - 1);
        lemma_batches_ordered(tiles, workers, policy, b, c - 1);
    }
}

/// Finds the worker whose batch holds position `at` among the tiles handed
/// out, looking from worker `from` on.
proof fn lemma_find_slot(tiles: int, workers: int, policy: SplitPolicy, at: int, from: int) -> (slot:
    (int, int))
    requires
        1 <= workers <= tiles,
        0 <= from < workers,
        batch_start(tiles, workers, policy, from) <= at < tiles - unassigned(
            tiles,
            workers,
            policy,
        ),
    ensures
        is_slot(tiles, workers, policy, slot.0, slot.1),
        batch_start(tiles, workers, policy, slot.0) + slot.1 == at,
    decreases workers - from,
{
    lemma_batches_adjoin(tiles, workers, policy, from);
    if at < batch_start(tiles, workers, policy, from + 1) {
        (from, at - batch_start(tiles, workers, policy, from))
    } else {
        lemma_find_slot(tiles, workers, policy, at, from + 1)
    }
}

/// Each tile that a worker takes is a tile of the list, and none of the
/// first `unassigned` tiles.
pub proof fn lemma_assigned_in_range(tiles: int, workers: int, policy: SplitPolicy, b: int, j: int)
    requires
        workers <= tiles,
        is_slot(tiles, workers, policy, b, j),
    ensures
        0 <= unassigned(tiles, workers, policy) <= assigned(tiles, workers, policy, b, j) < tiles,
{
    lemma_batches_adjoin(tiles, workers, policy, b);
}

/// No tile is handed out twice: two different places in the batches hold two
/// different tiles.
pub proof fn lemma_assigned_once(
    tiles: int,
    workers: int,
    policy: SplitPolicy,
    b: int,
    j: int,
    c: int,
    k: int,
)
    requires
        workers <= tiles,
        is_slot(tiles, workers, policy, b, j),
        is_slot(tiles, workers, policy, c, k),
        assigned(tiles, workers, policy, b, j) == assigned(tiles, workers, policy, c, k),
    ensures
        b == c,
        j == k,
{
    if b < c {
        lemma_batches_ordered(tiles, workers, policy, b, c);
    }
    if c < b {
        lemma_batches_ordered(tiles, workers, policy, c, b);
    }
}

/// Every tile but the first `unassigned` ones is handed out: some worker
/// takes it.
pub proof fn lemma_assigned_somewhere(tiles: int, workers: int, policy: SplitPolicy, i: int) -> (slot:
    (int, int))
    requires
        1 <= workers <= tiles,
        unassigned(tiles, workers, policy) <= i < tiles,
    ensures
        is_slot(tiles, workers, policy, slot.0, slot.1),
        assigned(tiles, workers, policy, slot.0, slot.1) == i,
{
    lemma_batches_adjoin(tiles, workers, policy, 0);
    lemma_find_slot(tiles, workers, policy, tiles - 1 - i, 0)
}

/// Two workers of one render never get the same seed.
pub proof fn lemma_worker_seeds_differ(seed: u64, a: usize, b: usize)
    requires
        a != b,
    ensures
        seed_for(seed, a as int) != seed_for(seed, b as int),
{
}

/// Where the number of tiles is a multiple of the number of workers, both
/// policies hand out the same tiles to the same workers in the same order,
/// and none is left out.
pub proof fn lemma_even_split_agrees(tiles: int, workers: int, b: int, j: int)
    requires
        1 <= workers,
        tiles % workers == 0,
        0 <= b,
    ensures
        unassigned(tiles, workers, SplitPolicy::Truncating) == 0,
        batch_len(tiles, workers, SplitPolicy::Truncating, b) == batch_len(
            tiles,
            workers,
            SplitPolicy::Balanced,
            b,
        ),
        assigned(tiles, workers, SplitPolicy::Truncating, b, j) == assigned(
            tiles,
            workers,
            SplitPolicy::Balanced,
            b,
            j,
        ),
{
}

} // verus!
