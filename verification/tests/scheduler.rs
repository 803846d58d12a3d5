use std::cell::RefCell;

use rand::rngs::StdRng;
use rand::{Rng, SeedableRng};

use pathtracer::color::Color;
use pathtracer::compositor::composite;
use pathtracer::grid::partition;
use pathtracer::renderer::Tile;
use pathtracer::scheduler::{render, render_batch};
use pathtracer::split::{distribute, worker_count, worker_seed, SplitPolicy};

fn rectangles(tiles: &[Tile]) -> Vec<(usize, usize, usize, usize)> {
    tiles.iter().map(|t| (t.x, t.y, t.w, t.h)).collect()
}

fn numbered_tiles(count: usize) -> Vec<Tile> {
    (0..count).map(|i| Tile::new(i, 0, 1, 1)).collect()
}

fn origins(batches: &[Vec<Tile>]) -> Vec<Vec<usize>> {
    batches.iter().map(|batch| batch.iter().map(|t| t.x).collect()).collect()
}

fn coordinate_color(x: usize, y: usize) -> Color<u8> {
    Color { r: (x % 256) as u8, g: (y % 256) as u8, b: ((x * 7 + y * 13) % 256) as u8 }
}

/// A frame of noise drawn from a generator that starts from `seed`.
fn noisy_frame(seed: u64) -> Vec<u8> {
    let rng = RefCell::new(StdRng::seed_from_u64(seed));
    let shade = |_x: usize, _y: usize| {
        let mut rng = rng.borrow_mut();
        Color { r: rng.gen::<u8>(), g: rng.gen::<u8>(), b: rng.gen::<u8>() }
    };
    render(19, 11, 3, 4, SplitPolicy::Balanced, &shade)
}

/// How often each pixel of a `width` x `height` image lies in one of the tiles.
fn cover_counts(tiles: &[Tile], width: usize, height: usize) -> Vec<u32> {
    let mut counts = vec![0u32; width * height];
    for tile in tiles {
        for y in tile.y..tile.y + tile.h {
            for x in tile.x..tile.x + tile.w {
                counts[x + y * width] += 1;
            }
        }
    }
    counts
}

#[test]
fn partition_cuts_an_even_image_into_equal_tiles() {
    let tiles = partition(1500, 750, 6);
    assert_eq!(tiles.len(), 36);
    assert!(tiles.iter().all(|t| t.w == 250 && t.h == 125 && t.data.is_empty()));
    // Column by column, each column from the bottom row up.
    assert_eq!((tiles[0].x, tiles[0].y), (0, 0));
    assert_eq!((tiles[1].x, tiles[1].y), (0, 125));
    assert_eq!((tiles[5].x, tiles[5].y), (0, 625));
    assert_eq!((tiles[6].x, tiles[6].y), (250, 0));
    assert_eq!((tiles[35].x, tiles[35].y), (1250, 625));
}

#[test]
fn partition_truncates_the_last_row_and_column() {
    let tiles = partition(10, 7, 3);
    // Tiles of 3 x 2; the fourth column is 1 wide, the fourth row 1 high.
    assert_eq!(
        rectangles(&tiles),
        vec![
            (0, 0, 3, 2),
            (0, 2, 3, 2),
            (0, 4, 3, 2),
            (0, 6, 3, 1),
            (3, 0, 3, 2),
            (3, 2, 3, 2),
            (3, 4, 3, 2),
            (3, 6, 3, 1),
            (6, 0, 3, 2),
            (6, 2, 3, 2),
            (6, 4, 3, 2),
            (6, 6, 3, 1),
            (9, 0, 1, 2),
            (9, 2, 1, 2),
            (9, 4, 1, 2),
            (9, 6, 1, 1),
        ]
    );
}

#[test]
fn partition_with_zero_tiles_per_axis_makes_one_tile() {
    let tiles = partition(8, 5, 0);
    assert_eq!(rectangles(&tiles), vec![(0, 0, 8, 5)]);
}

#[test]
fn partition_with_more_tiles_than_pixels_makes_one_pixel_tiles() {
    let tiles = partition(2, 3, 10);
    assert_eq!(
        rectangles(&tiles),
        vec![(0, 0, 1, 1), (0, 1, 1, 1), (0, 2, 1, 1), (1, 0, 1, 1), (1, 1, 1, 1), (1, 2, 1, 1)]
    );
}

#[test]
fn partition_of_an_empty_image_has_no_tiles() {
    assert!(partition(0, 0, 4).is_empty());
    assert!(partition(0, 9, 4).is_empty());
    assert!(partition(9, 0, 4).is_empty());
}

#[test]
fn partition_covers_every_pixel_exactly_once() {
    for width in 0..12usize {
        for height in 0..9usize {
            for per_axis in 0..7usize {
                let tiles = partition(width, height, per_axis);
                assert!(tiles.iter().all(|t| t.w >= 1 && t.h >= 1));
                assert!(tiles.iter().all(|t| t.x + t.w <= width && t.y + t.h <= height));
                let counts = cover_counts(&tiles, width, height);
                assert!(
                    counts.iter().all(|&c| c == 1),
                    "{} x {} cut {} ways",
                    width,
                    height,
                    per_axis
                );
            }
        }
    }
}

#[test]
fn worker_count_is_threads_capped_by_tiles() {
    assert_eq!(worker_count(4, 36), 4);
    assert_eq!(worker_count(4, 2), 2);
    assert_eq!(worker_count(4, 4), 4);
    assert_eq!(worker_count(1, 9), 1);
}

#[test]
fn worker_count_raises_zero_threads_to_one() {
    assert_eq!(worker_count(0, 5), 1);
}

#[test]
fn worker_count_without_tiles_is_zero() {
    assert_eq!(worker_count(3, 0), 0);
    assert_eq!(worker_count(0, 0), 0);
}

#[test]
fn distribute_even_split_takes_tiles_from_the_end() {
    let batches = distribute(numbered_tiles(6), 3, SplitPolicy::Balanced);
    assert_eq!(origins(&batches), vec![vec![5, 4], vec![3, 2], vec![1, 0]]);
    let batches = distribute(numbered_tiles(6), 3, SplitPolicy::Truncating);
    assert_eq!(origins(&batches), vec![vec![5, 4], vec![3, 2], vec![1, 0]]);
}

#[test]
fn distribute_balanced_gives_the_remainder_to_the_first_workers() {
    let batches = distribute(numbered_tiles(11), 4, SplitPolicy::Balanced);
    assert_eq!(
        origins(&batches),
        vec![vec![10, 9, 8], vec![7, 6, 5], vec![4, 3, 2], vec![1, 0]]
    );
}

#[test]
fn distribute_truncating_leaves_the_remainder_out() {
    let batches = distribute(numbered_tiles(11), 4, SplitPolicy::Truncating);
    assert_eq!(origins(&batches), vec![vec![10, 9], vec![8, 7], vec![6, 5], vec![4, 3]]);
}

#[test]
fn distribute_never_makes_more_batches_than_tiles() {
    let batches = distribute(numbered_tiles(2), 4, SplitPolicy::Balanced);
    assert_eq!(origins(&batches), vec![vec![1], vec![0]]);
}

#[test]
fn distribute_with_zero_threads_uses_one_worker() {
    let batches = distribute(numbered_tiles(3), 0, SplitPolicy::Balanced);
    assert_eq!(origins(&batches), vec![vec![2, 1, 0]]);
}

#[test]
fn distribute_without_tiles_makes_no_batches() {
    assert!(distribute(Vec::new(), 4, SplitPolicy::Balanced).is_empty());
    assert!(distribute(Vec::new(), 0, SplitPolicy::Truncating).is_empty());
}

#[test]
fn distribute_balanced_assigns_every_tile_exactly_once() {
    for count in 0..40usize {
        for threads in 0..9usize {
            let batches = distribute(numbered_tiles(count), threads, SplitPolicy::Balanced);
            assert_eq!(batches.len(), worker_count(threads, count));
            let mut seen: Vec<usize> = batches.iter().flatten().map(|t| t.x).collect();
            seen.sort();
            assert_eq!(seen, (0..count).collect::<Vec<usize>>());
            let sizes: Vec<usize> = batches.iter().map(|b| b.len()).collect();
            if let (Some(most), Some(least)) = (sizes.iter().max(), sizes.iter().min()) {
                assert!(most - least <= 1);
            }
        }
    }
}

#[test]
fn dispatched_tiles_cover_the_image_exactly_once() {
    for (width, height) in [(1usize, 1usize), (7, 5), (16, 9), (33, 20), (50, 3)] {
        for per_axis in [0usize, 1, 2, 3, 6, 64] {
            for threads in [0usize, 1, 2, 3, 4, 5, 7, 100] {
                let tiles = partition(width, height, per_axis);
                let batches = distribute(tiles, threads, SplitPolicy::Balanced);
                let dispatched: Vec<Tile> = batches.into_iter().flatten().collect();
                let counts = cover_counts(&dispatched, width, height);
                assert!(
                    counts.iter().all(|&c| c == 1),
                    "{} x {}, {} per axis, {} threads",
                    width,
                    height,
                    per_axis,
                    threads
                );
            }
        }
    }
}

#[test]
fn render_batch_renders_every_tile_of_the_batch() {
    let mut batch = vec![Tile::new(0, 0, 2, 1), Tile::new(2, 0, 1, 2), Tile::new(5, 5, 0, 0)];
    render_batch(&mut batch, &coordinate_color);
    assert_eq!(batch[0].data, vec![coordinate_color(0, 0), coordinate_color(1, 0)]);
    assert_eq!(batch[1].data, vec![coordinate_color(2, 0), coordinate_color(2, 1)]);
    assert!(batch[2].data.is_empty());
    assert_eq!(
        rectangles(&batch),
        vec![(0, 0, 2, 1), (2, 0, 1, 2), (5, 5, 0, 0)]
    );
}

#[test]
fn composite_copies_each_tile_to_its_place() {
    let mut left = Tile::new(0, 0, 1, 2);
    left.data = vec![Color { r: 1, g: 2, b: 3 }, Color { r: 4, g: 5, b: 6 }];
    let mut right = Tile::new(1, 0, 1, 2);
    right.data = vec![Color { r: 7, g: 8, b: 9 }, Color { r: 10, g: 11, b: 12 }];
    let frame = composite(&vec![vec![right], vec![left]], 2, 2);
    assert_eq!(frame, vec![1, 2, 3, 7, 8, 9, 4, 5, 6, 10, 11, 12]);
}

#[test]
fn composite_leaves_uncovered_pixels_black() {
    let mut only = Tile::new(1, 1, 1, 1);
    only.data = vec![Color::white()];
    let frame = composite(&vec![vec![only]], 2, 2);
    assert_eq!(frame, vec![0, 0, 0, 0, 0, 0, 0, 0, 0, 255, 255, 255]);
}

#[test]
fn composite_without_tiles_is_a_black_frame() {
    assert_eq!(composite(&Vec::new(), 3, 2), vec![0u8; 18]);
    assert_eq!(composite(&vec![Vec::new(), Vec::new()], 1, 1), vec![0u8; 3]);
    assert!(composite(&Vec::new(), 0, 5).is_empty());
}

#[test]
fn composite_shows_the_later_of_two_overlapping_tiles() {
    let mut under = Tile::new(0, 0, 2, 1);
    under.data = vec![Color::red(), Color::red()];
    let mut over = Tile::new(1, 0, 1, 1);
    over.data = vec![Color::blue()];
    let frame = composite(&vec![vec![under, over]], 2, 1);
    assert_eq!(frame, vec![255, 0, 0, 0, 0, 255]);
}

#[test]
fn render_gives_every_pixel_its_shade() {
    for (width, height) in [(1usize, 1usize), (7, 5), (16, 9), (33, 20)] {
        for per_axis in [0usize, 1, 3, 6, 64] {
            for threads in [0usize, 1, 4, 5] {
                let frame = render(
                    width,
                    height,
                    per_axis,
                    threads,
                    SplitPolicy::Balanced,
                    &coordinate_color,
                );
                assert_eq!(frame.len(), width * height * 3);
                for py in 0..height {
                    for px in 0..width {
                        let at = px * 3 + py * 3 * width;
                        let c = coordinate_color(px, py);
                        assert_eq!(&frame[at..at + 3], &[c.r, c.g, c.b][..]);
                    }
                }
            }
        }
    }
}

#[test]
fn render_shades_each_pixel_exactly_once() {
    let (width, height) = (23usize, 17usize);
    for threads in 0..8usize {
        let counts = RefCell::new(vec![0u32; width * height]);
        let shade = |x: usize, y: usize| {
            counts.borrow_mut()[x + y * width] += 1;
            Color::white()
        };
        let frame = render(width, height, 4, threads, SplitPolicy::Balanced, &shade);
        assert!(counts.borrow().iter().all(|&c| c == 1));
        assert_eq!(frame, vec![255u8; width * height * 3]);
    }
}

#[test]
fn render_truncating_leaves_the_first_tiles_black() {
    // 6 x 6 cut 3 ways: 9 tiles of 2 x 2; 4 workers take 2 tiles each, and
    // the first tile of the grid, at the origin, goes to nobody.
    let frame = render(6, 6, 3, 4, SplitPolicy::Truncating, &|_x: usize, _y: usize| {
        Color::white()
    });
    for py in 0..6usize {
        for px in 0..6usize {
            let at = px * 3 + py * 3 * 6;
            let expected = if px < 2 && py < 2 { 0u8 } else { 255u8 };
            assert_eq!(&frame[at..at + 3], &[expected; 3][..], "pixel ({}, {})", px, py);
        }
    }
}

#[test]
fn render_truncating_matches_balanced_when_the_split_is_even() {
    let balanced = render(12, 6, 6, 4, SplitPolicy::Balanced, &coordinate_color);
    let truncating = render(12, 6, 6, 4, SplitPolicy::Truncating, &coordinate_color);
    assert_eq!(balanced, truncating);
}

#[test]
fn render_of_an_empty_image_is_empty() {
    let calls = RefCell::new(0u32);
    let shade = |_x: usize, _y: usize| {
        *calls.borrow_mut() += 1;
        Color::white()
    };
    assert!(render(0, 4, 2, 2, SplitPolicy::Balanced, &shade).is_empty());
    assert!(render(4, 0, 2, 2, SplitPolicy::Balanced, &shade).is_empty());
    assert_eq!(*calls.borrow(), 0);
}

#[test]
fn render_with_the_same_seed_gives_the_same_frame() {
    assert_eq!(noisy_frame(42), noisy_frame(42));
    assert_ne!(noisy_frame(42), noisy_frame(43));
}

#[test]
fn worker_seed_adds_the_worker_to_the_seed() {
    assert_eq!(worker_seed(42, 0), 42);
    assert_eq!(worker_seed(42, 3), 45);
    assert_eq!(worker_seed(0, 7), 7);
}

#[test]
fn worker_seed_wraps_around() {
    assert_eq!(worker_seed(u64::MAX, 1), 0);
    assert_eq!(worker_seed(u64::MAX - 1, 5), 3);
}

#[test]
fn worker_seeds_of_one_render_differ() {
    for seed in [0u64, 1, 99, u64::MAX - 2, u64::MAX] {
        let seeds: Vec<u64> = (0..16).map(|worker| worker_seed(seed, worker)).collect();
        for a in 0..seeds.len() {
            for b in 0..a {
                assert_ne!(seeds[a], seeds[b]);
            }
        }
    }
}
