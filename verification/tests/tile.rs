use std::cell::RefCell;

use pathtracer::color::Color;
use pathtracer::renderer::Tile;

fn coordinate_color(x: usize, y: usize) -> Color<u8> {
    Color { r: x as u8, g: y as u8, b: (x + 10 * y) as u8 }
}

#[test]
fn new_tile_keeps_its_rectangle_and_has_no_pixels() {
    let tile = Tile::new(3, 4, 5, 6);
    assert_eq!((tile.x, tile.y, tile.w, tile.h), (3, 4, 5, 6));
    assert!(tile.data.is_empty());
}

#[test]
fn world_location_adds_the_tile_origin() {
    let tile = Tile::new(250, 125, 250, 125);
    assert_eq!(tile.world_location_of_pixel(0, 0), (250, 125));
    assert_eq!(tile.world_location_of_pixel(7, 9), (257, 134));
    assert_eq!(tile.world_location_of_pixel(249, 124), (499, 249));
}

#[test]
fn run_fills_the_buffer_row_by_row() {
    let mut tile = Tile::new(2, 1, 3, 2);
    tile.run(&coordinate_color);
    assert_eq!(tile.data.len(), 6);
    let expected = vec![
        coordinate_color(2, 1),
        coordinate_color(3, 1),
        coordinate_color(4, 1),
        coordinate_color(2, 2),
        coordinate_color(3, 2),
        coordinate_color(4, 2),
    ];
    assert_eq!(tile.data, expected);
    assert_eq!((tile.x, tile.y, tile.w, tile.h), (2, 1, 3, 2));
}

#[test]
fn run_shades_each_pixel_once_in_row_order() {
    let seen: RefCell<Vec<(usize, usize)>> = RefCell::new(Vec::new());
    let shade = |x: usize, y: usize| {
        seen.borrow_mut().push((x, y));
        Color::black()
    };
    let mut tile = Tile::new(5, 7, 2, 3);
    tile.run(&shade);
    assert_eq!(*seen.borrow(), vec![(5, 7), (6, 7), (5, 8), (6, 8), (5, 9), (6, 9)]);
}

#[test]
fn run_replaces_an_earlier_rendering() {
    let mut tile = Tile::new(0, 0, 2, 2);
    tile.run(&|_x: usize, _y: usize| Color::red());
    tile.run(&|_x: usize, _y: usize| Color::blue());
    assert_eq!(tile.data, vec![Color::blue(); 4]);
}

#[test]
fn run_on_an_empty_tile_shades_nothing() {
    let calls = RefCell::new(0u32);
    let shade = |_x: usize, _y: usize| {
        *calls.borrow_mut() += 1;
        Color::white()
    };
    let mut flat = Tile::new(4, 4, 0, 3);
    flat.run(&shade);
    let mut thin = Tile::new(4, 4, 3, 0);
    thin.run(&shade);
    assert!(flat.data.is_empty());
    assert!(thin.data.is_empty());
    assert_eq!(*calls.borrow(), 0);
}

#[test]
fn write_data_places_pixels_at_their_frame_index() {
    // A 2 x 2 tile at (1, 1) of a 4 x 3 image.
    let mut tile = Tile::new(1, 1, 2, 2);
    tile.run(&coordinate_color);
    let mut frame = vec![9u8; 4 * 3 * 3];
    tile.write_data(&mut frame, 4, 3);
    for py in 0..3usize {
        for px in 0..4usize {
            let at = px * 3 + py * 3 * 4;
            let inside = (1..3).contains(&px) && (1..3).contains(&py);
            let expected = if inside {
                let c = coordinate_color(px, py);
                [c.r, c.g, c.b]
            } else {
                [9, 9, 9]
            };
            assert_eq!(&frame[at..at + 3], &expected[..], "pixel ({}, {})", px, py);
        }
    }
}

#[test]
fn write_data_exact_bytes() {
    let mut tile = Tile::new(1, 0, 1, 2);
    tile.data = vec![Color { r: 1, g: 2, b: 3 }, Color { r: 4, g: 5, b: 6 }];
    let mut frame = vec![0u8; 2 * 2 * 3];
    tile.write_data(&mut frame, 2, 2);
    assert_eq!(frame, vec![0, 0, 0, 1, 2, 3, 0, 0, 0, 4, 5, 6]);
}

#[test]
fn write_data_of_a_full_image_tile_overwrites_everything() {
    let mut tile = Tile::new(0, 0, 3, 2);
    tile.run(&coordinate_color);
    let mut frame = vec![200u8; 3 * 2 * 3];
    tile.write_data(&mut frame, 3, 2);
    let mut expected = Vec::new();
    for py in 0..2usize {
        for px in 0..3usize {
            let c = coordinate_color(px, py);
            expected.extend_from_slice(&[c.r, c.g, c.b]);
        }
    }
    assert_eq!(frame, expected);
}

#[test]
fn write_data_of_an_empty_tile_changes_nothing() {
    let tile = Tile::new(2, 2, 0, 0);
    let mut frame = vec![5u8; 2 * 2 * 3];
    tile.write_data(&mut frame, 2, 2);
    assert_eq!(frame, vec![5u8; 12]);
}

#[test]
fn a_tile_is_rendered_once_its_buffer_is_full() {
    let mut tile = Tile::new(0, 0, 3, 2);
    assert!(!tile.is_rendered());
    tile.data = vec![Color::black(); 5];
    assert!(!tile.is_rendered());
    tile.run(&coordinate_color);
    assert!(tile.is_rendered());
    assert!(Tile::new(1, 1, 0, 7).is_rendered());
    assert!(!Tile::new(0, 0, usize::MAX, 2).is_rendered());
}

#[test]
fn a_tile_fits_an_image_that_holds_all_of_it() {
    let tile = Tile::new(2, 3, 4, 5);
    assert!(tile.fits(6, 8));
    assert!(tile.fits(100, 100));
    assert!(!tile.fits(5, 8));
    assert!(!tile.fits(6, 7));
    assert!(!tile.fits(0, 0));
    assert!(Tile::new(6, 8, 0, 0).fits(6, 8));
    assert!(!Tile::new(usize::MAX, 0, 1, 1).fits(usize::MAX, usize::MAX));
}

#[test]
fn a_tile_is_addressable_unless_its_far_edge_overflows() {
    assert!(Tile::new(0, 0, usize::MAX, usize::MAX).is_addressable());
    assert!(Tile::new(usize::MAX - 4, 10, 4, 4).is_addressable());
    assert!(!Tile::new(usize::MAX - 3, 10, 4, 4).is_addressable());
    assert!(!Tile::new(10, usize::MAX, 4, 1).is_addressable());
}
