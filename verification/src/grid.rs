//! The tile grid: how an image is cut into rectangular tiles, and why the
//! tiles cover it without a gap and without an overlap.

use vstd::prelude::*;
use vstd::arithmetic::div_mod::{lemma_fundamental_div_mod, lemma_fundamental_div_mod_converse};
use crate::renderer::{lemma_row_major, Region, Tile};

verus! {

/// Edge length of the tiles along an axis of `size` pixels that is to be cut
/// `per_axis` ways: `size / per_axis`, where a `per_axis` of zero counts as
/// one and an edge of zero is raised to one pixel.
pub open spec fn tile_edge(size: int, per_axis: int) -> int {
    let parts = if per_axis < 1 {
        1
    } else {
        per_axis
    };
    if size / parts < 1 {
        1
    } else {
        size / parts
    }
}

/// Number of tiles along an axis of `size` pixels: the whole tiles, and one
/// shorter tile for the pixels that are left over.
pub open spec fn tiles_along(size: int, per_axis: int) -> int {
    let edge = tile_edge(size, per_axis);
    if size % edge == 0 {
        size / edge
    } else {
        size / edge + 1
    }
}

/// Number of tiles in the grid.
pub open spec fn grid_len(width: int, height: int, per_axis: int) -> int {
    tiles_along(width, per_axis) * tiles_along(height, per_axis)
}

/// Rectangle of tile `i` of the grid. The tiles are numbered column by
/// column, and within a column from row 0 upwards. The last tile of a row or
/// a column is cut off at the image's border.
pub open spec fn grid_region(width: int, height: int, per_axis: int, i: int) -> Region {
    let rows = tiles_along(height, per_axis);
    let tw = tile_edge(width, per_axis);
    let th = tile_edge(height, per_axis);
    let x = (i / rows) * tw;
    let y = (i % rows) * th;
    Region {
        x: x,
        y: y,
        w: if width - x < tw {
            width - x
        } else {
            tw
        },
        h: if height - y < th {
            height - y
        } else {
            th
        },
    }
}

/// Number, in the grid, of the tile that holds pixel `(px, py)`.
pub open spec fn grid_tile_of(width: int, height: int, per_axis: int, px: int, py: int) -> int {
    (px / tile_edge(width, per_axis)) * tiles_along(height, per_axis) + py / tile_edge(
        height,
        per_axis,
    )
}

fn axis_edge(size: usize, per_axis: usize) -> (edge: usize)
    ensures
        edge == tile_edge(size as int, per_axis as int),
{
    let parts: usize = if per_axis == 0 {
        1
    } else {
        per_axis
    };
    let edge: usize = size / parts;
    if edge == 0 {
        1
    } else {
        edge
    }
}

fn axis_tiles(size: usize, per_axis: usize) -> (count: usize)
    ensures
        count == tiles_along(size as int, per_axis as int),
{
    let edge: usize = axis_edge(size, per_axis);
    proof {
        lemma_tiles_along(size as int, per_axis as int);
    }
    if size % edge == 0 {
        size / edge
    } else {
        size / edge + 1
    }
}

/// Start and length of tile number `k` along an axis.
fn axis_span(size: usize, per_axis: usize, k: usize) -> (span: (usize, usize))
    requires
        k < tiles_along(size as int, per_axis as int),
    ensures
        span.0 == k * tile_edge(size as int, per_axis as int),
        span.1 == if size - span.0 < tile_edge(size as int, per_axis as int) {
            size - span.0
        } else {
            tile_edge(size as int, per_axis as int)
        },
        span.0 < size,
        1 <= span.1,
        span.0 + span.1 <= size,
{
    let edge: usize = axis_edge(size, per_axis);
    proof {
        lemma_tiles_along(size as int, per_axis as int);
        let c = tiles_along(size as int, per_axis as int);
        assert(0 <= k * edge <= (c - 1) * edge) by (nonlinear_arith)
            requires
                0 <= k <= c - 1,
                1 <= edge,
        ;
    }
    let start: usize = k * edge;
    let length: usize = if size - start < edge {
        size - start
    } else {
        edge
    };
    (start, length)
}

/// Cuts an image of `width` by `height` pixels into the grid of tiles that
/// `grid_region` describes. Every tile's buffer is empty.
pub fn partition(width: usize, height: usize, tiles_per_axis: usize) -> (tiles: Vec<Tile>)
    ensures
        tiles@.len() == grid_len(width as int, height as int, tiles_per_axis as int),
        forall|i: int|
            0 <= i < tiles@.len() ==> {
                &&& (#[trigger] tiles@[i])@.region == grid_region(
                    width as int,
                    height as int,
                    tiles_per_axis as int,
                    i,
                )
                &&& tiles@[i]@.data.len() == 0
            },
{
    let cols: usize = axis_tiles(width, tiles_per_axis);
    let rows: usize = axis_tiles(height, tiles_per_axis);
    let mut tiles: Vec<Tile> = Vec::new();
    let mut col: usize = 0;
    while col < cols
        invariant
            col <= cols,
            cols == tiles_along(width as int, tiles_per_axis as int),
            rows == tiles_along(height as int, tiles_per_axis as int),
            tiles@.len() == col * rows,
            forall|i: int|
                0 <= i < tiles@.len() ==> {
                    &&& (#[trigger] tiles@[i])@.region == grid_region(
                        width as int,
                        height as int,
                        tiles_per_axis as int,
                        i,
                    )
                    &&& tiles@[i]@.data.len() == 0
                },
        decreases cols - col,
    {
        let (x, w) = axis_span(width, tiles_per_axis, col);
        let mut row: usize = 0;
        while row < rows
            invariant
                row <= rows,
                col < cols,
                cols == tiles_along(width as int, tiles_per_axis as int),
                rows == tiles_along(height as int, tiles_per_axis as int),
                x == col * tile_edge(width as int, tiles_per_axis as int),
                w == if width - x < tile_edge(width as int, tiles_per_axis as int) {
                    width - x
                } else {
                    tile_edge(width as int, tiles_per_axis as int)
                },
                tiles@.len() == col * rows + row,
                forall|i: int|
                    0 <= i < tiles@.len() ==> {
                        &&& (#[trigger] tiles@[i])@.region == grid_region(
                            width as int,
                            height as int,
                            tiles_per_axis as int,
                            i,
                        )
                        &&& tiles@[i]@.data.len() == 0
                    },
            decreases rows - row,
        {
            let (y, h) = axis_span(height, tiles_per_axis, row);
            proof {
                lemma_row_major(row as int, col as int, rows as int);
            }
            tiles.push(Tile::new(x, y, w, h));
            row += 1;
        }
        proof {
            assert(col * rows + rows == (col + 1) * rows) by (nonlinear_arith);
        }
        col += 1;
    }
    tiles
}

/// Tiles along an axis: the last one starts inside the image, and together
/// they reach its border.
pub proof fn lemma_tiles_along(size: int, per_axis: int)
    requires
        0 <= size,
    ensures
        1 <= tile_edge(size, per_axis),
        0 <= tiles_along(size, per_axis) <= size,
        size <= tiles_along(size, per_axis) * tile_edge(size, per_axis),
        (tiles_along(size, per_axis) - 1) * tile_edge(size, per_axis) < size || size == 0,
{
    let e = tile_edge(size, per_axis);
    let c = tiles_along(size, per_axis);
    lemma_fundamental_div_mod(size, e);
    let q = size / e;
    let r = size % e;
    assert(0 <= q <= size && (r != 0 ==> q + 1 <= size)) by (nonlinear_arith)
        requires
            size == e * q + r,
            0 <= r < e,
            1 <= e,
            0 <= size,
    ;
    assert(size <= c * e && ((c - 1) * e < size || size == 0)) by (nonlinear_arith)
        requires
            size == e * q + r,
            0 <= r < e,
            1 <= e,
            c == if r == 0 {
                q
            } else {
                q + 1
            },
    ;
}

/// A position below `count * edge` lies in one of the first `count` tiles of
/// its axis.
proof fn lemma_position_tile(p: int, edge: int, count: int)
    requires
        0 <= p < count * edge,
        1 <= edge,
    ensures
        0 <= p / edge < count,
        (p / edge) * edge <= p < (p / edge) * edge + edge,
{
    lemma_fundamental_div_mod(p, edge);
    let q = p / edge;
    let r = p % edge;
    assert(0 <= q < count && q * edge == edge * q) by (nonlinear_arith)
        requires
            p == edge * q + r,
            0 <= r < edge,
            0 <= p < count * edge,
    ;
}

/// A position inside tile number `k` of its axis has `k` as its quotient by
/// the tile edge.
proof fn lemma_tile_position(p: int, edge: int, k: int)
    requires
        1 <= edge,
        k * edge <= p < k * edge + edge,
    ensures
        p / edge == k,
{
    assert(p == edge * k + (p - k * edge)) by (nonlinear_arith);
    lemma_fundamental_div_mod_converse(p, edge, k, p - k * edge);
}

/// Column and row of tile `i` of a grid of `cols` by `rows` tiles.
proof fn lemma_grid_cell(i: int, cols: int, rows: int)
    requires
        0 <= i < cols * rows,
        0 <= cols,
        0 <= rows,
    ensures
        0 < rows,
        0 <= i / rows < cols,
        0 <= i % rows < rows,
        i == (i / rows) * rows + i % rows,
{
    assert(0 < rows) by (nonlinear_arith)
        requires
            0 <= i < cols * rows,
            0 <= cols,
            0 <= rows,
    ;
    lemma_position_tile(i, rows, cols);
    lemma_fundamental_div_mod(i, rows);
    assert((i / rows) * rows == rows * (i / rows)) by (nonlinear_arith);
}

/// Every tile of the grid is a non-empty rectangle inside the image.
pub proof fn lemma_grid_tile_within(width: nat, height: nat, per_axis: nat, i: int)
    requires
        0 <= i < grid_len(width as int, height as int, per_axis as int),
    ensures
        grid_region(width as int, height as int, per_axis as int, i).within(
            width as int,
            height as int,
        ),
        1 <= grid_region(width as int, height as int, per_axis as int, i).w,
        1 <= grid_region(width as int, height as int, per_axis as int, i).h,
{
    let (w, h, n) = (width as int, height as int, per_axis as int);
    let cols = tiles_along(w, n);
    let rows = tiles_along(h, n);
    let tw = tile_edge(w, n);
    let th = tile_edge(h, n);
    lemma_tiles_along(w, n);
    lemma_tiles_along(h, n);
    lemma_grid_cell(i, cols, rows);
    let c = i / rows;
    let r = i % rows;
    assert(0 <= c * tw <= (cols - 1) * tw) by (nonlinear_arith)
        requires
            0 <= c <= cols - 1,
            1 <= tw,
    ;
    assert(0 <= r * th <= (rows - 1) * th) by (nonlinear_arith)
        requires
            0 <= r <= rows - 1,
            1 <= th,
    ;
}

/// Every pixel of the image has its tile in the grid.
pub proof fn lemma_grid_tile_of_pixel(width: nat, height: nat, per_axis: nat, px: int, py: int)
    requires
        0 <= px < width,
        0 <= py < height,
    ensures
        0 <= grid_tile_of(width as int, height as int, per_axis as int, px, py) < grid_len(
            width as int,
            height as int,
            per_axis as int,
        ),
{
    let (w, h, n) = (width as int, height as int, per_axis as int);
    let cols = tiles_along(w, n);
    let rows = tiles_along(h, n);
    lemma_tiles_along(w, n);
    lemma_tiles_along(h, n);
    lemma_position_tile(px, tile_edge(w, n), cols);
    lemma_position_tile(py, tile_edge(h, n), rows);
    let pc = px / tile_edge(w, n);
    assert(0 <= pc * rows && pc * rows + rows <= cols * rows) by (nonlinear_arith)
        requires
            0 <= pc < cols,
            0 <= rows,
    ;
}

/// The tiles of the grid cover the image without a gap and without an
/// overlap: a tile of the grid covers a pixel of the image if and only if it
/// is the tile that `grid_tile_of` names for the pixel.
pub proof fn lemma_grid_covers_once(
    width: nat,
    height: nat,
    per_axis: nat,
    px: int,
    py: int,
    i: int,
)
    requires
        0 <= px < width,
        0 <= py < height,
        0 <= i < grid_len(width as int, height as int, per_axis as int),
    ensures
        grid_region(width as int, height as int, per_axis as int, i).covers(px, py) <==> i
            == grid_tile_of(width as int, height as int, per_axis as int, px, py),
{
    let (w, h, n) = (width as int, height as int, per_axis as int);
    let cols = tiles_along(w, n);
    let rows = tiles_along(h, n);
    let tw = tile_edge(w, n);
    let th = tile_edge(h, n);
    lemma_tiles_along(w, n);
    lemma_tiles_along(h, n);
    lemma_position_tile(px, tw, cols);
    lemma_position_tile(py, th, rows);
    let pc = px / tw;
    let pr = py / th;
    let home = grid_tile_of(w, h, n, px, py);
    lemma_row_major(pr, pc, rows);
    lemma_grid_cell(i, cols, rows);
    let c = i / rows;
    let r = i % rows;
    let region = grid_region(w, h, n, i);
    if region.covers(px, py) {
        lemma_tile_position(px, tw, c);
        lemma_tile_position(py, th, r);
        assert(i == home);
    }
    if i == home {
        assert(c == pc && r == pr);
        assert(region.covers(px, py));
    }
}

} // verus!
