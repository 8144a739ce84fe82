//! The coordinate system of the board: fixed-point positions, the four
//! directions of travel, and the two geometric tests everything else rests on.
//!
//! A position counts quarters of a pixel, so that a quarter of a tile edge,
//! which is the distance a tile covers in one frame, is a whole number.

use vstd::prelude::*;

verus! {

/// Position units in one screen pixel.
pub const SUBPIXELS: i32 = 4;

/// Edge length of a tile (125 pixels).
pub const TILE_SIZE: i32 = 500;

/// Distance a moving tile covers in one frame: a quarter of its edge.
pub const MOVE_SPEED: i32 = 125;

/// Number of cells in a row of the grid.
pub const COLUMNS: i32 = 4;

/// Number of cells in a column of the grid.
pub const ROWS: i32 = 4;

/// Width of the grid: four tiles.
pub const W: i32 = 2000;

/// Height of the grid: four tiles. The grid is square.
pub const H: i32 = 2000;

/// Distance from a tile's corner to its centre, along either axis.
pub const HALF_TILE: i32 = 250;

/// Distance from a tile's centre to its probe point: half an edge and one pixel.
pub const PROBE_REACH: i32 = 254;

/// The direction a tile, or the whole board, is travelling in.
#[derive(Clone, Copy, PartialEq, Eq, Structural, Debug)]
pub enum Heading {
    Idle,
    Up,
    Down,
    Left,
    Right,
}

impl Heading {
    /// Horizontal component of the unit vector of this heading.
    pub open spec fn dx(self) -> int {
        match self {
            Heading::Left => -1,
            Heading::Right => 1,
            _ => 0,
        }
    }

    /// Vertical component of the unit vector of this heading; down is positive.
    pub open spec fn dy(self) -> int {
        match self {
            Heading::Up => -1,
            Heading::Down => 1,
            _ => 0,
        }
    }

    /// Horizontal component of the unit vector of this heading.
    pub fn step_x(self) -> (r: i32)
        ensures
            r == self.dx(),
    {
        match self {
            Heading::Left => -1,
            Heading::Right => 1,
            _ => 0,
        }
    }

    /// Vertical component of the unit vector of this heading; down is positive.
    pub fn step_y(self) -> (r: i32)
        ensures
            r == self.dy(),
    {
        match self {
            Heading::Up => -1,
            Heading::Down => 1,
            _ => 0,
        }
    }

    /// Whether this is no direction at all.
    pub fn is_idle(self) -> (r: bool)
        ensures
            r == (self is Idle),
    {
        match self {
            Heading::Idle => true,
            _ => false,
        }
    }
}

/// A point of the plane.
#[derive(Clone, Copy, PartialEq, Eq, Structural, Debug)]
pub struct Point {
    pub x: i32,
    pub y: i32,
}

impl View for Point {
    type V = (int, int);

    open spec fn view(&self) -> (int, int) {
        (self.x as int, self.y as int)
    }
}

/// Whether `p` lies on the grid. The border belongs to the grid.
pub open spec fn in_grid(p: (int, int)) -> bool {
    0 <= p.0 <= W && 0 <= p.1 <= H
}

/// Whether `p` lies in the tile-sized square whose top-left corner is `(x, y)`.
/// The border belongs to the square.
pub open spec fn square_holds(x: int, y: int, p: (int, int)) -> bool {
    x <= p.0 <= x + TILE_SIZE && y <= p.1 <= y + TILE_SIZE
}

/// Whether the tile-sized squares with top-left corners `(ax, ay)` and
/// `(bx, by)` share an area. Squares that only touch do not.
pub open spec fn squares_overlap(ax: int, ay: int, bx: int, by: int) -> bool {
    ax < bx + TILE_SIZE && ax + TILE_SIZE > bx && ay < by + TILE_SIZE && ay + TILE_SIZE > by
}

/// Whether `v` is a coordinate a tile corner can have along an axis on which
/// the grid is `extent` long: on the quarter-edge raster, and such that the
/// tile stays on the grid.
pub open spec fn on_raster(v: int, extent: int) -> bool {
    0 <= v <= extent - TILE_SIZE && v % (MOVE_SPEED as int) == 0
}

/// Whether `(x, y)` is the top-left corner of a cell of the grid.
pub open spec fn is_cell_corner(x: int, y: int) -> bool {
    exists|col: int, row: int|
        0 <= col < COLUMNS && 0 <= row < ROWS && x == #[trigger] cell_x(col) && y
            == #[trigger] cell_y(row)
}

/// Left edge of the cells in column `col`.
pub open spec fn cell_x(col: int) -> int {
    col * TILE_SIZE
}

/// Top edge of the cells in row `row`.
pub open spec fn cell_y(row: int) -> int {
    row * TILE_SIZE
}

/// Whether `p` lies on the grid.
pub fn point_in_grid(p: Point) -> (r: bool)
    ensures
        r == in_grid(p@),
{
    0 <= p.x && p.x <= W && 0 <= p.y && p.y <= H
}

} // verus!
