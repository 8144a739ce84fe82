//! A single numbered tile: where it is, what it is worth, which way it is
//! headed, and whether it has come to a stop.

use crate::chance::random_below;
use crate::grid::{
    cell_x, cell_y, in_grid, is_cell_corner, on_raster, square_holds, squares_overlap, Heading,
    Point, COLUMNS, H, HALF_TILE, MOVE_SPEED, PROBE_REACH, ROWS, TILE_SIZE, W,
};
use vstd::arithmetic::power2::*;
use vstd::prelude::*;

verus! {

/// The largest value a tile can have: two to the thirtieth.
pub const MAX_TILE_VALUE: i32 = 1073741824;

/// Whether `v` is a value a tile can have: a power of two from 2 up to
/// [`MAX_TILE_VALUE`].
pub open spec fn is_tile_value(v: int) -> bool {
    exists|k: nat| 1 <= k <= 30 && v == #[trigger] pow2(k)
}

/// The value of a tile after another one has merged into it: twice `v`, except
/// that a tile at [`MAX_TILE_VALUE`] stays there.
pub open spec fn doubled(v: int) -> int {
    if v < MAX_TILE_VALUE {
        2 * v
    } else {
        v
    }
}

/// The mathematical view of a tile.
pub struct Tile {
    /// Left edge.
    pub x: int,
    /// Top edge.
    pub y: int,
    /// The number on the tile.
    pub val: int,
    /// The direction the tile is trying to travel in.
    pub heading: Heading,
    /// Whether the tile has stopped for the current move.
    pub arrived: bool,
}

impl Tile {
    /// A tile lies on the grid, on the quarter-edge raster, and carries a
    /// power of two.
    pub open spec fn wf(self) -> bool {
        on_raster(self.x, W as int) && on_raster(self.y, H as int) && is_tile_value(self.val)
    }

    /// The tile's centre.
    pub open spec fn centre(self) -> (int, int) {
        (self.x + HALF_TILE, self.y + HALF_TILE)
    }

    /// The point one pixel beyond the middle of the edge that leads when the
    /// tile travels towards `dir`; the centre when `dir` is idle.
    pub open spec fn probe_along(self, dir: Heading) -> (int, int) {
        match dir {
            Heading::Idle => self.centre(),
            Heading::Up => (self.x + HALF_TILE, self.y + HALF_TILE - PROBE_REACH),
            Heading::Down => (self.x + HALF_TILE, self.y + HALF_TILE + PROBE_REACH),
            Heading::Left => (self.x + HALF_TILE - PROBE_REACH, self.y + HALF_TILE),
            Heading::Right => (self.x + HALF_TILE + PROBE_REACH, self.y + HALF_TILE),
        }
    }

    /// The probe point for the tile's own heading.
    pub open spec fn probe(self) -> (int, int) {
        self.probe_along(self.heading)
    }

    /// Whether the tile's square holds `p`.
    pub open spec fn covers(self, p: (int, int)) -> bool {
        square_holds(self.x, self.y, p)
    }

    /// Whether the squares of the two tiles share an area.
    pub open spec fn overlaps(self, other: Tile) -> bool {
        squares_overlap(self.x, self.y, other.x, other.y)
    }

    /// Whether the two tiles sit on exactly the same spot.
    pub open spec fn same_spot(self, other: Tile) -> bool {
        self.x == other.x && self.y == other.y
    }

    /// The tile one frame later: a stopped tile stays, a moving one has
    /// covered [`MOVE_SPEED`] along its heading.
    pub open spec fn advanced(self) -> Tile {
        if self.arrived {
            self
        } else {
            match self.heading {
                Heading::Idle => self,
                Heading::Up => Tile { y: self.y - MOVE_SPEED, ..self },
                Heading::Down => Tile { y: self.y + MOVE_SPEED, ..self },
                Heading::Left => Tile { x: self.x - MOVE_SPEED, ..self },
                Heading::Right => Tile { x: self.x + MOVE_SPEED, ..self },
            }
        }
    }

    /// The tile set in motion towards `dir`.
    pub open spec fn launched(self, dir: Heading) -> Tile {
        Tile { heading: dir, arrived: false, ..self }
    }

    /// The tile after another one has merged into it.
    pub open spec fn grown(self) -> Tile {
        Tile { val: doubled(self.val), ..self }
    }

    /// The tile as it rests on the cell in column `col` and row `row`.
    pub open spec fn on_cell(val: int, heading: Heading, col: int, row: int) -> Tile {
        Tile { x: cell_x(col), y: cell_y(row), val, heading, arrived: true }
    }
}

/// Doubling keeps a tile value a tile value.
pub proof fn lemma_doubled_is_tile_value(v: int)
    requires
        is_tile_value(v),
    ensures
        is_tile_value(doubled(v)),
        v <= doubled(v) <= MAX_TILE_VALUE,
        2 <= v,
{
    lemma2_to64();
    let k = choose|k: nat| 1 <= k <= 30 && v == #[trigger] pow2(k);
    lemma_pow2_unfold(k + 1);
    if k < 30 {
        lemma_pow2_strictly_increases(k, 30);
        assert(doubled(v) == pow2(k + 1));
        if k + 1 < 30 {
            lemma_pow2_strictly_increases(k + 1, 30);
        }
    }
    if 1 < k {
        lemma_pow2_strictly_increases(1, k);
    }
}

/// Whether `v` is a value a tile can have.
pub fn is_value(v: i32) -> (r: bool)
    ensures
        r == is_tile_value(v as int),
{
    let mut p: i32 = 2;
    let mut k: u32 = 1;
    proof {
        lemma2_to64();
    }
    while k < 30
        invariant
            1 <= k <= 30,
            p == pow2(k as nat),
            forall|j: nat| 1 <= j < k ==> v != #[trigger] pow2(j),
        decreases 30 - k,
    {
        if p == v {
            return true;
        }
        proof {
            lemma2_to64();
            lemma_pow2_unfold((k + 1) as nat);
            lemma_pow2_strictly_increases((k + 1) as nat, 31);
        }
        p = p * 2;
        k = k + 1;
    }
    p == v
}

/// Draws a cell of the grid at random, column and row independently of each
/// other; gives the column, then the row.
pub fn random_cell() -> (cell: (i32, i32))
    ensures
        0 <= cell.0 < COLUMNS,
        0 <= cell.1 < ROWS,
{
    let col: i32 = random_below(COLUMNS);
    let row: i32 = random_below(ROWS);
    (col, row)
}

/// A tile of the board.
#[derive(Clone, Copy, Debug)]
pub struct GameTile {
    x: i32,
    y: i32,
    val: i32,
    target: Heading,
    at_target: bool,
}

impl View for GameTile {
    type V = Tile;

    closed spec fn view(&self) -> Tile {
        Tile {
            x: self.x as int,
            y: self.y as int,
            val: self.val as int,
            heading: self.target,
            arrived: self.at_target,
        }
    }
}

impl GameTile {
    #[verifier::type_invariant]
    spec fn inv(self) -> bool {
        self@.wf()
    }

    /// A stopped tile of value `val` in the top-left cell, headed for `target`.
    pub fn new(val: i32, target: Heading) -> (t: GameTile)
        requires
            is_tile_value(val as int),
        ensures
            t@ == Tile::on_cell(val as int, target, 0, 0),
            t@.wf(),
    {
        GameTile { x: 0, y: 0, val, target, at_target: true }
    }

    /// Left edge of the tile.
    pub fn x(&self) -> (r: i32)
        ensures
            r == self@.x,
            self@.wf(),
    {
        proof {
            use_type_invariant(self);
        }
        self.x
    }

    /// Top edge of the tile.
    pub fn y(&self) -> (r: i32)
        ensures
            r == self@.y,
            self@.wf(),
    {
        proof {
            use_type_invariant(self);
        }
        self.y
    }

    /// The number on the tile.
    pub fn value(&self) -> (r: i32)
        ensures
            r == self@.val,
            self@.wf(),
    {
        proof {
            use_type_invariant(self);
        }
        self.val
    }

    /// The direction the tile is trying to travel in.
    pub fn heading(&self) -> (r: Heading)
        ensures
            r == self@.heading,
    {
        self.target
    }

    /// Whether the tile has stopped for the current move.
    pub fn arrived(&self) -> (r: bool)
        ensures
            r == self@.arrived,
    {
        self.at_target
    }

    /// The point just beyond the tile's leading edge.
    pub fn future_point(&self) -> (p: Point)
        ensures
            p@ == self@.probe(),
    {
        proof {
            use_type_invariant(self);
        }
        let cx: i32 = self.x + HALF_TILE;
        let cy: i32 = self.y + HALF_TILE;
        match self.target {
            Heading::Idle => Point { x: cx, y: cy },
            Heading::Up => Point { x: cx, y: cy - PROBE_REACH },
            Heading::Down => Point { x: cx, y: cy + PROBE_REACH },
            Heading::Left => Point { x: cx - PROBE_REACH, y: cy },
            Heading::Right => Point { x: cx + PROBE_REACH, y: cy },
        }
    }

    /// Whether the tile's square holds `p`.
    pub fn covers(&self, p: Point) -> (r: bool)
        ensures
            r == self@.covers(p@),
    {
        proof {
            use_type_invariant(self);
        }
        self.x <= p.x && p.x <= self.x + TILE_SIZE && self.y <= p.y && p.y <= self.y + TILE_SIZE
    }

    /// Whether the squares of the two tiles share an area.
    pub fn overlaps(&self, other: &GameTile) -> (r: bool)
        ensures
            r == self@.overlaps(other@),
    {
        proof {
            use_type_invariant(self);
            use_type_invariant(other);
        }
        self.x < other.x + TILE_SIZE && self.x + TILE_SIZE > other.x && self.y < other.y
            + TILE_SIZE && self.y + TILE_SIZE > other.y
    }

    /// Whether the two tiles sit on exactly the same spot.
    pub fn same_spot(&self, other: &GameTile) -> (r: bool)
        ensures
            r == self@.same_spot(other@),
    {
        self.x == other.x && self.y == other.y
    }

    /// Moves the tile one frame along its heading, unless it has stopped.
    ///
    /// A moving tile needs room ahead: its probe point lies on the grid.
    pub fn advance(&mut self)
        requires
            old(self)@.arrived || in_grid(old(self)@.probe()),
        ensures
            final(self)@ == old(self)@.advanced(),
            final(self)@.wf(),
    {
        proof {
            use_type_invariant(&*self);
        }
        if !self.at_target {
            match self.target {
                Heading::Idle => {},
                Heading::Up => {
                    self.y = self.y - MOVE_SPEED;
                },
                Heading::Down => {
                    self.y = self.y + MOVE_SPEED;
                },
                Heading::Left => {
                    self.x = self.x - MOVE_SPEED;
                },
                Heading::Right => {
                    self.x = self.x + MOVE_SPEED;
                },
            }
        }
    }

    /// Puts the tile on a cell of the grid drawn at random, column and row
    /// independently of each other.
    pub fn random_spot(&mut self)
        ensures
            is_cell_corner(final(self)@.x, final(self)@.y),
            final(self)@ == (Tile { x: final(self)@.x, y: final(self)@.y, ..old(self)@ }),
            final(self)@.wf(),
    {
        proof {
            use_type_invariant(&*self);
        }
        let cell: (i32, i32) = random_cell();
        self.place(cell.0, cell.1);
    }

    /// Puts the tile on the cell in column `col` and row `row`.
    pub fn place(&mut self, col: i32, row: i32)
        requires
            0 <= col < COLUMNS,
            0 <= row < ROWS,
        ensures
            final(self)@ == (Tile { x: cell_x(col as int), y: cell_y(row as int), ..old(self)@ }),
            is_cell_corner(final(self)@.x, final(self)@.y),
            final(self)@.wf(),
    {
        proof {
            use_type_invariant(&*self);
        }
        let x: i32 = col * TILE_SIZE;
        let y: i32 = row * TILE_SIZE;
        *self = GameTile { x, y, val: self.val, target: self.target, at_target: self.at_target };
    }

    /// The tile set in motion towards `dir`.
    pub fn launched(self, dir: Heading) -> (t: GameTile)
        ensures
            t@ == self@.launched(dir),
            t@.wf(),
    {
        proof {
            use_type_invariant(&self);
        }
        GameTile { x: self.x, y: self.y, val: self.val, target: dir, at_target: false }
    }

    /// The tile brought to a stop.
    pub fn stopped(self) -> (t: GameTile)
        ensures
            t@ == (Tile { arrived: true, ..self@ }),
            t@.wf(),
    {
        proof {
            use_type_invariant(&self);
        }
        GameTile { x: self.x, y: self.y, val: self.val, target: self.target, at_target: true }
    }

    /// The tile after another one has merged into it.
    pub fn grown(self) -> (t: GameTile)
        ensures
            t@ == self@.grown(),
            t@.wf(),
    {
        proof {
            use_type_invariant(&self);
            lemma_doubled_is_tile_value(self.val as int);
        }
        let val: i32 = if self.val < MAX_TILE_VALUE {
            self.val * 2
        } else {
            self.val
        };
        GameTile { x: self.x, y: self.y, val, target: self.target, at_target: self.at_target }
    }
}

} // verus!
