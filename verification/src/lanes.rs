//! Lanes: the board seen along the direction of travel.
//!
//! A move towards one side leaves the coordinate across it alone, so every
//! tile runs in a lane of the grid. This module names the two coordinates,
//! says what it means for the tiles to be in order while a move is in
//! progress ([`orderly`]) and for the board to be at rest ([`at_rest`]), and
//! collects what follows from either. That both are kept frame after frame
//! is shown in [`crate::order`].

use crate::arrival::{arrived, headway, in_way, same_body};
use crate::grid::{
    cell_x, cell_y, in_grid, is_cell_corner, Heading, COLUMNS, HALF_TILE, MOVE_SPEED, ROWS,
    TILE_SIZE, W,
};
use crate::tile::Tile;
use vstd::prelude::*;

verus! {

/// How far `t` has come along `dir`, counted from the edge it leaves behind.
pub open spec fn fore(t: Tile, dir: Heading) -> int {
    W - headway(t, dir)
}

/// Where `t` stands across `dir`: the coordinate a move towards `dir` leaves
/// alone.
pub open spec fn side(t: Tile, dir: Heading) -> int {
    match dir {
        Heading::Up | Heading::Down => t.x,
        _ => t.y,
    }
}

/// Whether `v` is the coordinate of a cell corner.
pub open spec fn on_lattice(v: int) -> bool {
    v % (TILE_SIZE as int) == 0
}

/// Whether every tile has stopped on a cell of the grid, and no two tiles
/// share a cell.
pub open spec fn at_rest(tiles: Seq<Tile>) -> bool {
    &&& forall|i: int|
        0 <= i < tiles.len() ==> (#[trigger] tiles[i]).arrived && is_cell_corner(
            tiles[i].x,
            tiles[i].y,
        )
    &&& forall|i: int, j: int|
        0 <= i < tiles.len() && 0 <= j < tiles.len() && i != j ==> !(#[trigger] tiles[i]).same_spot(
            #[trigger] tiles[j],
        )
}

/// Whether the tiles are in order while the board travels towards `dir`.
///
/// Every tile is a proper tile in a lane, is marked as stopped exactly when
/// it has to stop, and has stopped on a cell if it has stopped. Of two tiles
/// that overlap, both have the same value and the front one has stopped; the
/// rear one has stopped exactly when it has reached the front one. No tile
/// overlaps two others.
#[verifier::opaque]
pub open spec fn orderly(tiles: Seq<Tile>, dir: Heading) -> bool {
    &&& !(dir is Idle)
    &&& forall|i: int|
        0 <= i < tiles.len() ==> (#[trigger] tiles[i]).wf() && tiles[i].heading == dir
            && on_lattice(side(tiles[i], dir)) && (tiles[i].arrived <==> arrived(tiles, dir, i))
            && (tiles[i].arrived ==> on_lattice(fore(tiles[i], dir)))
    &&& forall|i: int, j: int|
        #![trigger tiles[i].overlaps(tiles[j])]
        0 <= i < tiles.len() && 0 <= j < tiles.len() && i != j && tiles[i].overlaps(tiles[j])
            && fore(tiles[i], dir) <= fore(tiles[j], dir) ==> tiles[i].val == tiles[j].val
            && tiles[j].arrived && (tiles[i].arrived <==> fore(tiles[i], dir) == fore(
            tiles[j],
            dir,
        ))
    &&& forall|i: int, j: int, k: int|
        #![trigger tiles[i].overlaps(tiles[j]), tiles[i].overlaps(tiles[k])]
        0 <= i < tiles.len() && 0 <= j < tiles.len() && 0 <= k < tiles.len() && i != j && i != k
            && j != k ==> !(tiles[i].overlaps(tiles[j]) && tiles[i].overlaps(tiles[k]))
}

/// The two geometric tests, seen along the direction of travel.
pub proof fn lemma_along(s: Tile, t: Tile, dir: Heading)
    requires
        !(dir is Idle),
        s.wf(),
        t.wf(),
    ensures
        0 <= fore(s, dir) <= W - TILE_SIZE,
        fore(s, dir) % (MOVE_SPEED as int) == 0,
        0 <= side(s, dir) <= W - TILE_SIZE,
        in_grid(s.probe_along(dir)) <==> fore(s, dir) + MOVE_SPEED <= W - TILE_SIZE,
        t.covers(s.probe_along(dir)) <==> (0 < fore(t, dir) - fore(s, dir) <= TILE_SIZE
            && -HALF_TILE <= side(t, dir) - side(s, dir) <= HALF_TILE),
        s.overlaps(t) <==> (-TILE_SIZE < fore(t, dir) - fore(s, dir) < TILE_SIZE && -TILE_SIZE
            < side(t, dir) - side(s, dir) < TILE_SIZE),
{
}

/// Two tiles in lanes that are less than a tile apart across the direction of
/// travel run in the same lane.
pub proof fn lemma_same_lane(a: int, b: int)
    requires
        on_lattice(a),
        on_lattice(b),
        -TILE_SIZE < a - b < TILE_SIZE,
    ensures
        a == b,
{
}

/// What the two geometric tests say of two proper tiles in lanes.
pub proof fn lemma_in_lanes(ts: Seq<Tile>, dir: Heading, a: int, b: int)
    requires
        !(dir is Idle),
        0 <= a < ts.len(),
        0 <= b < ts.len(),
        a != b,
        ts[a].wf(),
        ts[b].wf(),
        on_lattice(side(ts[a], dir)),
        on_lattice(side(ts[b], dir)),
    ensures
        ts[a].overlaps(ts[b]) <==> (-TILE_SIZE < fore(ts[b], dir) - fore(ts[a], dir) < TILE_SIZE
            && side(ts[a], dir) == side(ts[b], dir)),
        in_way(ts, dir, a, b) <==> (0 < fore(ts[b], dir) - fore(ts[a], dir) <= TILE_SIZE && side(
            ts[a],
            dir,
        ) == side(ts[b], dir) && fore(ts[a], dir) + MOVE_SPEED <= W - TILE_SIZE),
        fore(ts[a], dir) % (MOVE_SPEED as int) == 0,
        fore(ts[b], dir) % (MOVE_SPEED as int) == 0,
        0 <= fore(ts[a], dir) <= W - TILE_SIZE,
        0 <= fore(ts[b], dir) <= W - TILE_SIZE,
{
    lemma_along(ts[a], ts[b], dir);
    lemma_along(ts[b], ts[a], dir);
    if -TILE_SIZE < side(ts[a], dir) - side(ts[b], dir) < TILE_SIZE {
        lemma_same_lane(side(ts[a], dir), side(ts[b], dir));
    }
}

/// A cell corner is a point of the lattice on the grid, and the other way
/// round.
pub proof fn lemma_cell_corner(x: int, y: int)
    ensures
        is_cell_corner(x, y) <==> (on_lattice(x) && on_lattice(y) && 0 <= x <= W - TILE_SIZE && 0
            <= y <= W - TILE_SIZE),
{
    if is_cell_corner(x, y) {
        let (col, row) = choose|col: int, row: int|
            0 <= col < COLUMNS && 0 <= row < ROWS && x == #[trigger] cell_x(col) && y
                == #[trigger] cell_y(row);
        assert(x == col * 500 && y == row * 500);
    }
    if on_lattice(x) && on_lattice(y) && 0 <= x <= W - TILE_SIZE && 0 <= y <= W - TILE_SIZE {
        let col = x / 500;
        let row = y / 500;
        assert(x == cell_x(col) && y == cell_y(row));
        assert(0 <= col < COLUMNS && 0 <= row < ROWS);
    }
}

/// Tiles on different cells do not overlap.
pub proof fn lemma_cells_apart(a: Tile, b: Tile)
    requires
        is_cell_corner(a.x, a.y),
        is_cell_corner(b.x, b.y),
        !a.same_spot(b),
    ensures
        !a.overlaps(b),
{
    lemma_cell_corner(a.x, a.y);
    lemma_cell_corner(b.x, b.y);
    if a.x != b.x {
        if -TILE_SIZE < a.x - b.x < TILE_SIZE {
            lemma_same_lane(a.x, b.x);
        }
    } else {
        if -TILE_SIZE < a.y - b.y < TILE_SIZE {
            lemma_same_lane(a.y, b.y);
        }
    }
}

/// Cell corners lie a tile apart.
pub proof fn lemma_lattice_steps(a: int, b: int)
    requires
        on_lattice(b),
        a == b - TILE_SIZE || a == W - TILE_SIZE,
    ensures
        on_lattice(a),
{
}

/// The last raster position before the edge is a cell corner.
pub proof fn lemma_last_position(a: int)
    requires
        a % (MOVE_SPEED as int) == 0,
        a <= W - TILE_SIZE,
        a + MOVE_SPEED > W - TILE_SIZE,
    ensures
        a == W - TILE_SIZE,
{
}

/// A point of the lattice mirrored at the middle of the grid is a point of the
/// lattice.
pub proof fn lemma_lattice_mirror(a: int)
    requires
        on_lattice(W - TILE_SIZE - a),
    ensures
        on_lattice(a),
{
}

/// A proper tile that stands on the lattice along and across the direction
/// of travel stands on a cell.
pub proof fn lemma_lattice_spot(t: Tile, dir: Heading)
    requires
        !(dir is Idle),
        t.wf(),
        on_lattice(fore(t, dir)),
        on_lattice(side(t, dir)),
    ensures
        is_cell_corner(t.x, t.y),
{
    match dir {
        Heading::Left => {
            lemma_lattice_mirror(t.x);
        },
        Heading::Up => {
            lemma_lattice_mirror(t.y);
        },
        _ => {},
    }
    lemma_cell_corner(t.x, t.y);
}

/// Of two tiles of one value on one spot, the second has to stop if the
/// first has to.
pub proof fn lemma_twin_stops(ts: Seq<Tile>, dir: Heading, i: int, j: int)
    requires
        0 <= i < ts.len(),
        0 <= j < ts.len(),
        same_body(ts[i], ts[j]),
        arrived(ts, dir, i),
    ensures
        arrived(ts, dir, j),
{
    if in_grid(ts[i].probe_along(dir)) {
        if exists|k: int|
            #[trigger] in_way(ts, dir, i, k) && arrived(ts, dir, k) && ts[k].val != ts[i].val {
            let k = choose|k: int|
                #[trigger] in_way(ts, dir, i, k) && arrived(ts, dir, k) && ts[k].val != ts[i].val;
            assert(in_way(ts, dir, j, k));
        } else {
            let (k, m) = choose|k: int, m: int|
                k != m && #[trigger] in_way(ts, dir, i, k) && arrived(ts, dir, k)
                    && #[trigger] in_way(ts, dir, i, m) && arrived(ts, dir, m);
            assert(in_way(ts, dir, j, k));
            assert(in_way(ts, dir, j, m));
        }
    }
}

/// Two tiles of one value on one spot have to stop together.
pub proof fn lemma_twins(ts: Seq<Tile>, dir: Heading, i: int, j: int)
    requires
        0 <= i < ts.len(),
        0 <= j < ts.len(),
        same_body(ts[i], ts[j]),
    ensures
        arrived(ts, dir, i) == arrived(ts, dir, j),
{
    if arrived(ts, dir, i) {
        lemma_twin_stops(ts, dir, i, j);
    }
    if arrived(ts, dir, j) {
        lemma_twin_stops(ts, dir, j, i);
    }
}

/// A tile that has to stop although its probe point lies on the grid has a
/// tile ahead of it that has to stop.
pub proof fn lemma_has_blocker(ts: Seq<Tile>, dir: Heading, i: int) -> (k: int)
    requires
        arrived(ts, dir, i),
        in_grid(ts[i].probe_along(dir)),
    ensures
        in_way(ts, dir, i, k),
        arrived(ts, dir, k),
{
    if exists|k: int|
        #[trigger] in_way(ts, dir, i, k) && arrived(ts, dir, k) && ts[k].val != ts[i].val {
        choose|k: int|
            #[trigger] in_way(ts, dir, i, k) && arrived(ts, dir, k) && ts[k].val != ts[i].val
    } else {
        let (k, m) = choose|k: int, m: int|
            k != m && #[trigger] in_way(ts, dir, i, k) && arrived(ts, dir, k)
                && #[trigger] in_way(ts, dir, i, m) && arrived(ts, dir, m);
        k
    }
}

/// What the order of the board says of one of its tiles.
pub proof fn lemma_tile_in_order(tiles: Seq<Tile>, dir: Heading, i: int)
    requires
        orderly(tiles, dir),
        0 <= i < tiles.len(),
    ensures
        !(dir is Idle),
        tiles[i].wf(),
        tiles[i].heading == dir,
        on_lattice(side(tiles[i], dir)),
        tiles[i].arrived <==> arrived(tiles, dir, i),
        tiles[i].arrived ==> on_lattice(fore(tiles[i], dir)),
{
    reveal(orderly);
}

/// A board whose tiles are in order is on the move.
pub proof fn lemma_order_is_motion(tiles: Seq<Tile>, dir: Heading)
    requires
        orderly(tiles, dir),
    ensures
        !(dir is Idle),
{
    reveal(orderly);
}

/// A board whose tiles are in order is on the move, and a tile of it that
/// has not stopped has room for a step ahead of it.
pub proof fn lemma_mover_has_room(tiles: Seq<Tile>, dir: Heading, i: int)
    requires
        orderly(tiles, dir),
        0 <= i < tiles.len(),
        !tiles[i].arrived,
    ensures
        !(dir is Idle),
        headway(tiles[i], dir) >= TILE_SIZE + MOVE_SPEED,
{
    reveal(orderly);
    assert(tiles[i].wf());
    assert(!arrived(tiles, dir, i));
    lemma_along(tiles[i], tiles[i], dir);
}

/// When the last tile of a board in order has stopped, every tile stands on a
/// cell.
pub proof fn lemma_stopped_on_cells(tiles: Seq<Tile>, dir: Heading, i: int)
    requires
        orderly(tiles, dir),
        0 <= i < tiles.len(),
        tiles[i].arrived,
    ensures
        is_cell_corner(tiles[i].x, tiles[i].y),
{
    lemma_tile_in_order(tiles, dir, i);
    lemma_lattice_spot(tiles[i], dir);
}

} // verus!
