//! The board: all the tiles, the direction of the move in progress, and what
//! one frame does to them.
//!
//! [`Board`] is the mathematical view of [`crate::tile_map::TileMap`], the
//! board that runs. What a frame does is [`Board::step_result`]; what every
//! board satisfies between frames is [`Board::wf`].

use crate::arrival::arrived;
use crate::grid::{
    cell_x, cell_y, in_grid, is_cell_corner, Heading, COLUMNS, H, ROWS, TILE_SIZE, W,
};
use crate::keys::KeyStates;
use crate::lanes::{at_rest, lemma_cells_apart, lemma_order_is_motion, orderly};
use crate::merge::{first_overlap, lemma_overlap_from, merge_into, merged, merged_from};
use crate::room::{lemma_room_at_rest, CELLS};
use crate::order::{
    lemma_launch_in_order, lemma_refresh_at_rest, lemma_settles_at_rest, lemma_spawn_at_rest,
    lemma_step_keeps_order,
};
use crate::tile::{lemma_doubled_is_tile_value, Tile};
use vstd::arithmetic::power2::{lemma2_to64, pow2};
use vstd::prelude::*;

verus! {

/// Whether every tile of `tiles` has stopped.
pub open spec fn all_stopped(tiles: Seq<Tile>) -> bool {
    forall|i: int| 0 <= i < tiles.len() ==> (#[trigger] tiles[i]).arrived
}

/// The tiles set in motion towards `dir`.
pub open spec fn launched_all(tiles: Seq<Tile>, dir: Heading) -> Seq<Tile> {
    tiles.map_values(|t: Tile| t.launched(dir))
}

/// The tiles one frame later: each moving tile has covered one step.
pub open spec fn advanced_all(tiles: Seq<Tile>) -> Seq<Tile> {
    tiles.map_values(|t: Tile| t.advanced())
}

/// The tiles after arrival has been looked at again: a tile that has to stop
/// is marked as stopped, and a tile that was stopped stays so.
pub open spec fn refreshed_all(tiles: Seq<Tile>, dir: Heading) -> Seq<Tile> {
    Seq::new(
        tiles.len(),
        |i: int|
            if arrived(tiles, dir, i) {
                Tile { arrived: true, ..tiles[i] }
            } else {
                tiles[i]
            },
    )
}

/// Whether no tile of `tiles` sits exactly on the cell in column `col` and
/// row `row`.
pub open spec fn cell_free(tiles: Seq<Tile>, col: int, row: int) -> bool {
    forall|i: int|
        0 <= i < tiles.len() ==> !((#[trigger] tiles[i]).x == cell_x(col) && tiles[i].y == cell_y(
            row,
        ))
}

/// Whether some cell of the grid has no tile of `tiles` sitting exactly on it.
pub open spec fn room_on(tiles: Seq<Tile>) -> bool {
    exists|col: int, row: int|
        0 <= col < COLUMNS && 0 <= row < ROWS && #[trigger] cell_free(tiles, col, row)
}

/// Whether `t` can be the tile that appears among `tiles` after a move
/// towards `dir`: a stopped 2 or 4 headed for `dir`, on a cell on which no
/// tile sits.
pub open spec fn spawnable(tiles: Seq<Tile>, dir: Heading, t: Tile) -> bool {
    &&& t.val == 2 || t.val == 4
    &&& t.heading == dir
    &&& t.arrived
    &&& exists|col: int, row: int|
        0 <= col < COLUMNS && 0 <= row < ROWS && #[trigger] cell_free(tiles, col, row) && t.x
            == cell_x(col) && t.y == cell_y(row)
}

/// The mathematical view of the board.
pub struct Board {
    /// The tiles, in the order in which merging scans them.
    pub tiles: Seq<Tile>,
    /// The direction of the move in progress, or of the last one; idle before
    /// the first move.
    pub dir: Heading,
    /// Whether the board was at rest when it was last looked at.
    pub settled: bool,
}

impl Board {
    /// Every tile is a proper tile and is headed where the board is.
    pub open spec fn sound(self) -> bool {
        forall|i: int|
            0 <= i < self.tiles.len() ==> (#[trigger] self.tiles[i]).wf() && self.tiles[i].heading
                == self.dir
    }

    /// Every tile has stopped on a cell of the grid, and no two tiles share
    /// a cell.
    pub open spec fn resting(self) -> bool {
        at_rest(self.tiles)
    }

    /// The part of the invariant that holds at every moment of a frame: the
    /// board is sound and holds no more tiles than the grid has cells, a tile
    /// that has not stopped has its probe point on the grid, and a board that
    /// counts as settled is at rest.
    pub open spec fn coherent(self) -> bool {
        &&& self.sound()
        &&& self.tiles.len() <= CELLS
        &&& forall|i: int|
            0 <= i < self.tiles.len() ==> (#[trigger] self.tiles[i]).arrived || in_grid(
                self.tiles[i].probe(),
            )
        &&& self.settled ==> self.at_ease()
    }

    /// The invariant of the board between frames. The board is coherent.
    /// Once every tile has stopped, every tile stands on a cell of its own;
    /// until then the tiles are in order ([`orderly`]).
    pub open spec fn wf(self) -> bool {
        &&& self.coherent()
        &&& if all_stopped(self.tiles) {
            self.resting()
        } else {
            orderly(self.tiles, self.dir)
        }
    }

    /// Whether this is a board on which a game begins: no move has begun, and
    /// two tiles, each a 2 or a 4, rest on two different cells.
    pub open spec fn fresh(self) -> bool {
        &&& self.wf()
        &&& self.dir is Idle
        &&& self.settled
        &&& self.tiles.len() == 2
        &&& spawnable(Seq::<Tile>::empty(), Heading::Idle, self.tiles[0])
        &&& spawnable(seq![self.tiles[0]], Heading::Idle, self.tiles[1])
        &&& !self.tiles[0].same_spot(self.tiles[1])
    }

    /// Whether the board is at rest: every tile has stopped, or no move has
    /// begun yet.
    pub open spec fn at_ease(self) -> bool {
        all_stopped(self.tiles) || self.dir is Idle
    }

    /// The board with arrival looked at again.
    pub open spec fn refreshed(self) -> Board {
        let tiles = refreshed_all(self.tiles, self.dir);
        Board { tiles, dir: self.dir, settled: all_stopped(tiles) }
    }

    /// The board at the start of a move towards `dir`.
    pub open spec fn launched(self, dir: Heading) -> Board {
        Board { tiles: launched_all(self.tiles, dir), dir, settled: self.settled }.refreshed()
    }

    /// The board after the player's keys have been looked at: a board at rest
    /// starts the move that is asked for, if any.
    pub open spec fn steered(self, keys: KeyStates) -> Board {
        if self.at_ease() && keys.moves() {
            self.launched(keys.asked())
        } else {
            Board { settled: self.at_ease(), ..self }
        }
    }

    /// The board after its moving tiles have covered one step.
    pub open spec fn advanced(self) -> Board {
        Board { tiles: advanced_all(self.tiles), dir: self.dir, settled: self.settled }.refreshed()
    }

    /// The board after the motion of one frame, before anything merges.
    pub open spec fn moved(self, keys: KeyStates) -> Board {
        let steered = self.steered(keys);
        if steered.settled {
            steered
        } else {
            steered.advanced()
        }
    }

    /// Whether a move comes to its end in this frame.
    pub open spec fn settles(self, keys: KeyStates) -> bool {
        !self.steered(keys).settled && self.moved(keys).settled
    }

    /// The board after its overlapping tiles have merged.
    pub open spec fn merged(self) -> Board {
        Board { tiles: merged(self.tiles), dir: self.dir, settled: self.settled }
    }

    /// Whether some cell of the grid has no tile sitting exactly on it.
    pub open spec fn has_room(self) -> bool {
        room_on(self.tiles)
    }

    /// Whether every cell of the grid has a tile sitting exactly on it.
    pub open spec fn full(self) -> bool {
        !self.has_room()
    }

    /// Whether `t` can be the tile that appears after a move.
    pub open spec fn can_spawn(self, t: Tile) -> bool {
        spawnable(self.tiles, self.dir, t)
    }

    /// The board with `t` as its last tile.
    pub open spec fn with_tile(self, t: Tile) -> Board {
        Board { tiles: self.tiles.push(t), dir: self.dir, settled: self.settled }
    }

    /// Whether `next` can be the board one frame after `self` under `keys`.
    ///
    /// The frame's motion is a function of the board, and so is the merging
    /// that follows the end of a move. Only the tile that appears then is a
    /// matter of chance: it is any tile that [`Board::can_spawn`] allows, and
    /// none at all on a board without room.
    pub open spec fn step_result(self, keys: KeyStates, next: Board) -> bool {
        if self.settles(keys) {
            let merged = self.moved(keys).merged();
            if merged.has_room() {
                exists|t: Tile| #[trigger]
                    merged.can_spawn(t) && next == merged.with_tile(t).refreshed()
            } else {
                next == merged.refreshed()
            }
        } else {
            next == self.moved(keys)
        }
    }

    /// The greatest value on the board, and zero on an empty board.
    pub open spec fn is_score(self, score: int) -> bool {
        if self.tiles.len() == 0 {
            score == 0
        } else {
            &&& exists|i: int| 0 <= i < self.tiles.len() && (#[trigger] self.tiles[i]).val == score
            &&& forall|i: int| 0 <= i < self.tiles.len() ==> (#[trigger] self.tiles[i]).val <= score
        }
    }

    /// Whether the game is over: the board is full and every tile has stopped.
    pub open spec fn game_over(self) -> bool {
        self.full() && all_stopped(self.tiles)
    }
}

/// Looking at arrival again leaves every tile where and what it was, and
/// leaves the board coherent.
pub proof fn lemma_refreshed_coherent(b: Board)
    requires
        b.sound(),
        b.tiles.len() <= CELLS,
        !(b.dir is Idle),
    ensures
        b.refreshed().coherent(),
        b.refreshed().tiles.len() == b.tiles.len(),
        all_stopped(b.tiles) ==> b.refreshed().settled,
{
    let after = b.refreshed();
    assert forall|i: int| 0 <= i < after.tiles.len() implies (#[trigger] after.tiles[i]).wf()
        && after.tiles[i].heading == after.dir && (after.tiles[i].arrived || in_grid(
        after.tiles[i].probe(),
    )) by {
        assert(b.tiles[i].wf());
    }
    if all_stopped(b.tiles) {
        assert forall|i: int| 0 <= i < after.tiles.len() implies (
        #[trigger] after.tiles[i]).arrived by {
            assert(b.tiles[i].arrived);
        }
    }
}

/// A move that begins leaves the board coherent.
pub proof fn lemma_launched_coherent(b: Board, dir: Heading)
    requires
        b.sound(),
        b.tiles.len() <= CELLS,
        !(dir is Idle),
    ensures
        b.launched(dir).coherent(),
        b.launched(dir).dir == dir,
        b.launched(dir).tiles.len() == b.tiles.len(),
{
    let set_off = Board { tiles: launched_all(b.tiles, dir), dir, settled: b.settled };
    assert forall|i: int| 0 <= i < set_off.tiles.len() implies (#[trigger] set_off.tiles[i]).wf()
        && set_off.tiles[i].heading == dir by {
        assert(b.tiles[i].wf());
    }
    lemma_refreshed_coherent(set_off);
}

/// A step of the moving tiles leaves the board coherent: no tile leaves the
/// grid or the raster.
pub proof fn lemma_advanced_coherent(b: Board)
    requires
        b.coherent(),
        !(b.dir is Idle),
    ensures
        b.advanced().coherent(),
        b.advanced().dir == b.dir,
        b.advanced().tiles.len() == b.tiles.len(),
{
    let stepped = Board { tiles: advanced_all(b.tiles), dir: b.dir, settled: b.settled };
    assert forall|i: int| 0 <= i < stepped.tiles.len() implies (#[trigger] stepped.tiles[i]).wf()
        && stepped.tiles[i].heading == b.dir by {
        let t = b.tiles[i];
        assert(t.wf() && t.heading == b.dir);
        assert(t.arrived || in_grid(t.probe()));
        assert(stepped.tiles[i] == t.advanced());
    }
    lemma_refreshed_coherent(stepped);
}

/// Merging keeps stopped proper tiles with one heading what they are.
pub proof fn lemma_merged_from_sound(tiles: Seq<Tile>, dir: Heading, i: int)
    requires
        0 <= i,
        forall|k: int|
            0 <= k < tiles.len() ==> (#[trigger] tiles[k]).wf() && tiles[k].heading == dir
                && tiles[k].arrived,
    ensures
        forall|k: int|
            0 <= k < merged_from(tiles, i).len() ==> (#[trigger] merged_from(tiles, i)[k]).wf()
                && merged_from(tiles, i)[k].heading == dir && merged_from(tiles, i)[k].arrived,
        tiles.len() > 0 ==> merged_from(tiles, i).len() > 0,
        merged_from(tiles, i).len() <= tiles.len(),
    decreases tiles.len() - i,
{
    if i < tiles.len() {
        let j = first_overlap(tiles, i);
        lemma_overlap_from(tiles, i, 0);
        if 0 <= j < tiles.len() {
            let next = merge_into(tiles, i, j);
            let grown = tiles.update(j, tiles[j].grown());
            assert forall|k: int| 0 <= k < next.len() implies (#[trigger] next[k]).wf()
                && next[k].heading == dir && next[k].arrived by {
                let m = if k < i {
                    k
                } else {
                    k + 1
                };
                assert(next[k] == grown[m]);
                assert(tiles[m].wf());
                lemma_doubled_is_tile_value(tiles[j].val);
            }
            lemma_merged_from_sound(next, dir, i);
        } else {
            lemma_merged_from_sound(tiles, dir, i + 1);
        }
    }
}

/// The motion of one frame leaves the board coherent, and in order as long as
/// a tile still moves.
pub proof fn lemma_moved_in_order(b: Board, keys: KeyStates)
    requires
        b.wf(),
    ensures
        b.steered(keys).wf(),
        b.moved(keys).coherent(),
        b.moved(keys).tiles.len() == b.tiles.len(),
        b.steered(keys).settled ==> b.moved(keys) == b.steered(keys),
        !b.steered(keys).settled ==> !(b.moved(keys).dir is Idle) && orderly(
            b.moved(keys).tiles,
            b.moved(keys).dir,
        ) && b.moved(keys).settled == all_stopped(b.moved(keys).tiles),
{
    let steered = b.steered(keys);
    if b.at_ease() && keys.moves() {
        lemma_launched_coherent(b, keys.asked());
        if !all_stopped(b.tiles) {
            lemma_order_is_motion(b.tiles, b.dir);
        }
        assert(at_rest(b.tiles));
        assert forall|i: int| 0 <= i < b.tiles.len() implies (#[trigger] b.tiles[i]).wf() by {}
        lemma_launch_in_order(b.tiles, keys.asked());
    }
    assert(steered.wf());
    if !steered.settled {
        assert(!all_stopped(steered.tiles));
        lemma_order_is_motion(steered.tiles, steered.dir);
        lemma_advanced_coherent(steered);
        lemma_step_keeps_order(steered.tiles, steered.dir);
    }
}

/// One frame leaves the board in order. In particular no tile is ever found
/// off the grid, and a board that has come to rest has every tile on a cell
/// of its own.
pub proof fn lemma_step_keeps_wf(b: Board, keys: KeyStates, next: Board)
    requires
        b.wf(),
        b.step_result(keys, next),
    ensures
        next.wf(),
        b.settles(keys) ==> next.settled,
        b.tiles.len() > 0 ==> next.tiles.len() > 0,
{
    lemma_moved_in_order(b, keys);
    let moved = b.moved(keys);
    if b.settles(keys) {
        assert(all_stopped(moved.tiles));
        lemma_merged_from_sound(moved.tiles, moved.dir, 0);
        lemma_settles_at_rest(moved.tiles, moved.dir);
        let merged = moved.merged();
        if merged.has_room() {
            let t = choose|t: Tile| #[trigger]
                merged.can_spawn(t) && next == merged.with_tile(t).refreshed();
            let grown = merged.with_tile(t);
            lemma_spawn_is_tile(merged, t);
            lemma_room_at_rest(merged.tiles);
            lemma_spawn_at_rest(merged.tiles, merged.dir, t);
            assert forall|i: int| 0 <= i < grown.tiles.len() implies (#[trigger] grown.tiles[i]).wf()
                && grown.tiles[i].heading == grown.dir && grown.tiles[i].arrived by {
                if i < merged.tiles.len() {
                    assert(grown.tiles[i] == merged.tiles[i]);
                }
            }
            lemma_refreshed_coherent(grown);
        } else {
            lemma_refreshed_coherent(merged);
            lemma_refresh_at_rest(merged.tiles, merged.dir);
        }
    }
}

/// A tile that can appear on the board is a proper tile.
pub proof fn lemma_spawn_is_tile(b: Board, t: Tile)
    requires
        b.can_spawn(t),
    ensures
        t.wf(),
        is_cell_corner(t.x, t.y),
{
    lemma2_to64();
    assert(t.val == pow2(1) || t.val == pow2(2));
}

/// On a board that is in order every tile lies on the grid with all of its
/// square.
pub proof fn lemma_tiles_on_grid(b: Board, i: int)
    requires
        b.wf(),
        0 <= i < b.tiles.len(),
    ensures
        0 <= b.tiles[i].x,
        b.tiles[i].x + TILE_SIZE <= W,
        0 <= b.tiles[i].y,
        b.tiles[i].y + TILE_SIZE <= H,
{
    assert(b.tiles[i].wf());
}

/// On a board that is in order and on which every tile has stopped, no two
/// tiles share a cell, and none lies between cells.
pub proof fn lemma_rest_on_cells(b: Board, i: int, j: int)
    requires
        b.wf(),
        all_stopped(b.tiles),
        0 <= i < b.tiles.len(),
        0 <= j < b.tiles.len(),
        i != j,
    ensures
        is_cell_corner(b.tiles[i].x, b.tiles[i].y),
        !b.tiles[i].same_spot(b.tiles[j]),
        !b.tiles[i].overlaps(b.tiles[j]),
{
    assert(is_cell_corner(b.tiles[j].x, b.tiles[j].y));
    lemma_cells_apart(b.tiles[i], b.tiles[j]);
}

} // verus!
