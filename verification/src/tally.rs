//! What a frame does to the number of tiles on the board and to the sum of
//! their values: nothing, until a move ends; then every pair of tiles on one
//! cell becomes one tile, and one tile appears.

use crate::board::{all_stopped, lemma_moved_in_order, lemma_spawn_is_tile, Board};
use crate::keys::KeyStates;
use crate::lanes::orderly;
use crate::merge::{
    lemma_merged_count, lemma_total_by_values, lemma_total_push, settled, total_value, twins,
};
use crate::order::{
    lemma_settles_at_rest, lemma_settling_keeps_total, lemma_settling_tile_by_tile,
};
use crate::packed::lemma_packed_board_merges;
use crate::room::{lemma_room_at_rest, CELLS};
use crate::tile::{Tile, MAX_TILE_VALUE};
use vstd::prelude::*;

verus! {

/// A frame in which a move ends finds room for a tile to appear: a pair that
/// merges leaves a cell to spare, and on a board without a cell to spare no
/// move ends without a merge.
pub proof fn lemma_settling_finds_room(b: Board, keys: KeyStates)
    requires
        b.wf(),
        b.settles(keys),
    ensures
        b.moved(keys).merged().has_room(),
{
    lemma_moved_values(b, keys);
    lemma_moved_in_order(b, keys);
    let steered = b.steered(keys);
    let moved = b.moved(keys);
    lemma_merged_count(moved.tiles);
    lemma_settles_at_rest(moved.tiles, moved.dir);
    lemma_room_at_rest(moved.merged().tiles);
    if b.tiles.len() >= CELLS {
        assert(!all_stopped(steered.tiles));
        lemma_packed_board_merges(steered.tiles, steered.dir);
    }
}

/// The motion of a frame leaves every tile its value.
pub proof fn lemma_moved_values(b: Board, keys: KeyStates)
    ensures
        b.moved(keys).tiles.len() == b.tiles.len(),
        forall|k: int|
            0 <= k < b.tiles.len() ==> (#[trigger] b.moved(keys).tiles[k]).val == b.tiles[k].val,
        total_value(b.moved(keys).tiles) == total_value(b.tiles),
{
    let steered = b.steered(keys);
    assert(steered.tiles.len() == b.tiles.len());
    assert forall|k: int| 0 <= k < b.tiles.len() implies (#[trigger] steered.tiles[k]).val
        == b.tiles[k].val by {}
    let moved = b.moved(keys);
    assert(moved.tiles.len() == b.tiles.len());
    assert forall|k: int| 0 <= k < b.tiles.len() implies (#[trigger] moved.tiles[k]).val
        == b.tiles[k].val by {
        assert(steered.tiles[k].val == b.tiles[k].val);
    }
    lemma_total_by_values(moved.tiles, b.tiles);
}

/// The number of tiles after a frame. A frame in which no move ends leaves
/// it alone. A frame in which a move ends takes one tile off the board for
/// every tile that a later one overlaps, which is one for every pair of tiles
/// on one cell ([`crate::order::lemma_pairs_at_the_end`]), and lets one tile
/// appear.
pub proof fn lemma_step_count(b: Board, keys: KeyStates, next: Board)
    requires
        b.wf(),
        b.step_result(keys, next),
    ensures
        !b.settles(keys) ==> next.tiles.len() == b.tiles.len(),
        b.settles(keys) ==> next.tiles.len() == b.tiles.len() - twins(b.moved(keys).tiles) + 1,
        0 <= twins(b.moved(keys).tiles) <= b.tiles.len(),
{
    lemma_moved_values(b, keys);
    lemma_merged_count(b.moved(keys).tiles);
    if b.settles(keys) {
        lemma_settling_finds_room(b, keys);
    }
}

/// The sum of the values after a frame, on a board on which no tile holds the
/// greatest value: the sum before it, and, where a move ends, the value of
/// the tile that has appeared, a 2 or a 4. Merging changes no sum: it puts
/// the sum of two tiles on one.
pub proof fn lemma_step_total(b: Board, keys: KeyStates, next: Board)
    requires
        b.wf(),
        b.step_result(keys, next),
        forall|k: int| 0 <= k < b.tiles.len() ==> (#[trigger] b.tiles[k]).val < MAX_TILE_VALUE,
    ensures
        !b.settles(keys) ==> total_value(next.tiles) == total_value(b.tiles),
        b.settles(keys) ==> next.tiles.len() > 0 && total_value(next.tiles) == total_value(
            b.tiles,
        ) + next.tiles.last().val && (next.tiles.last().val == 2 || next.tiles.last().val == 4),
{
    lemma_moved_values(b, keys);
    lemma_moved_in_order(b, keys);
    let moved = b.moved(keys);
    if b.settles(keys) {
        lemma_settling_finds_room(b, keys);
        assert(all_stopped(moved.tiles));
        assert forall|k: int| 0 <= k < moved.tiles.len() implies (#[trigger] moved.tiles[k]).val
            < MAX_TILE_VALUE by {
            assert(b.tiles[k].val < MAX_TILE_VALUE);
        }
        lemma_settling_keeps_total(moved.tiles, moved.dir);
        let merged = moved.merged();
        let t = choose|t: Tile| #[trigger]
            merged.can_spawn(t) && next == merged.with_tile(t).refreshed();
        let more = merged.with_tile(t);
        lemma_spawn_is_tile(merged, t);
        lemma_total_push(merged.tiles, t);
        assert(next.tiles.len() == more.tiles.len());
        assert forall|k: int| 0 <= k < next.tiles.len() implies (#[trigger] next.tiles[k]).val
            == more.tiles[k].val by {}
        lemma_total_by_values(next.tiles, more.tiles);
        assert(next.tiles.last().val == more.tiles[more.tiles.len() - 1].val);
    }
}

/// The tiles after the merging at the end of a move, tile by tile: of every
/// pair of tiles on one cell the earlier one is gone and the later one holds
/// twice its value where it stood, and every other tile is as it was. What
/// that says of each pair is [`crate::order::lemma_settling_tile_by_tile`].
pub proof fn lemma_step_tiles(b: Board, keys: KeyStates)
    requires
        b.wf(),
        b.settles(keys),
    ensures
        b.moved(keys).merged().tiles == settled(b.moved(keys).tiles),
        orderly(b.moved(keys).tiles, b.moved(keys).dir),
        all_stopped(b.moved(keys).tiles),
{
    lemma_moved_in_order(b, keys);
    let moved = b.moved(keys);
    lemma_settling_tile_by_tile(moved.tiles, moved.dir);
}

} // verus!
