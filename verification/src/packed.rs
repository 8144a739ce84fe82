//! The packed board: on a board that holds a tile on every cell nothing can
//! move except into a tile of its own value. A move on such a board therefore
//! ends with a merge, and the board has room again for the tile that appears.

use crate::arrival::arrived;
use crate::board::{advanced_all, all_stopped, cell_free, refreshed_all, room_on};
use crate::grid::{cell_x, cell_y, is_cell_corner, Heading, COLUMNS, MOVE_SPEED, ROWS, TILE_SIZE};
use crate::lanes::{
    at_rest, fore, lemma_along, lemma_cell_corner, lemma_has_blocker, lemma_in_lanes,
    lemma_lattice_mirror, lemma_same_lane, lemma_stopped_on_cells, lemma_tile_in_order,
    on_lattice, orderly, side,
};
use crate::merge::{has_later_twin, lemma_twins_bounds, twins, twins_from};
use crate::order::lemma_step_keeps_order;
use crate::room::{lemma_room_at_rest, CELLS};
use crate::tile::Tile;
use vstd::prelude::*;

verus! {

/// The corner of the cell one tile behind `t` on its way towards `dir`.
pub open spec fn behind(t: Tile, dir: Heading) -> (int, int) {
    match dir {
        Heading::Idle => (t.x, t.y),
        Heading::Up => (t.x, t.y + TILE_SIZE),
        Heading::Down => (t.x, t.y - TILE_SIZE),
        Heading::Left => (t.x + TILE_SIZE, t.y),
        Heading::Right => (t.x - TILE_SIZE, t.y),
    }
}

/// A tile that stands on a cell and is not the last of its lane has a cell
/// behind it, and what stands there stands one tile behind it in its lane.
proof fn lemma_cell_behind(t: Tile, u: Tile, dir: Heading)
    requires
        !(dir is Idle),
        t.wf(),
        on_lattice(fore(t, dir)),
        on_lattice(side(t, dir)),
        fore(t, dir) >= TILE_SIZE,
    ensures
        is_cell_corner(behind(t, dir).0, behind(t, dir).1),
        u.x == behind(t, dir).0 && u.y == behind(t, dir).1 ==> fore(u, dir) == fore(t, dir)
            - TILE_SIZE && side(u, dir) == side(t, dir),
{
    match dir {
        Heading::Left => {
            lemma_lattice_mirror(t.x);
        },
        Heading::Up => {
            lemma_lattice_mirror(t.y);
        },
        _ => {},
    }
    lemma_cell_corner(t.x, t.y);
    lemma_cell_corner(behind(t, dir).0, behind(t, dir).1);
}

/// Where no tile from index `i` on has a later twin counted, none has one.
proof fn lemma_no_twins(tiles: Seq<Tile>, i: int, k: int)
    requires
        0 <= i <= k < tiles.len(),
        twins_from(tiles, i) == 0,
    ensures
        !has_later_twin(tiles, k),
    decreases tiles.len() - i,
{
    lemma_twins_bounds(tiles, i + 1);
    if i < k {
        lemma_no_twins(tiles, i + 1, k);
    }
}

/// What holds after the step that stops the last tile of a packed board on
/// which nothing overlaps.
pub open spec fn packed_apart(before: Seq<Tile>, dir: Heading) -> bool {
    let after = refreshed_all(advanced_all(before), dir);
    &&& orderly(before, dir)
    &&& orderly(after, dir)
    &&& all_stopped(after)
    &&& !room_on(after)
    &&& forall|a: int, b: int|
        0 <= a < after.len() && 0 <= b < after.len() && a != b ==> !(#[trigger] after[a]).overlaps(
            #[trigger] after[b],
        )
}

/// On a packed board on which nothing overlaps after the step, no tile has
/// moved in that step. A tile that has moved leaves the cell behind it to a
/// tile that has moved too, and so on down to the last tile of the lane,
/// which has nowhere to come from; and a tile that has not moved had a
/// stopped tile right ahead of it, which a tile that has moved is not.
proof fn lemma_nothing_moved(before: Seq<Tile>, dir: Heading, i: int)
    requires
        packed_apart(before, dir),
        0 <= i < before.len(),
    ensures
        before[i].arrived,
    decreases fore(refreshed_all(advanced_all(before), dir)[i], dir),
{
    if !before[i].arrived {
        let mid = advanced_all(before);
        let after = refreshed_all(mid, dir);
        assert(after.len() == before.len());
        lemma_tile_in_order(before, dir, i);
        lemma_tile_in_order(after, dir, i);
        assert(after[i].x == before[i].advanced().x && after[i].y == before[i].advanced().y);
        assert(!arrived(before, dir, i));
        lemma_along(before[i], before[i], dir);
        assert(fore(after[i], dir) == fore(before[i], dir) + MOVE_SPEED);
        assert(fore(after[i], dir) >= TILE_SIZE);
        let cell = behind(after[i], dir);
        lemma_cell_behind(after[i], after[i], dir);
        let (col, row) = choose|col: int, row: int|
            0 <= col < COLUMNS && 0 <= row < ROWS && cell.0 == #[trigger] cell_x(col) && cell.1
                == #[trigger] cell_y(row);
        assert(!cell_free(after, col, row));
        let q = choose|q: int|
            0 <= q < after.len() && (#[trigger] after[q]).x == cell_x(col) && after[q].y == cell_y(
                row,
            );
        lemma_cell_behind(after[i], after[q], dir);
        assert(fore(after[q], dir) == fore(after[i], dir) - TILE_SIZE);
        assert(q != i);
        lemma_nothing_moved(before, dir, q);
        lemma_tile_in_order(before, dir, q);
        lemma_tile_in_order(after, dir, q);
        assert(after[q].x == before[q].x && after[q].y == before[q].y);
        assert(arrived(before, dir, q));
        lemma_along(before[q], before[q], dir);
        let k = lemma_has_blocker(before, dir, q);
        lemma_tile_in_order(before, dir, k);
        lemma_tile_in_order(after, dir, k);
        assert(before[k].arrived);
        assert(after[k].x == before[k].x && after[k].y == before[k].y);
        lemma_in_lanes(before, dir, q, k);
        assert(fore(after[k], dir) == fore(before[k], dir));
        assert(fore(after[q], dir) == fore(before[q], dir));
        assert(fore(after[k], dir) - fore(after[q], dir) == TILE_SIZE) by {
            lemma_same_lane(fore(after[k], dir) - TILE_SIZE, fore(after[q], dir) + 0);
        }
        assert(k != i);
        lemma_in_lanes(after, dir, k, i);
        assert(after[k].overlaps(after[i]));
        assert(false);
    }
}

/// A move on a packed board ends with a merge: where the step that stops the
/// last tile leaves sixteen tiles, two of them overlap.
pub proof fn lemma_packed_board_merges(before: Seq<Tile>, dir: Heading)
    requires
        orderly(before, dir),
        !all_stopped(before),
        all_stopped(refreshed_all(advanced_all(before), dir)),
        before.len() >= CELLS,
    ensures
        twins(refreshed_all(advanced_all(before), dir)) >= 1,
{
    let after = refreshed_all(advanced_all(before), dir);
    lemma_step_keeps_order(before, dir);
    lemma_twins_bounds(after, 0);
    if twins(after) == 0 {
        assert forall|a: int, b: int|
            0 <= a < after.len() && 0 <= b < after.len() && a != b implies !(
        #[trigger] after[a]).overlaps(#[trigger] after[b]) by {
            if after[a].overlaps(after[b]) {
                assert(after[b].overlaps(after[a]));
                if a < b {
                    lemma_no_twins(after, 0, a);
                } else {
                    lemma_no_twins(after, 0, b);
                }
            }
        }
        assert forall|k: int| 0 <= k < after.len() implies (#[trigger] after[k]).arrived
            && is_cell_corner(after[k].x, after[k].y) by {
            lemma_stopped_on_cells(after, dir, k);
        }
        assert(at_rest(after));
        lemma_room_at_rest(after);
        let i = choose|i: int| 0 <= i < before.len() && !(#[trigger] before[i]).arrived;
        lemma_nothing_moved(before, dir, i);
        assert(false);
    }
}

} // verus!
