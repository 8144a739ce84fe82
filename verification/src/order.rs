//! Order is kept: a move that begins on a board at rest begins in order,
//! every step keeps the tiles in order, and when the last tile has stopped
//! and the tiles have merged, the board is at rest again, every tile on a
//! cell of its own.

use crate::arrival::{
    arrived, headway, in_way, lemma_arrival_by_bodies, lemma_arrival_stays, same_body,
};
use crate::board::{
    advanced_all, all_stopped, cell_free, launched_all, lemma_merged_from_sound, refreshed_all,
    spawnable,
};
use crate::grid::{
    cell_x, cell_y, in_grid, is_cell_corner, Heading, COLUMNS, MOVE_SPEED, ROWS, TILE_SIZE, W,
};
use crate::lanes::{
    at_rest, fore, lemma_along, lemma_cell_corner,
    lemma_cells_apart, lemma_has_blocker, lemma_in_lanes, lemma_last_position,
    lemma_lattice_steps, lemma_same_lane, lemma_stopped_on_cells, lemma_twins, on_lattice,
    orderly, side,
};
use crate::merge::{
    exclusive, first_overlap, has_earlier_twin, has_later_twin, has_twin_between, kept,
    lemma_merged_apart, lemma_merged_from_total, lemma_merged_is_settled, lemma_overlap_from,
    merge_into, merged, merged_from, pairs_match, settled, total_value,
};
use crate::tile::{Tile, MAX_TILE_VALUE};
use vstd::prelude::*;

verus! {

/// What one step does to a tile of a board in order: a tile that has stopped
/// stays, any other moves one step ahead in its lane and remains a proper
/// tile.
proof fn lemma_step_of_tile(tiles: Seq<Tile>, dir: Heading, i: int)
    requires
        orderly(tiles, dir),
        0 <= i < tiles.len(),
    ensures
        advanced_all(tiles).len() == tiles.len(),
        advanced_all(tiles)[i].wf(),
        advanced_all(tiles)[i].heading == dir,
        advanced_all(tiles)[i].val == tiles[i].val,
        advanced_all(tiles)[i].arrived == tiles[i].arrived,
        side(advanced_all(tiles)[i], dir) == side(tiles[i], dir),
        fore(advanced_all(tiles)[i], dir) == fore(tiles[i], dir) + if tiles[i].arrived {
            0int
        } else {
            MOVE_SPEED as int
        },
        tiles[i].arrived ==> same_body(tiles[i], advanced_all(tiles)[i]),
{
    reveal(orderly);
    let t = tiles[i];
    assert(t.wf() && t.heading == dir);
    assert(advanced_all(tiles)[i] == t.advanced());
    if !t.arrived {
        assert(!arrived(tiles, dir, i));
        assert(in_grid(t.probe_along(dir)));
    }
}

/// The gap between two tiles after a step, in numbers: where the tiles are
/// less than a tile apart afterwards, with the second one not behind, they
/// were so before, or they were exactly a tile apart and only the first has
/// moved; and where only the second has moved, it has reached the first.
proof fn lemma_gap_after_step(rear: int, front: int, rear_step: int, front_step: int)
    requires
        rear % (MOVE_SPEED as int) == 0,
        front % (MOVE_SPEED as int) == 0,
        rear_step == 0 || rear_step == MOVE_SPEED,
        front_step == 0 || front_step == MOVE_SPEED,
        0 <= (front + front_step) - (rear + rear_step) < TILE_SIZE,
    ensures
        -TILE_SIZE < front - rear < TILE_SIZE || (front - rear == TILE_SIZE && rear_step
            == MOVE_SPEED && front_step == 0),
        front < rear ==> front + front_step == rear + rear_step && front_step == MOVE_SPEED
            && rear_step == 0,
{
}

/// Two tiles that overlap after a step either overlapped before it, or the
/// rear one has just closed up on a front one that has stopped. Either way
/// they have the same value, and as long as the rear one has not reached the
/// front one, it was moving and the front one had stopped.
proof fn lemma_pair_after_step(tiles: Seq<Tile>, dir: Heading, i: int, j: int)
    requires
        orderly(tiles, dir),
        0 <= i < tiles.len(),
        0 <= j < tiles.len(),
        i != j,
        advanced_all(tiles)[i].overlaps(advanced_all(tiles)[j]),
        fore(advanced_all(tiles)[i], dir) <= fore(advanced_all(tiles)[j], dir),
    ensures
        tiles[i].val == tiles[j].val,
        side(tiles[i], dir) == side(tiles[j], dir),
        tiles[i].arrived || tiles[j].arrived,
        fore(advanced_all(tiles)[i], dir) < fore(advanced_all(tiles)[j], dir) ==> !tiles[i].arrived
            && tiles[j].arrived,
        tiles[i].overlaps(tiles[j]) || (!tiles[i].arrived && tiles[j].arrived && fore(
            tiles[j],
            dir,
        ) - fore(tiles[i], dir) == TILE_SIZE),
{
    reveal(orderly);
    let mid = advanced_all(tiles);
    lemma_step_of_tile(tiles, dir, i);
    lemma_step_of_tile(tiles, dir, j);
    lemma_in_lanes(tiles, dir, i, j);
    lemma_in_lanes(mid, dir, i, j);
    let rear = fore(tiles[i], dir);
    let front = fore(tiles[j], dir);
    let rear_step = fore(mid[i], dir) - rear;
    let front_step = fore(mid[j], dir) - front;
    assert(side(tiles[i], dir) == side(tiles[j], dir));
    lemma_gap_after_step(rear, front, rear_step, front_step);
    if tiles[i].overlaps(tiles[j]) {
        if rear <= front {
            assert(tiles[i].val == tiles[j].val && tiles[j].arrived);
            assert(tiles[i].arrived <==> rear == front);
        } else {
            assert(tiles[j].overlaps(tiles[i]));
            assert(tiles[j].val == tiles[i].val && tiles[i].arrived);
        }
    } else {
        assert(front - rear == TILE_SIZE);
        assert(!tiles[i].arrived && tiles[j].arrived);
        assert(!arrived(tiles, dir, i));
        assert(arrived(tiles, dir, j));
        assert(in_way(tiles, dir, i, j));
    }
}

/// Brings in everything the order of the board says about two of its tiles,
/// before the step and after it.
proof fn lemma_pair_facts(tiles: Seq<Tile>, dir: Heading, a: int, b: int)
    requires
        orderly(tiles, dir),
        0 <= a < tiles.len(),
        0 <= b < tiles.len(),
        a != b,
    ensures
        tiles[a].overlaps(tiles[b]) == tiles[b].overlaps(tiles[a]),
        advanced_all(tiles)[a].overlaps(advanced_all(tiles)[b]) == advanced_all(tiles)[b].overlaps(
            advanced_all(tiles)[a],
        ),
        tiles[a].overlaps(tiles[b]) <==> (-TILE_SIZE < fore(tiles[b], dir) - fore(tiles[a], dir)
            < TILE_SIZE && side(tiles[a], dir) == side(tiles[b], dir)),
        advanced_all(tiles)[a].overlaps(advanced_all(tiles)[b]) <==> (-TILE_SIZE < fore(
            advanced_all(tiles)[b],
            dir,
        ) - fore(advanced_all(tiles)[a], dir) < TILE_SIZE && side(tiles[a], dir) == side(
            tiles[b],
            dir,
        )),
        in_way(tiles, dir, a, b) <==> (0 < fore(tiles[b], dir) - fore(tiles[a], dir) <= TILE_SIZE
            && side(tiles[a], dir) == side(tiles[b], dir) && fore(tiles[a], dir) + MOVE_SPEED
            <= W - TILE_SIZE),
        tiles[a].overlaps(tiles[b]) && fore(tiles[a], dir) <= fore(tiles[b], dir)
            ==> tiles[a].val == tiles[b].val && tiles[b].arrived && (tiles[a].arrived <==> fore(
            tiles[a],
            dir,
        ) == fore(tiles[b], dir)),
        in_way(tiles, dir, a, b) && tiles[b].arrived && !tiles[a].arrived ==> tiles[a].val
            == tiles[b].val,
{
    reveal(orderly);
    let mid = advanced_all(tiles);
    lemma_step_of_tile(tiles, dir, a);
    lemma_step_of_tile(tiles, dir, b);
    lemma_along(tiles[a], tiles[b], dir);
    lemma_along(tiles[b], tiles[a], dir);
    lemma_along(mid[a], mid[b], dir);
    lemma_along(mid[b], mid[a], dir);
    if -TILE_SIZE < side(tiles[a], dir) - side(tiles[b], dir) < TILE_SIZE {
        lemma_same_lane(side(tiles[a], dir), side(tiles[b], dir));
    }
    if in_way(tiles, dir, a, b) && tiles[b].arrived && !tiles[a].arrived {
        assert(arrived(tiles, dir, b));
        assert(!arrived(tiles, dir, a));
    }
}

/// A tile that goes on has at most one stopped tile ahead of it.
proof fn lemma_one_blocker(tiles: Seq<Tile>, dir: Heading, i: int, j: int, k: int)
    requires
        orderly(tiles, dir),
        0 <= i < tiles.len(),
        !tiles[i].arrived,
        in_way(tiles, dir, i, j),
        in_way(tiles, dir, i, k),
        tiles[j].arrived,
        tiles[k].arrived,
    ensures
        j == k,
{
    reveal(orderly);
    assert(!arrived(tiles, dir, i));
    assert(arrived(tiles, dir, j));
    assert(arrived(tiles, dir, k));
}

/// After a step no tile overlaps two others.
proof fn lemma_exclusive_after_step(tiles: Seq<Tile>, dir: Heading, i: int, j: int, k: int)
    requires
        orderly(tiles, dir),
        0 <= i < tiles.len(),
        0 <= j < tiles.len(),
        0 <= k < tiles.len(),
        i != j,
        i != k,
        j != k,
    ensures
        !(advanced_all(tiles)[i].overlaps(advanced_all(tiles)[j]) && advanced_all(
            tiles,
        )[i].overlaps(advanced_all(tiles)[k])),
{
    reveal(orderly);
    let mid = advanced_all(tiles);
    if mid[i].overlaps(mid[j]) && mid[i].overlaps(mid[k]) {
        lemma_step_of_tile(tiles, dir, i);
        lemma_step_of_tile(tiles, dir, j);
        lemma_step_of_tile(tiles, dir, k);
        lemma_pair_facts(tiles, dir, i, j);
        lemma_pair_facts(tiles, dir, j, i);
        lemma_pair_facts(tiles, dir, i, k);
        lemma_pair_facts(tiles, dir, k, i);
        lemma_pair_facts(tiles, dir, j, k);
        lemma_pair_facts(tiles, dir, k, j);
        if fore(mid[i], dir) <= fore(mid[j], dir) {
            lemma_pair_after_step(tiles, dir, i, j);
        } else {
            lemma_pair_after_step(tiles, dir, j, i);
        }
        if fore(mid[i], dir) <= fore(mid[k], dir) {
            lemma_pair_after_step(tiles, dir, i, k);
        } else {
            lemma_pair_after_step(tiles, dir, k, i);
        }
        if !tiles[i].arrived && in_way(tiles, dir, i, j) && in_way(tiles, dir, i, k)
            && tiles[j].arrived && tiles[k].arrived {
            lemma_one_blocker(tiles, dir, i, j, k);
        }
        if !tiles[j].arrived && in_way(tiles, dir, j, i) && in_way(tiles, dir, j, k)
            && tiles[i].arrived && tiles[k].arrived {
            lemma_one_blocker(tiles, dir, j, i, k);
        }
        if !tiles[k].arrived && in_way(tiles, dir, k, i) && in_way(tiles, dir, k, j)
            && tiles[i].arrived && tiles[j].arrived {
            lemma_one_blocker(tiles, dir, k, i, j);
        }
        assert(!(tiles[i].overlaps(tiles[j]) && tiles[i].overlaps(tiles[k])));
        assert(!(tiles[j].overlaps(tiles[i]) && tiles[j].overlaps(tiles[k])));
        assert(!(tiles[k].overlaps(tiles[i]) && tiles[k].overlaps(tiles[j])));
        assert(false);
    }
}

/// After a step, a tile that has not yet reached the tile it runs into goes
/// on.
proof fn lemma_rear_goes_on(tiles: Seq<Tile>, dir: Heading, i: int, j: int)
    requires
        orderly(tiles, dir),
        0 <= i < tiles.len(),
        0 <= j < tiles.len(),
        i != j,
        advanced_all(tiles)[i].overlaps(advanced_all(tiles)[j]),
        fore(advanced_all(tiles)[i], dir) < fore(advanced_all(tiles)[j], dir),
    ensures
        !arrived(advanced_all(tiles), dir, i),
{
    reveal(orderly);
    let mid = advanced_all(tiles);
    lemma_step_of_tile(tiles, dir, i);
    lemma_step_of_tile(tiles, dir, j);
    lemma_in_lanes(mid, dir, i, j);
    lemma_pair_after_step(tiles, dir, i, j);
    assert forall|k: int| #[trigger] in_way(mid, dir, i, k) implies k == j by {
        if k != j {
            lemma_step_of_tile(tiles, dir, k);
            lemma_in_lanes(mid, dir, i, k);
            lemma_in_lanes(mid, dir, j, k);
            lemma_exclusive_after_step(tiles, dir, i, j, k);
            lemma_exclusive_after_step(tiles, dir, j, i, k);
            assert(mid[j].overlaps(mid[i]));
        }
    }
    assert(mid[j].val == mid[i].val);
}

/// After a step, every tile that has to stop stands on a cell.
proof fn lemma_stops_on_cells(tiles: Seq<Tile>, dir: Heading, i: int)
    requires
        orderly(tiles, dir),
        0 <= i < tiles.len(),
        arrived(advanced_all(tiles), dir, i),
    ensures
        on_lattice(fore(advanced_all(tiles)[i], dir)),
    decreases headway(advanced_all(tiles)[i], dir),
{
    reveal(orderly);
    let mid = advanced_all(tiles);
    lemma_step_of_tile(tiles, dir, i);
    if !tiles[i].arrived {
        lemma_along(mid[i], mid[i], dir);
        if in_grid(mid[i].probe_along(dir)) {
            let k = lemma_has_blocker(mid, dir, i);
            lemma_step_of_tile(tiles, dir, k);
            lemma_in_lanes(mid, dir, i, k);
            if fore(mid[k], dir) - fore(mid[i], dir) < TILE_SIZE {
                lemma_rear_goes_on(tiles, dir, i, k);
                assert(false);
            }
            assert(fore(mid[i], dir) == fore(mid[k], dir) - TILE_SIZE);
            lemma_stops_on_cells(tiles, dir, k);
            lemma_lattice_steps(fore(mid[i], dir), fore(mid[k], dir));
        } else {
            lemma_last_position(fore(mid[i], dir));
            lemma_lattice_steps(fore(mid[i], dir), 0);
        }
    }
}

/// After a step, a tile that had stopped before still has to stop.
proof fn lemma_stopped_stays(tiles: Seq<Tile>, dir: Heading, i: int)
    requires
        orderly(tiles, dir),
        0 <= i < tiles.len(),
        tiles[i].arrived,
    ensures
        arrived(advanced_all(tiles), dir, i),
{
    reveal(orderly);
    let mid = advanced_all(tiles);
    assert forall|k: int| 0 <= k < tiles.len() && arrived(tiles, dir, k) implies same_body(
        tiles[k],
        #[trigger] mid[k],
    ) by {
        lemma_step_of_tile(tiles, dir, k);
        assert(tiles[k].arrived);
    }
    lemma_step_of_tile(tiles, dir, i);
    assert(arrived(tiles, dir, i));
    lemma_arrival_stays(tiles, mid, dir, i);
}

/// After a step, of two tiles that overlap the front one has to stop, and
/// the rear one has to stop exactly when it has reached the front one.
proof fn lemma_pair_stops(tiles: Seq<Tile>, dir: Heading, i: int, j: int)
    requires
        orderly(tiles, dir),
        0 <= i < tiles.len(),
        0 <= j < tiles.len(),
        i != j,
        advanced_all(tiles)[i].overlaps(advanced_all(tiles)[j]),
        fore(advanced_all(tiles)[i], dir) <= fore(advanced_all(tiles)[j], dir),
    ensures
        arrived(advanced_all(tiles), dir, j),
        arrived(advanced_all(tiles), dir, i) <==> fore(advanced_all(tiles)[i], dir) == fore(
            advanced_all(tiles)[j],
            dir,
        ),
{
    reveal(orderly);
    let mid = advanced_all(tiles);
    lemma_step_of_tile(tiles, dir, i);
    lemma_step_of_tile(tiles, dir, j);
    lemma_pair_after_step(tiles, dir, i, j);
    if fore(mid[i], dir) < fore(mid[j], dir) {
        lemma_stopped_stays(tiles, dir, j);
        lemma_rear_goes_on(tiles, dir, i, j);
    } else {
        assert(same_body(mid[i], mid[j]));
        lemma_twins(mid, dir, i, j);
        if tiles[i].arrived {
            lemma_stopped_stays(tiles, dir, i);
        } else {
            lemma_stopped_stays(tiles, dir, j);
        }
    }
}

/// A step keeps the board in order.
pub proof fn lemma_step_keeps_order(tiles: Seq<Tile>, dir: Heading)
    requires
        orderly(tiles, dir),
    ensures
        orderly(refreshed_all(advanced_all(tiles), dir), dir),
{
    reveal(orderly);
    let mid = advanced_all(tiles);
    let after = refreshed_all(mid, dir);
    assert forall|k: int| 0 <= k < mid.len() implies same_body(mid[k], #[trigger] after[k]) by {}
    assert forall|i: int| 0 <= i < after.len() implies (#[trigger] after[i]).wf()
        && after[i].heading == dir && on_lattice(side(after[i], dir)) && (after[i].arrived
        <==> arrived(after, dir, i)) && (after[i].arrived ==> on_lattice(fore(after[i], dir))) by {
        lemma_step_of_tile(tiles, dir, i);
        lemma_arrival_by_bodies(mid, after, dir, i);
        if tiles[i].arrived {
            lemma_stopped_stays(tiles, dir, i);
        }
        if arrived(mid, dir, i) {
            lemma_stops_on_cells(tiles, dir, i);
        }
    }
    assert forall|i: int, j: int|
        #![trigger after[i].overlaps(after[j])]
        0 <= i < after.len() && 0 <= j < after.len() && i != j && after[i].overlaps(after[j])
            && fore(after[i], dir) <= fore(after[j], dir) implies after[i].val == after[j].val
        && after[j].arrived && (after[i].arrived <==> fore(after[i], dir) == fore(
        after[j],
        dir,
    )) by {
        lemma_step_of_tile(tiles, dir, i);
        lemma_step_of_tile(tiles, dir, j);
        assert(mid[i].overlaps(mid[j]));
        lemma_pair_after_step(tiles, dir, i, j);
        lemma_pair_stops(tiles, dir, i, j);
    }
    assert forall|i: int, j: int, k: int|
        #![trigger after[i].overlaps(after[j]), after[i].overlaps(after[k])]
        0 <= i < after.len() && 0 <= j < after.len() && 0 <= k < after.len() && i != j && i != k
            && j != k implies !(after[i].overlaps(after[j]) && after[i].overlaps(after[k])) by {
        lemma_exclusive_after_step(tiles, dir, i, j, k);
        assert(after[i].overlaps(after[j]) == mid[i].overlaps(mid[j]));
        assert(after[i].overlaps(after[k]) == mid[i].overlaps(mid[k]));
    }
}

/// A move that begins on a board at rest begins in order.
pub proof fn lemma_launch_in_order(tiles: Seq<Tile>, dir: Heading)
    requires
        !(dir is Idle),
        at_rest(tiles),
        forall|i: int| 0 <= i < tiles.len() ==> (#[trigger] tiles[i]).wf(),
    ensures
        orderly(refreshed_all(launched_all(tiles, dir), dir), dir),
        all_stopped(refreshed_all(launched_all(tiles, dir), dir)) ==> at_rest(
            refreshed_all(launched_all(tiles, dir), dir),
        ),
{
    reveal(orderly);
    let set_off = launched_all(tiles, dir);
    let after = refreshed_all(set_off, dir);
    assert forall|k: int| 0 <= k < set_off.len() implies same_body(
        set_off[k],
        #[trigger] after[k],
    ) by {}
    assert forall|i: int| 0 <= i < after.len() implies (#[trigger] after[i]).wf()
        && after[i].heading == dir && on_lattice(side(after[i], dir)) && (after[i].arrived
        <==> arrived(after, dir, i)) && on_lattice(fore(after[i], dir)) && is_cell_corner(
        after[i].x,
        after[i].y,
    ) by {
        assert(tiles[i].wf());
        assert(same_body(tiles[i], after[i]));
        lemma_cell_corner(tiles[i].x, tiles[i].y);
        lemma_arrival_by_bodies(set_off, after, dir, i);
    }
    assert forall|i: int, j: int|
        0 <= i < after.len() && 0 <= j < after.len() && i != j implies !(
    #[trigger] after[i]).overlaps(#[trigger] after[j]) && !after[i].same_spot(after[j]) by {
        assert(same_body(tiles[i], after[i]));
        assert(same_body(tiles[j], after[j]));
        assert(!tiles[i].same_spot(tiles[j]));
        lemma_cells_apart(tiles[i], tiles[j]);
    }
}

/// Merging leaves every tile where some tile was.
proof fn lemma_merged_from_on_cells(tiles: Seq<Tile>, i: int)
    requires
        0 <= i,
        forall|k: int|
            0 <= k < tiles.len() ==> is_cell_corner((#[trigger] tiles[k]).x, tiles[k].y),
    ensures
        forall|k: int|
            0 <= k < merged_from(tiles, i).len() ==> is_cell_corner(
                (#[trigger] merged_from(tiles, i)[k]).x,
                merged_from(tiles, i)[k].y,
            ),
    decreases tiles.len() - i,
{
    if i < tiles.len() {
        let j = first_overlap(tiles, i);
        lemma_overlap_from(tiles, i, 0);
        if 0 <= j < tiles.len() {
            let next = merge_into(tiles, i, j);
            let grown = tiles.update(j, tiles[j].grown());
            assert forall|k: int| 0 <= k < next.len() implies is_cell_corner(
                (#[trigger] next[k]).x,
                next[k].y,
            ) by {
                let from = if k < i {
                    k
                } else {
                    k + 1
                };
                assert(next[k] == grown[from]);
                assert(is_cell_corner(tiles[from].x, tiles[from].y));
            }
            lemma_merged_from_on_cells(next, i);
        } else {
            lemma_merged_from_on_cells(tiles, i + 1);
        }
    }
}

/// When the last tile of a board in order has stopped and the tiles have
/// merged, the board is at rest: every tile on a cell of its own.
pub proof fn lemma_settles_at_rest(tiles: Seq<Tile>, dir: Heading)
    requires
        orderly(tiles, dir),
        all_stopped(tiles),
    ensures
        at_rest(merged(tiles)),
{
    reveal(orderly);
    assert forall|k: int| 0 <= k < tiles.len() implies is_cell_corner(
        (#[trigger] tiles[k]).x,
        tiles[k].y,
    ) by {
        lemma_stopped_on_cells(tiles, dir, k);
    }
    lemma_merged_from_on_cells(tiles, 0);
    lemma_merged_apart(tiles);
    lemma_merged_from_sound(tiles, dir, 0);
    let after = merged(tiles);
    assert forall|i: int, j: int|
        0 <= i < after.len() && 0 <= j < after.len() && i != j implies !(
    #[trigger] after[i]).same_spot(#[trigger] after[j]) by {
        assert(!after[i].overlaps(after[j]));
    }
}

/// A stopped tile put on a free cell of a board at rest leaves the board at
/// rest.
pub proof fn lemma_put_at_rest(tiles: Seq<Tile>, t: Tile, col: int, row: int)
    requires
        at_rest(tiles),
        0 <= col < COLUMNS,
        0 <= row < ROWS,
        cell_free(tiles, col, row),
        t.arrived,
        t.x == cell_x(col),
        t.y == cell_y(row),
    ensures
        at_rest(tiles.push(t)),
{
    let more = tiles.push(t);
    assert(is_cell_corner(t.x, t.y));
    assert forall|i: int| 0 <= i < more.len() implies (#[trigger] more[i]).arrived
        && is_cell_corner(more[i].x, more[i].y) by {
        if i < tiles.len() {
            assert(more[i] == tiles[i]);
        }
    }
    assert forall|i: int, j: int|
        0 <= i < more.len() && 0 <= j < more.len() && i != j implies !(
    #[trigger] more[i]).same_spot(#[trigger] more[j]) by {
        if i < tiles.len() {
            assert(more[i] == tiles[i]);
        }
        if j < tiles.len() {
            assert(more[j] == tiles[j]);
        }
    }
}

/// Looking at arrival again leaves a board at rest at rest.
pub proof fn lemma_refresh_at_rest(tiles: Seq<Tile>, dir: Heading)
    requires
        at_rest(tiles),
    ensures
        at_rest(refreshed_all(tiles, dir)),
{
    let after = refreshed_all(tiles, dir);
    assert forall|i: int| 0 <= i < after.len() implies (#[trigger] after[i]).arrived
        && is_cell_corner(after[i].x, after[i].y) by {
        assert(tiles[i].arrived);
    }
    assert forall|i: int, j: int|
        0 <= i < after.len() && 0 <= j < after.len() && i != j implies !(
    #[trigger] after[i]).same_spot(#[trigger] after[j]) by {
        assert(!tiles[i].same_spot(tiles[j]));
    }
}

/// A tile that appears on a board at rest leaves the board at rest.
pub proof fn lemma_spawn_at_rest(tiles: Seq<Tile>, dir: Heading, t: Tile)
    requires
        at_rest(tiles),
        spawnable(tiles, dir, t),
    ensures
        at_rest(tiles.push(t)),
        at_rest(refreshed_all(tiles.push(t), dir)),
{
    let (col, row) = choose|col: int, row: int|
        0 <= col < COLUMNS && 0 <= row < ROWS && #[trigger] cell_free(tiles, col, row) && t.x
            == cell_x(col) && t.y == cell_y(row);
    lemma_put_at_rest(tiles, t, col, row);
    lemma_refresh_at_rest(tiles.push(t), dir);
}

/// When the last tile of a board in order has stopped, the tiles that overlap
/// are pairs of one value on one cell.
pub proof fn lemma_pairs_at_the_end(tiles: Seq<Tile>, dir: Heading, i: int, j: int)
    requires
        orderly(tiles, dir),
        all_stopped(tiles),
        0 <= i < tiles.len(),
        0 <= j < tiles.len(),
        i != j,
        tiles[i].overlaps(tiles[j]),
    ensures
        tiles[i].val == tiles[j].val,
        tiles[i].same_spot(tiles[j]),
        forall|k: int|
            0 <= k < tiles.len() && k != i && k != j ==> !(#[trigger] tiles[k]).overlaps(tiles[i])
                && !tiles[k].overlaps(tiles[j]),
{
    lemma_stopped_on_cells(tiles, dir, i);
    lemma_stopped_on_cells(tiles, dir, j);
    if !tiles[i].same_spot(tiles[j]) {
        lemma_cells_apart(tiles[i], tiles[j]);
    }
    assert(tiles[j].overlaps(tiles[i]));
    reveal(orderly);
    assert forall|k: int| 0 <= k < tiles.len() && k != i && k != j implies !(
    #[trigger] tiles[k]).overlaps(tiles[i]) && !tiles[k].overlaps(tiles[j]) by {
        if tiles[k].overlaps(tiles[i]) {
            assert(tiles[i].overlaps(tiles[k]));
            assert(!(tiles[i].overlaps(tiles[j]) && tiles[i].overlaps(tiles[k])));
        }
        if tiles[k].overlaps(tiles[j]) {
            assert(tiles[j].overlaps(tiles[k]));
            assert(!(tiles[j].overlaps(tiles[i]) && tiles[j].overlaps(tiles[k])));
        }
    }
}

/// The merging at the end of a move conserves the sum of the values on the
/// board, as long as no tile that merges holds the greatest value.
pub proof fn lemma_settling_keeps_total(tiles: Seq<Tile>, dir: Heading)
    requires
        orderly(tiles, dir),
        all_stopped(tiles),
        forall|k: int| 0 <= k < tiles.len() ==> (#[trigger] tiles[k]).val < MAX_TILE_VALUE,
    ensures
        total_value(merged(tiles)) == total_value(tiles),
{
    assert(pairs_match(tiles)) by {
        reveal(orderly);
        assert forall|i: int, j: int|
            #![trigger tiles[i].overlaps(tiles[j])]
            0 <= i < tiles.len() && 0 <= j < tiles.len() && i != j && tiles[i].overlaps(
                tiles[j],
            ) implies tiles[i].val == tiles[j].val && tiles[j].val < MAX_TILE_VALUE by {
            assert(tiles[j].overlaps(tiles[i]));
        }
    }
    lemma_merged_from_total(tiles, 0);
}

/// The merging at the end of a move, tile by tile. The tiles that overlap are
/// pairs of one value on one cell. Of each pair the earlier tile is gone and
/// the later one holds the sum of the two, which is twice its value, where it
/// stood; every other tile is as it was ([`settled`]).
pub proof fn lemma_settling_tile_by_tile(tiles: Seq<Tile>, dir: Heading)
    requires
        orderly(tiles, dir),
        all_stopped(tiles),
    ensures
        merged(tiles) == settled(tiles),
        exclusive(tiles),
        forall|k: int, m: int|
            #![trigger tiles[k].overlaps(tiles[m])]
            0 <= k < m < tiles.len() && tiles[k].overlaps(tiles[m]) ==> tiles[k].same_spot(
                tiles[m],
            ) && tiles[k].val == tiles[m].val && has_earlier_twin(tiles, m) && has_later_twin(
                tiles,
                k,
            ) && (tiles[m].val < MAX_TILE_VALUE ==> kept(tiles, 0, m) == (Tile {
                val: tiles[k].val + tiles[m].val,
                ..tiles[m]
            }) && kept(tiles, 0, m).val == 2 * tiles[m].val),
{
    assert(exclusive(tiles)) by {
        reveal(orderly);
    }
    lemma_merged_is_settled(tiles);
    assert forall|k: int, m: int|
        #![trigger tiles[k].overlaps(tiles[m])]
        0 <= k < m < tiles.len() && tiles[k].overlaps(tiles[m]) implies tiles[k].same_spot(
        tiles[m],
    ) && tiles[k].val == tiles[m].val && has_earlier_twin(tiles, m) && has_later_twin(tiles, k)
        && (tiles[m].val < MAX_TILE_VALUE ==> kept(tiles, 0, m) == (Tile {
        val: tiles[k].val + tiles[m].val,
        ..tiles[m]
    }) && kept(tiles, 0, m).val == 2 * tiles[m].val) by {
        lemma_pairs_at_the_end(tiles, dir, k, m);
        assert(tiles[m].overlaps(tiles[k]));
        assert(has_twin_between(tiles, 0, m));
    }
}

} // verus!
