//! Every move ends: a board that is left alone comes to rest within a fixed
//! number of frames, and then stays as it is.

use crate::arrival::headway;
use crate::board::{all_stopped, lemma_moved_in_order, lemma_step_keeps_wf, Board};
use crate::grid::{MOVE_SPEED, W};
use crate::keys::KeyStates;
use crate::lanes::lemma_mover_has_room;
use vstd::prelude::*;

verus! {

/// The number of frames within which a board that is left alone has settled.
/// A tile crosses the grid in twelve steps.
pub const FRAMES_TO_SETTLE: usize = 12;

/// The keys of a frame in which the player holds nothing down.
pub open spec fn no_keys() -> KeyStates {
    KeyStates { up: false, down: false, right: false, left: false, space: false, r: false }
}

/// Whether `run` can be the boards of successive frames in none of which a key
/// is down.
pub open spec fn is_quiet_run(run: Seq<Board>) -> bool {
    forall|k: int| 0 <= k < run.len() - 1 ==> (#[trigger] run[k]).step_result(no_keys(), run[k + 1])
}

/// Whether every tile of `b` that still moves is within `reach` of the edge
/// it is headed for.
pub open spec fn movers_within(b: Board, reach: int) -> bool {
    forall|i: int|
        0 <= i < b.tiles.len() && !(#[trigger] b.tiles[i]).arrived ==> headway(b.tiles[i], b.dir)
            <= reach
}

/// A board at rest on which no key is down stays exactly as it is.
pub proof fn lemma_rest_is_stable(b: Board, next: Board)
    requires
        b.wf(),
        b.settled,
        b.step_result(no_keys(), next),
    ensures
        next == b,
{
}

/// One quiet frame either settles the board or brings every tile that still
/// moves one step closer to the edge.
pub proof fn lemma_quiet_frame(b: Board, next: Board, reach: int)
    requires
        b.wf(),
        b.step_result(no_keys(), next),
        movers_within(b, reach),
    ensures
        next.wf(),
        next.settled || (!all_stopped(next.tiles) && movers_within(next, reach - MOVE_SPEED)),
{
    lemma_step_keeps_wf(b, no_keys(), next);
    if !next.settled {
        lemma_moved_in_order(b, no_keys());
        let steered = b.steered(no_keys());
        assert(steered == Board { settled: false, ..b });
        assert(next == steered.advanced());
        assert forall|i: int| 0 <= i < next.tiles.len() && !(#[trigger] next.tiles[i]).arrived implies headway(
            next.tiles[i],
            next.dir,
        ) <= reach - MOVE_SPEED by {
            let was = b.tiles[i];
            assert(was.heading == b.dir);
            assert(!was.arrived);
            assert(headway(was, b.dir) <= reach);
            assert(next.tiles[i].x == was.advanced().x && next.tiles[i].y == was.advanced().y);
        }
    }
}

/// In a quiet run, frame `k` has seen the board settle, or every tile that
/// still moves at frame `k` has `k` steps behind it.
pub proof fn lemma_quiet_run(run: Seq<Board>, k: int)
    requires
        0 <= k < run.len(),
        run[0].wf(),
        is_quiet_run(run),
    ensures
        run[k].wf(),
        (exists|j: int| 0 <= j <= k && (#[trigger] run[j]).settled) || ((k > 0 ==> !all_stopped(
            run[k].tiles,
        )) && movers_within(run[k], W - k * MOVE_SPEED)),
    decreases k,
{
    if k == 0 {
        assert forall|i: int| 0 <= i < run[0].tiles.len() implies headway(
            (#[trigger] run[0].tiles[i]),
            run[0].dir,
        ) <= W by {
            assert(run[0].tiles[i].wf());
        }
    } else {
        lemma_quiet_run(run, k - 1);
        if exists|j: int| 0 <= j <= k - 1 && (#[trigger] run[j]).settled {
            let j = choose|j: int| 0 <= j <= k - 1 && (#[trigger] run[j]).settled;
            assert(0 <= j <= k && run[j].settled);
            lemma_wf_along(run, k);
        } else {
            assert(run[k - 1].step_result(no_keys(), run[k]));
            lemma_quiet_frame(run[k - 1], run[k], W - (k - 1) * MOVE_SPEED);
            if run[k].settled {
                assert(0 <= k <= k && run[k].settled);
            }
        }
    }
}

/// Every board of a quiet run is in order.
pub proof fn lemma_wf_along(run: Seq<Board>, k: int)
    requires
        0 <= k < run.len(),
        run[0].wf(),
        is_quiet_run(run),
    ensures
        run[k].wf(),
    decreases k,
{
    if k > 0 {
        lemma_wf_along(run, k - 1);
        assert(run[k - 1].step_result(no_keys(), run[k]));
        lemma_step_keeps_wf(run[k - 1], no_keys(), run[k]);
    }
}

/// A board that is left alone settles: among the first [`FRAMES_TO_SETTLE`]
/// frames of a quiet run there is one in which the board is settled. No move
/// goes on for ever.
pub proof fn lemma_settles_in_time(run: Seq<Board>)
    requires
        run.len() > FRAMES_TO_SETTLE,
        run[0].wf(),
        is_quiet_run(run),
    ensures
        exists|j: int| 0 <= j <= FRAMES_TO_SETTLE && (#[trigger] run[j]).settled,
{
    let k = FRAMES_TO_SETTLE as int;
    lemma_quiet_run(run, k);
    if !(exists|j: int| 0 <= j <= k && (#[trigger] run[j]).settled) {
        let last = run[k];
        assert(!all_stopped(last.tiles));
        let i = choose|i: int| 0 <= i < last.tiles.len() && !(#[trigger] last.tiles[i]).arrived;
        lemma_mover_has_room(last.tiles, last.dir, i);
        assert(headway(last.tiles[i], last.dir) <= W - k * MOVE_SPEED);
        assert(false);
    }
}

} // verus!
