//! When a tile stops: the rule that decides, for one tile among all the
//! others, whether it may go on along the board's direction of travel.
//!
//! A tile looks at its probe point, just beyond its leading edge. It stops at
//! the edge of the grid, and behind tiles that have stopped themselves: behind
//! one of another value, or behind two at once. Behind a single stopped tile of
//! its own value it goes on, into that tile, and the two merge once the
//! board has settled.
//!
//! Asking whether a tile has to stop ([`tile_at_target`]) marks as stopped
//! what is found to have to stop on the way; it moves nothing and takes no
//! mark back.

use crate::grid::{in_grid, point_in_grid, Heading, Point, H, TILE_SIZE, W};
use crate::tile::{GameTile, Tile};
use vstd::prelude::*;

verus! {

/// The views of the tiles of `list`, in the same order.
pub open spec fn tiles_of(list: Seq<GameTile>) -> Seq<Tile> {
    list.map_values(|t: GameTile| t@)
}

/// How far the far edge of the grid is from `t` along `dir`. Every tile that
/// can block `t` is strictly closer to that edge.
pub open spec fn headway(t: Tile, dir: Heading) -> int {
    match dir {
        Heading::Idle => 0,
        Heading::Up => t.y + TILE_SIZE,
        Heading::Down => H - t.y,
        Heading::Left => t.x + TILE_SIZE,
        Heading::Right => W - t.x,
    }
}

/// Whether tile `j` lies ahead of tile `i` on its way towards `dir`: it is
/// another tile, and its square holds the probe point of `i`, which lies on the
/// grid.
pub open spec fn in_way(tiles: Seq<Tile>, dir: Heading, i: int, j: int) -> bool {
    &&& 0 <= i < tiles.len()
    &&& 0 <= j < tiles.len()
    &&& j != i
    &&& !(dir is Idle)
    &&& in_grid(tiles[i].probe_along(dir))
    &&& tiles[j].covers(tiles[i].probe_along(dir))
}

/// Whether tile `i` of `tiles` has to stop while the board travels towards
/// `dir`: its probe point has left the grid, or a stopped tile of another
/// value lies ahead, or two stopped tiles do. On an idle board no tile is
/// stopped by this rule.
pub open spec fn arrived(tiles: Seq<Tile>, dir: Heading, i: int) -> bool
    decreases headway(tiles[i], dir),
{
    if dir is Idle || !(0 <= i < tiles.len()) {
        false
    } else {
        ||| !in_grid(tiles[i].probe_along(dir))
        ||| exists|j: int|
            #[trigger] in_way(tiles, dir, i, j) && arrived(tiles, dir, j) && tiles[j].val
                != tiles[i].val
        ||| exists|j: int, k: int|
            j != k && #[trigger] in_way(tiles, dir, i, j) && arrived(tiles, dir, j)
                && #[trigger] in_way(tiles, dir, i, k) && arrived(tiles, dir, k)
    }
}

/// Whether tile `j` stands in the way of tile `i`: it lies ahead of `i` and
/// has stopped itself.
pub open spec fn blocks(tiles: Seq<Tile>, dir: Heading, i: int, j: int) -> bool {
    in_way(tiles, dir, i, j) && arrived(tiles, dir, j)
}

/// Whether two tiles are in the same place with the same value.
pub open spec fn same_body(a: Tile, b: Tile) -> bool {
    a.x == b.x && a.y == b.y && a.val == b.val
}

/// A tile that has to stop still has to once other tiles have moved, as long
/// as the tiles that had to stop are where they were.
pub proof fn lemma_arrival_stays(before: Seq<Tile>, after: Seq<Tile>, dir: Heading, i: int)
    requires
        before.len() == after.len(),
        forall|k: int|
            0 <= k < before.len() && arrived(before, dir, k) ==> same_body(
                before[k],
                #[trigger] after[k],
            ),
        arrived(before, dir, i),
    ensures
        arrived(after, dir, i),
    decreases headway(before[i], dir),
{
    assert(same_body(before[i], after[i]));
    if in_grid(before[i].probe_along(dir)) {
        if exists|j: int|
            #[trigger] in_way(before, dir, i, j) && arrived(before, dir, j) && before[j].val
                != before[i].val {
            let j = choose|j: int|
                #[trigger] in_way(before, dir, i, j) && arrived(before, dir, j) && before[j].val
                    != before[i].val;
            lemma_arrival_stays(before, after, dir, j);
            assert(same_body(before[j], after[j]));
            assert(in_way(after, dir, i, j));
        } else {
            let (j, k) = choose|j: int, k: int|
                j != k && #[trigger] in_way(before, dir, i, j) && arrived(before, dir, j)
                    && #[trigger] in_way(before, dir, i, k) && arrived(before, dir, k);
            lemma_arrival_stays(before, after, dir, j);
            lemma_arrival_stays(before, after, dir, k);
            assert(same_body(before[j], after[j]));
            assert(same_body(before[k], after[k]));
            assert(in_way(after, dir, i, j));
            assert(in_way(after, dir, i, k));
        }
    }
}

/// Whether a tile has to stop depends on where the tiles are and what they
/// are worth, and on nothing else.
pub proof fn lemma_arrival_by_bodies(a: Seq<Tile>, b: Seq<Tile>, dir: Heading, i: int)
    requires
        a.len() == b.len(),
        forall|k: int| 0 <= k < a.len() ==> same_body(a[k], #[trigger] b[k]),
    ensures
        arrived(a, dir, i) == arrived(b, dir, i),
{
    if arrived(a, dir, i) {
        lemma_arrival_stays(a, b, dir, i);
    }
    if arrived(b, dir, i) {
        assert forall|k: int| 0 <= k < b.len() implies same_body(b[k], #[trigger] a[k]) by {
            assert(same_body(a[k], b[k]));
        }
        lemma_arrival_stays(b, a, dir, i);
    }
}

/// Whether every tile of `list` is headed for `dir`.
pub open spec fn all_headed(tiles: Seq<Tile>, dir: Heading) -> bool {
    forall|k: int| 0 <= k < tiles.len() ==> (#[trigger] tiles[k]).heading == dir
}

/// Whether `after` is `before` with some more tiles marked as stopped, each
/// of them a tile that has to stop: every tile is where and what it was and
/// headed as it was, no mark is taken back, and no tile is marked that may go
/// on.
pub open spec fn marked(before: Seq<Tile>, after: Seq<Tile>, dir: Heading) -> bool {
    &&& after.len() == before.len()
    &&& forall|k: int|
        0 <= k < before.len() ==> same_body(before[k], #[trigger] after[k]) && after[k].heading
            == before[k].heading && (before[k].arrived ==> after[k].arrived) && (after[k].arrived
            ==> before[k].arrived || arrived(before, dir, k))
}

/// Marking goes on: what has been marked after some marking has been marked
/// from the start.
pub proof fn lemma_marked_on(first: Seq<Tile>, then: Seq<Tile>, last: Seq<Tile>, dir: Heading)
    requires
        marked(first, then, dir),
        marked(then, last, dir),
    ensures
        marked(first, last, dir),
{
    assert forall|k: int| 0 <= k < first.len() implies same_body(first[k], #[trigger] last[k])
        && last[k].heading == first[k].heading && (first[k].arrived ==> last[k].arrived) && (
    last[k].arrived ==> first[k].arrived || arrived(first, dir, k)) by {
        assert(same_body(first[k], then[k]));
        assert(same_body(then[k], last[k]));
        lemma_arrival_of_marked(first, then, dir, k);
    }
}

/// Marking changes nothing about which tiles have to stop.
pub proof fn lemma_arrival_of_marked(before: Seq<Tile>, after: Seq<Tile>, dir: Heading, i: int)
    requires
        marked(before, after, dir),
    ensures
        arrived(after, dir, i) == arrived(before, dir, i),
{
    assert forall|k: int| 0 <= k < before.len() implies same_body(
        before[k],
        #[trigger] after[k],
    ) by {}
    lemma_arrival_by_bodies(before, after, dir, i);
}

/// Decides whether tile `i` has to stop, and marks as stopped what it finds
/// to have to stop on the way: tile `i` itself, and every tile ahead of it.
///
/// No other tile is touched, no tile is moved, and no mark is taken back.
pub fn tile_at_target(list: &mut Vec<GameTile>, dir: Heading, i: usize) -> (r: bool)
    requires
        i < old(list).len(),
        all_headed(tiles_of(old(list)@), dir),
    ensures
        r == arrived(tiles_of(old(list)@), dir, i as int),
        marked(tiles_of(old(list)@), tiles_of(final(list)@), dir),
        r ==> tiles_of(final(list)@)[i as int].arrived,
        forall|j: int|
            #[trigger] in_way(tiles_of(old(list)@), dir, i as int, j) && arrived(
                tiles_of(old(list)@),
                dir,
                j,
            ) ==> tiles_of(final(list)@)[j].arrived,
    decreases headway(old(list)[i as int]@, dir),
{
    let ghost before = tiles_of(list@);
    if dir.is_idle() {
        return false;
    }
    let me: GameTile = list[i];
    assert(me@ == before[i as int]);
    let p: Point = me.future_point();
    let n: usize = list.len();
    let mut blockers: u8 = 0;
    let mut differs: bool = false;
    let ghost mut seen: int = 0;
    let mut j: usize = 0;
    while j < n
        invariant
            j <= n,
            n == list.len(),
            i < n,
            before.len() == n,
            marked(before, tiles_of(list@), dir),
            all_headed(before, dir),
            !(dir is Idle),
            me@ == before[i as int],
            before[i as int] == old(list)[i as int]@,
            p@ == before[i as int].probe_along(dir),
            blockers <= 2,
            forall|k: int|
                0 <= k < j && #[trigger] blocks(before, dir, i as int, k) ==> tiles_of(
                    list@,
                )[k].arrived,
            blockers == 0 ==> forall|k: int| 0 <= k < j ==> !blocks(before, dir, i as int, k),
            blockers >= 1 ==> 0 <= seen < j && blocks(before, dir, i as int, seen),
            blockers == 1 ==> forall|k: int|
                0 <= k < j && blocks(before, dir, i as int, k) ==> k == seen,
            blockers == 2 ==> exists|a: int, b: int|
                a != b && #[trigger] blocks(before, dir, i as int, a) && #[trigger] blocks(
                    before,
                    dir,
                    i as int,
                    b,
                ),
            differs <==> exists|k: int|
                0 <= k < j && #[trigger] blocks(before, dir, i as int, k) && before[k].val
                    != before[i as int].val,
        decreases n - j,
    {
        let ghost so_far = tiles_of(list@);
        let other: GameTile = list[j];
        assert(other@ == so_far[j as int]);
        assert(same_body(before[j as int], so_far[j as int]));
        let ghost was = differs;
        let mut stops: bool = false;
        if j != i && point_in_grid(p) && other.covers(p) {
            assert(in_way(before, dir, i as int, j as int));
            assert(all_headed(so_far, dir)) by {
                assert forall|k: int| 0 <= k < so_far.len() implies (#[trigger] so_far[k]).heading
                    == dir by {
                    assert(so_far[k].heading == before[k].heading);
                }
            }
            assert(headway(list[j as int]@, dir) < headway(old(list)[i as int]@, dir)) by {
                assert(list[j as int]@ == so_far[j as int]);
            }
            stops = tile_at_target(list, dir, j);
            proof {
                lemma_arrival_of_marked(before, so_far, dir, j as int);
                lemma_marked_on(before, so_far, tiles_of(list@), dir);
            }
        }
        if stops {
            assert(blocks(before, dir, i as int, j as int));
            if other.value() != me.value() {
                differs = true;
            }
            if blockers == 0 {
                blockers = 1;
                proof {
                    seen = j as int;
                }
            } else {
                assert(seen != j as int);
                blockers = 2;
            }
        } else {
            assert(!blocks(before, dir, i as int, j as int));
        }
        proof {
            if differs && !was {
                assert(blocks(before, dir, i as int, j as int) && before[j as int].val
                    != before[i as int].val);
            }
        }
        j += 1;
    }
    let stop: bool = !point_in_grid(p) || blockers > 1 || differs;
    proof {
        let me_at = i as int;
        if in_grid(p@) {
            if blockers > 1 || differs {
                assert(arrived(before, dir, me_at));
            } else {
                assert forall|a: int|
                    #[trigger] in_way(before, dir, me_at, a) && arrived(before, dir, a) implies before[a].val
                    == before[me_at].val by {
                    assert(blocks(before, dir, me_at, a));
                }
                assert forall|a: int, b: int|
                    #[trigger] in_way(before, dir, me_at, a) && arrived(before, dir, a)
                        && #[trigger] in_way(before, dir, me_at, b) && arrived(
                        before,
                        dir,
                        b,
                    ) implies a == b by {
                    assert(blocks(before, dir, me_at, a));
                    assert(blocks(before, dir, me_at, b));
                }
                assert(!arrived(before, dir, me_at));
            }
        }
        assert forall|a: int|
            #[trigger] in_way(before, dir, me_at, a) && arrived(before, dir, a) implies tiles_of(
            list@,
        )[a].arrived by {
            assert(blocks(before, dir, me_at, a));
        }
    }
    if stop {
        let ghost so_far = tiles_of(list@);
        let mine: GameTile = list[i].stopped();
        list.set(i, mine);
        proof {
            let now = tiles_of(list@);
            assert forall|k: int| 0 <= k < before.len() implies same_body(
                before[k],
                #[trigger] now[k],
            ) && now[k].heading == before[k].heading && (before[k].arrived ==> now[k].arrived)
                && (now[k].arrived ==> before[k].arrived || arrived(before, dir, k)) by {
                assert(same_body(before[k], so_far[k]));
                if k != i as int {
                    assert(now[k] == so_far[k]);
                }
            }
        }
    }
    stop
}

} // verus!
