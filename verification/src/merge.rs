//! Merging: once every tile has stopped, tiles whose squares share an area
//! are folded into one another.
//!
//! The tiles are scanned in order. A tile that overlaps another one is taken
//! off the board and the first tile it overlaps takes on twice its own value;
//! the scan then looks at the same index again. Which of two overlapping tiles
//! survives is therefore a matter of their order in the list, and of nothing
//! else.

use crate::arrival::tiles_of;
use crate::tile::{GameTile, Tile, MAX_TILE_VALUE};
use vstd::prelude::*;

verus! {

/// The first index from `k` on that holds another tile overlapping tile `i`,
/// or the length of `tiles` if there is none.
pub open spec fn overlap_from(tiles: Seq<Tile>, i: int, k: int) -> int
    decreases tiles.len() - k,
{
    if k >= tiles.len() {
        tiles.len() as int
    } else if k != i && tiles[k].overlaps(tiles[i]) {
        k
    } else {
        overlap_from(tiles, i, k + 1)
    }
}

/// The first index that holds another tile overlapping tile `i`, or the
/// length of `tiles` if there is none.
pub open spec fn first_overlap(tiles: Seq<Tile>, i: int) -> int {
    overlap_from(tiles, i, 0)
}

/// The tiles after tile `i` has merged into tile `j`: tile `j` has grown and
/// tile `i` is gone.
pub open spec fn merge_into(tiles: Seq<Tile>, i: int, j: int) -> Seq<Tile> {
    tiles.update(j, tiles[j].grown()).remove(i)
}

/// The tiles after the scan has run from index `i` to the end.
pub open spec fn merged_from(tiles: Seq<Tile>, i: int) -> Seq<Tile>
    decreases tiles.len() - i,
{
    if i < 0 || i >= tiles.len() {
        tiles
    } else {
        let j = first_overlap(tiles, i);
        if 0 <= j < tiles.len() {
            merged_from(merge_into(tiles, i, j), i)
        } else {
            merged_from(tiles, i + 1)
        }
    }
}

/// The tiles after all merges of one settling.
pub open spec fn merged(tiles: Seq<Tile>) -> Seq<Tile> {
    merged_from(tiles, 0)
}

/// The sum of the values of `tiles`.
pub open spec fn total_value(tiles: Seq<Tile>) -> int
    decreases tiles.len(),
{
    if tiles.len() == 0 {
        0
    } else {
        total_value(tiles.drop_last()) + tiles.last().val
    }
}

/// What [`overlap_from`] finds is the least index at or after `k` that holds
/// another tile overlapping tile `i`.
pub proof fn lemma_overlap_from(tiles: Seq<Tile>, i: int, k: int)
    requires
        0 <= k <= tiles.len(),
    ensures
        k <= overlap_from(tiles, i, k) <= tiles.len(),
        overlap_from(tiles, i, k) < tiles.len() ==> overlap_from(tiles, i, k) != i && tiles[overlap_from(
            tiles,
            i,
            k,
        )].overlaps(tiles[i]),
        forall|m: int|
            k <= m < overlap_from(tiles, i, k) ==> m == i || !(#[trigger] tiles[m]).overlaps(
                tiles[i],
            ),
    decreases tiles.len() - k,
{
    if k < tiles.len() && !(k != i && tiles[k].overlaps(tiles[i])) {
        lemma_overlap_from(tiles, i, k + 1);
    }
}

/// The sum of the values changes by what one tile's value changes by.
pub proof fn lemma_total_value_update(tiles: Seq<Tile>, j: int, t: Tile)
    requires
        0 <= j < tiles.len(),
    ensures
        total_value(tiles.update(j, t)) == total_value(tiles) - tiles[j].val + t.val,
    decreases tiles.len(),
{
    let after = tiles.update(j, t);
    if j == tiles.len() - 1 {
        assert(after.drop_last() =~= tiles.drop_last());
    } else {
        assert(after.drop_last() =~= tiles.drop_last().update(j, t));
        lemma_total_value_update(tiles.drop_last(), j, t);
    }
}

/// Taking a tile away takes its value off the sum.
pub proof fn lemma_total_value_remove(tiles: Seq<Tile>, i: int)
    requires
        0 <= i < tiles.len(),
    ensures
        total_value(tiles.remove(i)) == total_value(tiles) - tiles[i].val,
    decreases tiles.len(),
{
    let after = tiles.remove(i);
    if i == tiles.len() - 1 {
        assert(after =~= tiles.drop_last());
    } else {
        assert(after.drop_last() =~= tiles.drop_last().remove(i));
        assert(after.last() == tiles.last());
        lemma_total_value_remove(tiles.drop_last(), i);
    }
}

/// Where tile `k` of `tiles` stands after tile `i` has been taken away.
pub open spec fn index_after_removal(k: int, i: int) -> int {
    if k < i {
        k
    } else {
        k - 1
    }
}

/// A merge of two tiles of one value `v` conserves what is on the board: one
/// tile fewer, the survivor at its old spot with the value `2 * v`, which is
/// the sum of the two, every other tile as it was, and the same total.
///
/// A survivor that already holds [`MAX_TILE_VALUE`] cannot grow, so the law
/// is stated below that value.
pub proof fn lemma_merge_conserves(tiles: Seq<Tile>, i: int, j: int)
    requires
        0 <= i < tiles.len(),
        0 <= j < tiles.len(),
        i != j,
        tiles[i].val == tiles[j].val,
        tiles[j].val < MAX_TILE_VALUE,
    ensures
        merge_into(tiles, i, j).len() == tiles.len() - 1,
        merge_into(tiles, i, j)[index_after_removal(j, i)] == (Tile {
            val: tiles[i].val + tiles[j].val,
            ..tiles[j]
        }),
        merge_into(tiles, i, j)[index_after_removal(j, i)].val == 2 * tiles[j].val,
        forall|k: int|
            0 <= k < tiles.len() && k != i && k != j ==> merge_into(
                tiles,
                i,
                j,
            )[index_after_removal(k, i)] == #[trigger] tiles[k],
        total_value(merge_into(tiles, i, j)) == total_value(tiles),
{
    let grown = tiles.update(j, tiles[j].grown());
    lemma_total_value_update(tiles, j, tiles[j].grown());
    lemma_total_value_remove(grown, i);
}

/// Every merge takes exactly one tile off the board, whatever the values.
pub proof fn lemma_merge_takes_one(tiles: Seq<Tile>, i: int, j: int)
    requires
        0 <= i < tiles.len(),
        0 <= j < tiles.len(),
    ensures
        merge_into(tiles, i, j).len() == tiles.len() - 1,
{
}

/// Whether none of the first `i` tiles overlaps any other tile.
pub open spec fn apart_before(tiles: Seq<Tile>, i: int) -> bool {
    forall|m: int, k: int|
        0 <= m < i && 0 <= k < tiles.len() && m != k ==> !(#[trigger] tiles[m]).overlaps(
            #[trigger] tiles[k],
        )
}

/// Whether no two tiles overlap.
pub open spec fn all_apart(tiles: Seq<Tile>) -> bool {
    apart_before(tiles, tiles.len() as int)
}

/// The scan leaves no two tiles overlapping: what it has passed overlaps
/// nothing, and it passes a tile only when that tile overlaps nothing.
pub proof fn lemma_merged_from_apart(tiles: Seq<Tile>, i: int)
    requires
        0 <= i <= tiles.len(),
        apart_before(tiles, i),
    ensures
        all_apart(merged_from(tiles, i)),
    decreases tiles.len() - i,
{
    if i < tiles.len() {
        let j = first_overlap(tiles, i);
        lemma_overlap_from(tiles, i, 0);
        if 0 <= j < tiles.len() {
            let next = merge_into(tiles, i, j);
            let grown = tiles.update(j, tiles[j].grown());
            assert(j > i) by {
                if j < i {
                    assert(!tiles[j].overlaps(tiles[i]));
                }
            }
            assert forall|m: int, k: int| 0 <= m < i && 0 <= k < next.len() && m != k implies !(
            #[trigger] next[m]).overlaps(#[trigger] next[k]) by {
                let from = if k < i {
                    k
                } else {
                    k + 1
                };
                assert(next[m] == tiles[m]);
                assert(next[k] == grown[from]);
                assert(!tiles[m].overlaps(tiles[from]));
            }
            lemma_merged_from_apart(next, i);
        } else {
            assert forall|m: int, k: int|
                0 <= m < i + 1 && 0 <= k < tiles.len() && m != k implies !(
            #[trigger] tiles[m]).overlaps(#[trigger] tiles[k]) by {
                if m == i {
                    assert(!tiles[k].overlaps(tiles[i]));
                }
            }
            lemma_merged_from_apart(tiles, i + 1);
        }
    }
}

/// After all merges of one settling no two tiles overlap.
pub proof fn lemma_merged_apart(tiles: Seq<Tile>)
    ensures
        all_apart(merged(tiles)),
{
    lemma_merged_from_apart(tiles, 0);
}

/// Whether tiles overlap in pairs of one value only: two tiles that overlap
/// have the same value, below [`MAX_TILE_VALUE`], and no tile overlaps two
/// others.
pub open spec fn pairs_match(tiles: Seq<Tile>) -> bool {
    &&& forall|i: int, j: int|
        #![trigger tiles[i].overlaps(tiles[j])]
        0 <= i < tiles.len() && 0 <= j < tiles.len() && i != j && tiles[i].overlaps(tiles[j])
            ==> tiles[i].val == tiles[j].val && tiles[j].val < MAX_TILE_VALUE
    &&& forall|i: int, j: int, k: int|
        #![trigger tiles[i].overlaps(tiles[j]), tiles[i].overlaps(tiles[k])]
        0 <= i < tiles.len() && 0 <= j < tiles.len() && 0 <= k < tiles.len() && i != j && i != k
            && j != k ==> !(tiles[i].overlaps(tiles[j]) && tiles[i].overlaps(tiles[k]))
}

/// Tiles that overlap in pairs of one value only still do once tile `i` has
/// merged into tile `j`: the tile that has grown overlaps nothing any more.
proof fn lemma_pairs_match_after_merge(tiles: Seq<Tile>, i: int, j: int)
    requires
        pairs_match(tiles),
        0 <= i < tiles.len(),
        0 <= j < tiles.len(),
        i != j,
        tiles[j].overlaps(tiles[i]),
    ensures
        pairs_match(merge_into(tiles, i, j)),
{
    let next = merge_into(tiles, i, j);
    let grown = tiles.update(j, tiles[j].grown());
    assert(next.len() == tiles.len() - 1);
    assert forall|a: int, b: int|
        #![trigger next[a].overlaps(next[b])]
        0 <= a < next.len() && 0 <= b < next.len() && a != b && next[a].overlaps(
            next[b],
        ) implies next[a].val == next[b].val && next[b].val < MAX_TILE_VALUE by {
        let from_a = if a < i {
            a
        } else {
            a + 1
        };
        let from_b = if b < i {
            b
        } else {
            b + 1
        };
        assert(next[a] == grown[from_a]);
        assert(next[b] == grown[from_b]);
        assert(tiles[from_a].overlaps(tiles[from_b]));
        assert(tiles[from_b].overlaps(tiles[from_a]));
        if from_a == j {
            assert(!(tiles[j].overlaps(tiles[i]) && tiles[j].overlaps(tiles[from_b])));
        }
        if from_b == j {
            assert(!(tiles[j].overlaps(tiles[i]) && tiles[j].overlaps(tiles[from_a])));
        }
    }
    assert forall|a: int, b: int, c: int|
        #![trigger next[a].overlaps(next[b]), next[a].overlaps(next[c])]
        0 <= a < next.len() && 0 <= b < next.len() && 0 <= c < next.len() && a != b && a != c
            && b != c implies !(next[a].overlaps(next[b]) && next[a].overlaps(next[c])) by {
        let from_a = if a < i {
            a
        } else {
            a + 1
        };
        let from_b = if b < i {
            b
        } else {
            b + 1
        };
        let from_c = if c < i {
            c
        } else {
            c + 1
        };
        assert(next[a] == grown[from_a]);
        assert(next[b] == grown[from_b]);
        assert(next[c] == grown[from_c]);
        assert(!(tiles[from_a].overlaps(tiles[from_b]) && tiles[from_a].overlaps(tiles[from_c])));
    }
}

/// Where tiles overlap in pairs of one value only, the scan conserves the
/// sum of the values: every merge puts the sum of two tiles on one.
pub proof fn lemma_merged_from_total(tiles: Seq<Tile>, i: int)
    requires
        0 <= i,
        pairs_match(tiles),
    ensures
        total_value(merged_from(tiles, i)) == total_value(tiles),
    decreases tiles.len() - i,
{
    if i < tiles.len() {
        let j = first_overlap(tiles, i);
        lemma_overlap_from(tiles, i, 0);
        if 0 <= j < tiles.len() {
            assert(tiles[i].overlaps(tiles[j])) by {
                assert(tiles[j].overlaps(tiles[i]));
            }
            lemma_merge_conserves(tiles, i, j);
            lemma_pairs_match_after_merge(tiles, i, j);
            lemma_merged_from_total(merge_into(tiles, i, j), i);
        } else {
            lemma_merged_from_total(tiles, i + 1);
        }
    }
}

/// Whether a tile later in the list overlaps tile `i`. Such a tile `i` is
/// the one of the two that merging takes off the board.
pub open spec fn has_later_twin(tiles: Seq<Tile>, i: int) -> bool {
    exists|j: int| i < j < tiles.len() && (#[trigger] tiles[j]).overlaps(tiles[i])
}

/// The number of tiles from index `i` on that a later tile overlaps. Where
/// tiles overlap in pairs only, this is the number of pairs from `i` on.
pub open spec fn twins_from(tiles: Seq<Tile>, i: int) -> int
    decreases tiles.len() - i,
{
    if i < 0 || i >= tiles.len() {
        0
    } else if has_later_twin(tiles, i) {
        1 + twins_from(tiles, i + 1)
    } else {
        twins_from(tiles, i + 1)
    }
}

/// The number of tiles that a later tile overlaps: the number of merges that
/// are due.
pub open spec fn twins(tiles: Seq<Tile>) -> int {
    twins_from(tiles, 0)
}

/// Taking tile `i` away, whatever values the others have by then, leaves the
/// tiles behind it with the later twins they had.
proof fn lemma_twins_after_removal(tiles: Seq<Tile>, next: Seq<Tile>, i: int, m: int)
    requires
        0 <= i < tiles.len(),
        i <= m,
        next.len() == tiles.len() - 1,
        forall|k: int|
            i <= k < next.len() ==> (#[trigger] next[k]).x == tiles[k + 1].x && next[k].y
                == tiles[k + 1].y,
    ensures
        twins_from(next, m) == twins_from(tiles, m + 1),
    decreases tiles.len() - m,
{
    if m < next.len() {
        lemma_twins_after_removal(tiles, next, i, m + 1);
        if has_later_twin(next, m) {
            let j = choose|j: int| m < j < next.len() && (#[trigger] next[j]).overlaps(next[m]);
            assert(tiles[j + 1].overlaps(tiles[m + 1]));
        }
        if has_later_twin(tiles, m + 1) {
            let j = choose|j: int|
                m + 1 < j < tiles.len() && (#[trigger] tiles[j]).overlaps(tiles[m + 1]);
            assert(next[j - 1].overlaps(next[m]));
        }
    }
}

/// The scan takes one tile off the board for every tile that a later tile
/// overlaps, and no other.
pub proof fn lemma_merged_from_count(tiles: Seq<Tile>, i: int)
    requires
        0 <= i <= tiles.len(),
        apart_before(tiles, i),
    ensures
        merged_from(tiles, i).len() == tiles.len() - twins_from(tiles, i),
    decreases tiles.len() - i,
{
    if i < tiles.len() {
        let j = first_overlap(tiles, i);
        lemma_overlap_from(tiles, i, 0);
        if 0 <= j < tiles.len() {
            let next = merge_into(tiles, i, j);
            let grown = tiles.update(j, tiles[j].grown());
            assert(j > i) by {
                if j < i {
                    assert(!tiles[j].overlaps(tiles[i]));
                }
            }
            assert(has_later_twin(tiles, i));
            assert forall|k: int| 0 <= k < next.len() implies (#[trigger] next[k]).x == tiles[if k
                < i {
                k
            } else {
                k + 1
            }].x && next[k].y == tiles[if k < i {
                k
            } else {
                k + 1
            }].y by {
                let from = if k < i {
                    k
                } else {
                    k + 1
                };
                assert(next[k] == grown[from]);
            }
            assert forall|m: int, k: int| 0 <= m < i && 0 <= k < next.len() && m != k implies !(
            #[trigger] next[m]).overlaps(#[trigger] next[k]) by {
                let from = if k < i {
                    k
                } else {
                    k + 1
                };
                assert(!tiles[m].overlaps(tiles[from]));
            }
            lemma_twins_after_removal(tiles, next, i, i);
            lemma_merged_from_count(next, i);
        } else {
            assert(!has_later_twin(tiles, i)) by {
                if has_later_twin(tiles, i) {
                    let k = choose|k: int|
                        i < k < tiles.len() && (#[trigger] tiles[k]).overlaps(tiles[i]);
                    assert(!tiles[k].overlaps(tiles[i]));
                }
            }
            assert forall|m: int, k: int|
                0 <= m < i + 1 && 0 <= k < tiles.len() && m != k implies !(
            #[trigger] tiles[m]).overlaps(#[trigger] tiles[k]) by {
                if m == i {
                    assert(!tiles[k].overlaps(tiles[i]));
                }
            }
            lemma_merged_from_count(tiles, i + 1);
        }
    }
}

/// Merging takes exactly as many tiles off the board as there are tiles that
/// a later tile overlaps: one for every pair where tiles overlap in pairs.
pub proof fn lemma_merged_count(tiles: Seq<Tile>)
    ensures
        merged(tiles).len() == tiles.len() - twins(tiles),
        0 <= twins(tiles) <= tiles.len(),
{
    lemma_merged_from_count(tiles, 0);
    lemma_twins_bounds(tiles, 0);
}

/// There are no more later twins than tiles.
pub proof fn lemma_twins_bounds(tiles: Seq<Tile>, i: int)
    requires
        0 <= i <= tiles.len(),
    ensures
        0 <= twins_from(tiles, i) <= tiles.len() - i,
    decreases tiles.len() - i,
{
    if i < tiles.len() {
        lemma_twins_bounds(tiles, i + 1);
    }
}

/// The sum of the values depends on the values alone.
pub proof fn lemma_total_by_values(a: Seq<Tile>, b: Seq<Tile>)
    requires
        a.len() == b.len(),
        forall|k: int| 0 <= k < a.len() ==> (#[trigger] a[k]).val == b[k].val,
    ensures
        total_value(a) == total_value(b),
    decreases a.len(),
{
    if a.len() > 0 {
        assert forall|k: int| 0 <= k < a.drop_last().len() implies (#[trigger] a.drop_last()[k]).val
            == b.drop_last()[k].val by {
            assert(a[k].val == b[k].val);
        }
        lemma_total_by_values(a.drop_last(), b.drop_last());
        assert(a.last().val == b.last().val) by {
            assert(a[a.len() - 1].val == b[a.len() - 1].val);
        }
    }
}

/// A tile put at the end adds its value to the sum.
pub proof fn lemma_total_push(tiles: Seq<Tile>, t: Tile)
    ensures
        total_value(tiles.push(t)) == total_value(tiles) + t.val,
{
    assert(tiles.push(t).drop_last() =~= tiles);
}

/// Whether no tile overlaps two others.
pub open spec fn exclusive(tiles: Seq<Tile>) -> bool {
    forall|i: int, j: int, k: int|
        #![trigger tiles[i].overlaps(tiles[j]), tiles[i].overlaps(tiles[k])]
        0 <= i < tiles.len() && 0 <= j < tiles.len() && 0 <= k < tiles.len() && i != j && i != k
            && j != k ==> !(tiles[i].overlaps(tiles[j]) && tiles[i].overlaps(tiles[k]))
}

/// Whether one of the tiles from index `lo` up to, and without, index `m`
/// overlaps tile `m`.
pub open spec fn has_twin_between(tiles: Seq<Tile>, lo: int, m: int) -> bool {
    exists|k: int| lo <= k < m && 0 <= k < tiles.len() && (#[trigger] tiles[k]).overlaps(tiles[m])
}

/// Whether a tile earlier in the list overlaps tile `m`. Such a tile `m` is
/// the one of the two that survives the merge.
pub open spec fn has_earlier_twin(tiles: Seq<Tile>, m: int) -> bool {
    has_twin_between(tiles, 0, m)
}

/// What tile `m` is after the merges among the tiles from index `lo` on: grown
/// where one of them has merged into it, else as it was.
pub open spec fn kept(tiles: Seq<Tile>, lo: int, m: int) -> Tile {
    if has_twin_between(tiles, lo, m) {
        tiles[m].grown()
    } else {
        tiles[m]
    }
}

/// The tiles from index `m` on as merging among the tiles from index `lo` on
/// leaves them, said tile by tile: a tile that a later tile overlaps is gone,
/// every other tile is there, in its place in the order, as [`kept`] has it.
pub open spec fn settled_from(tiles: Seq<Tile>, lo: int, m: int) -> Seq<Tile>
    decreases tiles.len() - m,
{
    if m < 0 || m >= tiles.len() {
        Seq::empty()
    } else if has_later_twin(tiles, m) {
        settled_from(tiles, lo, m + 1)
    } else {
        seq![kept(tiles, lo, m)] + settled_from(tiles, lo, m + 1)
    }
}

/// The tiles as merging leaves them, said tile by tile: of two tiles that
/// overlap the earlier one is gone and the later one has grown; every other
/// tile is as it was.
pub open spec fn settled(tiles: Seq<Tile>) -> Seq<Tile> {
    settled_from(tiles, 0, 0)
}

/// A tile that overlaps nothing makes no difference to what becomes of the
/// tiles behind it.
proof fn lemma_settled_without(tiles: Seq<Tile>, i: int, m: int)
    requires
        0 <= i < m,
        i < tiles.len(),
        forall|k: int| 0 <= k < tiles.len() && k != i ==> !(#[trigger] tiles[k]).overlaps(tiles[i]),
    ensures
        settled_from(tiles, i, m) == settled_from(tiles, i + 1, m),
    decreases tiles.len() - m,
{
    if m < tiles.len() {
        lemma_settled_without(tiles, i, m + 1);
        if has_twin_between(tiles, i, m) {
            let k = choose|k: int|
                i <= k < m && 0 <= k < tiles.len() && (#[trigger] tiles[k]).overlaps(tiles[m]);
            if k == i {
                assert(tiles[m].overlaps(tiles[i]));
            }
            assert(has_twin_between(tiles, i + 1, m));
        }
        if has_twin_between(tiles, i + 1, m) {
            let k = choose|k: int|
                i + 1 <= k < m && 0 <= k < tiles.len() && (#[trigger] tiles[k]).overlaps(tiles[m]);
            assert(has_twin_between(tiles, i, m));
        }
    }
}

/// Once tile `i` has merged into tile `j`, the tiles behind `i` become what
/// they would have become with `i` still there.
proof fn lemma_settled_after_merge(tiles: Seq<Tile>, i: int, j: int, m: int)
    requires
        exclusive(tiles),
        0 <= i < j < tiles.len(),
        tiles[j].overlaps(tiles[i]),
        i <= m,
    ensures
        settled_from(merge_into(tiles, i, j), i, m) == settled_from(tiles, i, m + 1),
    decreases tiles.len() - m,
{
    let next = merge_into(tiles, i, j);
    let grown = tiles.update(j, tiles[j].grown());
    assert(next.len() == tiles.len() - 1);
    if m < next.len() {
        lemma_settled_after_merge(tiles, i, j, m + 1);
        assert forall|k: int| i <= k < next.len() implies (#[trigger] next[k]).x == tiles[k + 1].x
            && next[k].y == tiles[k + 1].y by {
            assert(next[k] == grown[k + 1]);
        }
        assert(next[m] == grown[m + 1]);
        assert(tiles[i].overlaps(tiles[j]));
        // Later twins are the same.
        if has_later_twin(next, m) {
            let k = choose|k: int| m < k < next.len() && (#[trigger] next[k]).overlaps(next[m]);
            assert(tiles[k + 1].overlaps(tiles[m + 1]));
        }
        if has_later_twin(tiles, m + 1) {
            let k = choose|k: int|
                m + 1 < k < tiles.len() && (#[trigger] tiles[k]).overlaps(tiles[m + 1]);
            assert(next[k - 1].overlaps(next[m]));
        }
        assert(has_later_twin(next, m) == has_later_twin(tiles, m + 1));
        // Earlier twins are the same, but for the tile that has just grown.
        if has_twin_between(next, i, m) {
            let k = choose|k: int|
                i <= k < m && 0 <= k < next.len() && (#[trigger] next[k]).overlaps(next[m]);
            assert(tiles[k + 1].overlaps(tiles[m + 1]));
            assert(has_twin_between(tiles, i, m + 1));
            if m + 1 == j {
                assert(tiles[j].overlaps(tiles[k + 1]));
                assert(!(tiles[j].overlaps(tiles[i]) && tiles[j].overlaps(tiles[k + 1])));
            }
        }
        if has_twin_between(tiles, i, m + 1) && m + 1 != j {
            let k = choose|k: int|
                i <= k < m + 1 && 0 <= k < tiles.len() && (#[trigger] tiles[k]).overlaps(
                    tiles[m + 1],
                );
            if k == i {
                assert(tiles[i].overlaps(tiles[m + 1]));
                assert(!(tiles[i].overlaps(tiles[j]) && tiles[i].overlaps(tiles[m + 1])));
            }
            assert(next[k - 1].overlaps(next[m]));
            assert(has_twin_between(next, i, m));
        }
        if m + 1 == j {
            assert(has_twin_between(tiles, i, j));
            assert(!has_twin_between(next, i, m));
            assert(kept(next, i, m) == kept(tiles, i, m + 1));
        } else {
            assert(next[m] == tiles[m + 1]);
            assert(kept(next, i, m) == kept(tiles, i, m + 1));
        }
    }
}

/// The scan from index `i` on leaves the tiles it has passed as they are and
/// the others as [`settled_from`] says, where no tile overlaps two others.
pub proof fn lemma_merged_from_settled(tiles: Seq<Tile>, i: int)
    requires
        0 <= i <= tiles.len(),
        exclusive(tiles),
        apart_before(tiles, i),
    ensures
        merged_from(tiles, i) == tiles.take(i) + settled_from(tiles, i, i),
    decreases tiles.len() - i,
{
    if i < tiles.len() {
        let j = first_overlap(tiles, i);
        lemma_overlap_from(tiles, i, 0);
        if 0 <= j < tiles.len() {
            let next = merge_into(tiles, i, j);
            let grown = tiles.update(j, tiles[j].grown());
            assert(j > i) by {
                if j < i {
                    assert(!tiles[j].overlaps(tiles[i]));
                }
            }
            assert(has_later_twin(tiles, i));
            assert forall|a: int| 0 <= a < next.len() implies (#[trigger] next[a]).x == tiles[if a
                < i {
                a
            } else {
                a + 1
            }].x && next[a].y == tiles[if a < i {
                a
            } else {
                a + 1
            }].y by {
                let from = if a < i {
                    a
                } else {
                    a + 1
                };
                assert(next[a] == grown[from]);
            }
            assert forall|m: int, k: int| 0 <= m < i && 0 <= k < next.len() && m != k implies !(
            #[trigger] next[m]).overlaps(#[trigger] next[k]) by {
                let from = if k < i {
                    k
                } else {
                    k + 1
                };
                assert(!tiles[m].overlaps(tiles[from]));
            }
            assert forall|a: int, b: int, c: int|
                #![trigger next[a].overlaps(next[b]), next[a].overlaps(next[c])]
                0 <= a < next.len() && 0 <= b < next.len() && 0 <= c < next.len() && a != b && a
                    != c && b != c implies !(next[a].overlaps(next[b]) && next[a].overlaps(
                next[c],
            )) by {
                let from_a = if a < i {
                    a
                } else {
                    a + 1
                };
                let from_b = if b < i {
                    b
                } else {
                    b + 1
                };
                let from_c = if c < i {
                    c
                } else {
                    c + 1
                };
                assert(!(tiles[from_a].overlaps(tiles[from_b]) && tiles[from_a].overlaps(
                    tiles[from_c],
                )));
            }
            lemma_merged_from_settled(next, i);
            lemma_settled_after_merge(tiles, i, j, i);
            assert(next.take(i) =~= tiles.take(i));
        } else {
            assert forall|k: int| 0 <= k < tiles.len() && k != i implies !(
            #[trigger] tiles[k]).overlaps(tiles[i]) by {}
            assert(!has_later_twin(tiles, i)) by {
                if has_later_twin(tiles, i) {
                    let k = choose|k: int|
                        i < k < tiles.len() && (#[trigger] tiles[k]).overlaps(tiles[i]);
                    assert(!tiles[k].overlaps(tiles[i]));
                }
            }
            assert(!has_twin_between(tiles, i, i));
            assert forall|m: int, k: int|
                0 <= m < i + 1 && 0 <= k < tiles.len() && m != k implies !(
            #[trigger] tiles[m]).overlaps(#[trigger] tiles[k]) by {
                if m == i {
                    assert(!tiles[k].overlaps(tiles[i]));
                }
            }
            lemma_merged_from_settled(tiles, i + 1);
            if i + 1 <= tiles.len() {
                lemma_settled_without(tiles, i, i + 1);
            }
            assert(tiles.take(i) + (seq![tiles[i]] + settled_from(tiles, i, i + 1))
                =~= tiles.take(i + 1) + settled_from(tiles, i + 1, i + 1));
        }
    } else {
        assert(tiles.take(i) + settled_from(tiles, i, i) =~= tiles);
    }
}

/// Where no tile overlaps two others, merging leaves the tiles as
/// [`settled`] says, tile by tile.
pub proof fn lemma_merged_is_settled(tiles: Seq<Tile>)
    requires
        exclusive(tiles),
    ensures
        merged(tiles) == settled(tiles),
{
    lemma_merged_from_settled(tiles, 0);
    assert(tiles.take(0) + settled_from(tiles, 0, 0) =~= settled_from(tiles, 0, 0));
}

/// Finds the first other tile that overlaps tile `i`.
pub fn find_overlap(list: &Vec<GameTile>, i: usize) -> (j: usize)
    requires
        i < list.len(),
    ensures
        j == first_overlap(tiles_of(list@), i as int),
        j <= list.len(),
        j != i,
{
    let ghost tiles = tiles_of(list@);
    let me: GameTile = list[i];
    let mut k: usize = 0;
    while k < list.len()
        invariant
            k <= list.len(),
            i < list.len(),
            tiles == tiles_of(list@),
            me@ == tiles[i as int],
            overlap_from(tiles, i as int, k as int) == first_overlap(tiles, i as int),
        decreases list.len() - k,
    {
        let other: GameTile = list[k];
        assert(other@ == tiles[k as int]);
        if k != i && other.overlaps(&me) {
            return k;
        }
        k += 1;
    }
    k
}

/// Folds overlapping tiles into one another, scanning the list from its start.
/// Afterwards no two tiles overlap.
pub fn resolve_merges(list: &mut Vec<GameTile>)
    ensures
        tiles_of(final(list)@) == merged(tiles_of(old(list)@)),
        all_apart(tiles_of(final(list)@)),
{
    proof {
        lemma_merged_apart(tiles_of(list@));
    }
    let mut i: usize = 0;
    while i < list.len()
        invariant
            i <= list.len(),
            merged_from(tiles_of(list@), i as int) == merged(tiles_of(old(list)@)),
        decreases list.len() - i,
    {
        let ghost before = tiles_of(list@);
        let j: usize = find_overlap(list, i);
        if j < list.len() {
            let survivor: GameTile = list[j].grown();
            assert(list@[j as int]@ == before[j as int]);
            list.set(j, survivor);
            list.remove(i);
            assert(tiles_of(list@) =~= merge_into(before, i as int, j as int));
        } else {
            i += 1;
        }
    }
}

} // verus!
