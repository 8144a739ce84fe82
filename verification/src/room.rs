//! Room on the board: how many cells are free. A board at rest has every
//! tile on a cell of its own, so that it holds sixteen tiles at most and has
//! room exactly as long as it holds fewer.

use crate::board::{cell_free, room_on};
use crate::grid::{cell_x, cell_y, is_cell_corner, COLUMNS, ROWS};
use crate::lanes::at_rest;
use crate::tile::Tile;
use vstd::prelude::*;

verus! {

/// The number of cells of the grid.
pub const CELLS: i32 = 16;

/// The free cells among the first `n` cells of the grid, counted row by row
/// from the top left: each as its column and its row, in that order.
pub open spec fn free_among(tiles: Seq<Tile>, n: int) -> Seq<(int, int)>
    decreases n,
{
    if n <= 0 {
        Seq::empty()
    } else {
        let earlier = free_among(tiles, n - 1);
        let col = (n - 1) % (COLUMNS as int);
        let row = (n - 1) / (COLUMNS as int);
        if cell_free(tiles, col, row) {
            earlier.push((col, row))
        } else {
            earlier
        }
    }
}

/// A free cell among the first `n` shows in the count of the free cells among
/// them.
pub proof fn lemma_free_cell_counts(tiles: Seq<Tile>, n: int, col: int, row: int)
    requires
        0 <= n <= CELLS,
        0 <= col < COLUMNS,
        0 <= row < ROWS,
        row * COLUMNS + col < n,
        cell_free(tiles, col, row),
    ensures
        free_among(tiles, n).len() > 0,
    decreases n,
{
    if row * COLUMNS + col < n - 1 {
        lemma_free_cell_counts(tiles, n - 1, col, row);
    }
}

/// Every cell that is counted as free is a free cell of the grid.
pub proof fn lemma_counted_cell_is_free(tiles: Seq<Tile>, n: int, k: int)
    requires
        0 <= n <= CELLS,
        0 <= k < free_among(tiles, n).len(),
    ensures
        0 <= free_among(tiles, n)[k].0 < COLUMNS,
        0 <= free_among(tiles, n)[k].1 < ROWS,
        cell_free(tiles, free_among(tiles, n)[k].0, free_among(tiles, n)[k].1),
    decreases n,
{
    if n > 0 {
        let earlier = free_among(tiles, n - 1);
        if k < earlier.len() {
            lemma_counted_cell_is_free(tiles, n - 1, k);
        }
    }
}

/// The board has room exactly when the count of its free cells is not zero.
pub proof fn lemma_room_is_counted(tiles: Seq<Tile>)
    ensures
        room_on(tiles) <==> free_among(tiles, CELLS as int).len() > 0,
{
    if room_on(tiles) {
        let (col, row) = choose|col: int, row: int|
            0 <= col < COLUMNS && 0 <= row < ROWS && #[trigger] cell_free(tiles, col, row);
        lemma_free_cell_counts(tiles, CELLS as int, col, row);
    }
    if free_among(tiles, CELLS as int).len() > 0 {
        lemma_counted_cell_is_free(tiles, CELLS as int, 0);
        let cell = free_among(tiles, CELLS as int)[0];
        assert(cell_free(tiles, cell.0, cell.1));
    }
}

/// On an empty board every cell is free.
pub proof fn lemma_free_on_empty(n: int)
    requires
        0 <= n,
    ensures
        free_among(Seq::<Tile>::empty(), n).len() == n,
    decreases n,
{
    if n > 0 {
        lemma_free_on_empty(n - 1);
        assert(cell_free(Seq::<Tile>::empty(), (n - 1) % (COLUMNS as int), (n - 1) / (
        COLUMNS as int)));
    }
}

/// A tile put on a free cell takes exactly that cell from the free ones.
pub proof fn lemma_free_after_put(tiles: Seq<Tile>, t: Tile, col: int, row: int, n: int)
    requires
        0 <= n <= CELLS,
        0 <= col < COLUMNS,
        0 <= row < ROWS,
        cell_free(tiles, col, row),
        t.x == cell_x(col),
        t.y == cell_y(row),
    ensures
        free_among(tiles.push(t), n).len() == free_among(tiles, n).len() - if row * COLUMNS + col
            < n {
            1int
        } else {
            0int
        },
    decreases n,
{
    if n > 0 {
        lemma_free_after_put(tiles, t, col, row, n - 1);
        let more = tiles.push(t);
        let c = (n - 1) % (COLUMNS as int);
        let r = (n - 1) / (COLUMNS as int);
        if c == col && r == row {
            assert(more[tiles.len() as int] == t);
            assert(!cell_free(more, c, r));
        } else {
            assert(!(t.x == cell_x(c) && t.y == cell_y(r)));
            if cell_free(tiles, c, r) {
                assert forall|i: int| 0 <= i < more.len() implies !((#[trigger] more[i]).x
                    == cell_x(c) && more[i].y == cell_y(r)) by {
                    if i < tiles.len() {
                        assert(more[i] == tiles[i]);
                    }
                }
            } else {
                let i = choose|i: int|
                    0 <= i < tiles.len() && (#[trigger] tiles[i]).x == cell_x(c) && tiles[i].y
                        == cell_y(r);
                assert(more[i] == tiles[i]);
            }
            assert(cell_free(more, c, r) == cell_free(tiles, c, r));
        }
    }
}

/// On a board at rest the free cells and the tiles make up the grid: every
/// tile takes a cell of its own.
pub proof fn lemma_free_count_at_rest(tiles: Seq<Tile>)
    requires
        at_rest(tiles),
    ensures
        free_among(tiles, CELLS as int).len() + tiles.len() == CELLS,
    decreases tiles.len(),
{
    if tiles.len() == 0 {
        assert(tiles =~= Seq::<Tile>::empty());
        lemma_free_on_empty(CELLS as int);
    } else {
        let init = tiles.drop_last();
        let t = tiles.last();
        assert(tiles =~= init.push(t));
        assert forall|i: int| 0 <= i < init.len() implies (#[trigger] init[i]).arrived
            && is_cell_corner(init[i].x, init[i].y) by {
            assert(init[i] == tiles[i]);
        }
        assert forall|i: int, j: int|
            0 <= i < init.len() && 0 <= j < init.len() && i != j implies !(
        #[trigger] init[i]).same_spot(#[trigger] init[j]) by {
            assert(init[i] == tiles[i]);
            assert(init[j] == tiles[j]);
        }
        lemma_free_count_at_rest(init);
        assert(is_cell_corner(t.x, t.y));
        let (col, row) = choose|col: int, row: int|
            0 <= col < COLUMNS && 0 <= row < ROWS && t.x == #[trigger] cell_x(col) && t.y
                == #[trigger] cell_y(row);
        assert forall|i: int| 0 <= i < init.len() implies !((#[trigger] init[i]).x == cell_x(col)
            && init[i].y == cell_y(row)) by {
            assert(init[i] == tiles[i]);
            assert(!tiles[i].same_spot(tiles[tiles.len() - 1]));
        }
        assert(cell_free(init, col, row));
        lemma_free_after_put(init, t, col, row, CELLS as int);
    }
}

/// A board at rest holds sixteen tiles at most, and has room exactly as long
/// as it holds fewer.
pub proof fn lemma_room_at_rest(tiles: Seq<Tile>)
    requires
        at_rest(tiles),
    ensures
        tiles.len() <= CELLS,
        room_on(tiles) <==> tiles.len() < CELLS,
{
    lemma_free_count_at_rest(tiles);
    lemma_room_is_counted(tiles);
}

} // verus!
