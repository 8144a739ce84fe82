//! The board that runs: it owns the tiles, takes the player's keys once per
//! frame, moves the tiles, merges them and lets new ones appear.

use crate::arrival::{
    all_headed, arrived, in_way, lemma_arrival_of_marked, lemma_marked_on, marked, same_body,
    tile_at_target, tiles_of,
};
use crate::board::{
    advanced_all, all_stopped, cell_free, launched_all, lemma_merged_from_sound,
    lemma_moved_in_order, lemma_spawn_is_tile, lemma_step_keeps_wf, refreshed_all, room_on,
    spawnable, Board,
};
use crate::chance::{random_below, random_ratio};
use crate::grid::{cell_x, cell_y, in_grid, Heading, COLUMNS, ROWS, TILE_SIZE};
use crate::keys::KeyStates;
use crate::lanes::{at_rest, lemma_tile_in_order};
use crate::merge::{resolve_merges, settled, total_value, twins};
use crate::order::{lemma_put_at_rest, lemma_spawn_at_rest};
use crate::room::{free_among, lemma_room_at_rest};
use crate::tally::{lemma_step_count, lemma_step_tiles, lemma_step_total};
use crate::tile::{is_tile_value, is_value, random_cell, GameTile, Tile, MAX_TILE_VALUE};
use vstd::arithmetic::power2::{lemma2_to64, pow2};
use vstd::prelude::*;

verus! {

/// Whether every tile of `list` has stopped.
pub fn all_at_target(list: &Vec<GameTile>) -> (r: bool)
    ensures
        r == all_stopped(tiles_of(list@)),
{
    let ghost tiles = tiles_of(list@);
    let mut i: usize = 0;
    while i < list.len()
        invariant
            i <= list.len(),
            tiles == tiles_of(list@),
            forall|k: int| 0 <= k < i ==> (#[trigger] tiles[k]).arrived,
        decreases list.len() - i,
    {
        let t: GameTile = list[i];
        assert(t@ == tiles[i as int]);
        if !t.arrived() {
            return false;
        }
        i += 1;
    }
    true
}

/// Sets every tile of `list` in motion towards `dir`.
pub fn launch_all(list: &mut Vec<GameTile>, dir: Heading)
    ensures
        tiles_of(final(list)@) == launched_all(tiles_of(old(list)@), dir),
{
    let ghost before = tiles_of(list@);
    let mut i: usize = 0;
    while i < list.len()
        invariant
            i <= list.len(),
            list.len() == before.len(),
            forall|k: int| 0 <= k < i ==> (#[trigger] list@[k])@ == before[k].launched(dir),
            forall|k: int| i <= k < list.len() ==> (#[trigger] list@[k])@ == before[k],
        decreases list.len() - i,
    {
        let t: GameTile = list[i].launched(dir);
        list.set(i, t);
        i += 1;
    }
    assert(tiles_of(list@) =~= launched_all(before, dir));
}

/// Moves every tile of `list` that has not stopped one step along its
/// heading.
pub fn advance_all(list: &mut Vec<GameTile>)
    requires
        forall|k: int|
            0 <= k < old(list).len() ==> (#[trigger] tiles_of(old(list)@)[k]).arrived || in_grid(
                tiles_of(old(list)@)[k].probe(),
            ),
    ensures
        tiles_of(final(list)@) == advanced_all(tiles_of(old(list)@)),
{
    let ghost before = tiles_of(list@);
    let mut i: usize = 0;
    while i < list.len()
        invariant
            i <= list.len(),
            list.len() == before.len(),
            forall|k: int| 0 <= k < before.len() ==> (#[trigger] before[k]).arrived || in_grid(
                before[k].probe(),
            ),
            forall|k: int| 0 <= k < i ==> (#[trigger] list@[k])@ == before[k].advanced(),
            forall|k: int| i <= k < list.len() ==> (#[trigger] list@[k])@ == before[k],
        decreases list.len() - i,
    {
        let mut t: GameTile = list[i];
        assert(t@ == before[i as int]);
        t.advance();
        list.set(i, t);
        i += 1;
    }
    assert(tiles_of(list@) =~= advanced_all(before));
}

/// Looks at the arrival of every tile of `list` again and marks the tiles
/// that have to stop. Tells whether every tile has stopped.
pub fn refresh(list: &mut Vec<GameTile>, dir: Heading) -> (all: bool)
    requires
        all_headed(tiles_of(old(list)@), dir),
    ensures
        tiles_of(final(list)@) == refreshed_all(tiles_of(old(list)@), dir),
        all == all_stopped(tiles_of(final(list)@)),
{
    let ghost before = tiles_of(list@);
    let n: usize = list.len();
    let mut i: usize = 0;
    while i < n
        invariant
            i <= n,
            n == list.len(),
            before.len() == n,
            all_headed(before, dir),
            marked(before, tiles_of(list@), dir),
            forall|k: int|
                0 <= k < i && arrived(before, dir, k) ==> (#[trigger] tiles_of(list@)[k]).arrived,
        decreases n - i,
    {
        let ghost so_far = tiles_of(list@);
        assert(all_headed(so_far, dir)) by {
            assert forall|k: int| 0 <= k < so_far.len() implies (#[trigger] so_far[k]).heading
                == dir by {
                assert(so_far[k].heading == before[k].heading);
            }
        }
        let stop: bool = tile_at_target(list, dir, i);
        proof {
            let now = tiles_of(list@);
            lemma_arrival_of_marked(before, so_far, dir, i as int);
            lemma_marked_on(before, so_far, now, dir);
            assert forall|k: int| 0 <= k < i + 1 && arrived(before, dir, k) implies (
            #[trigger] now[k]).arrived by {
                if k < i {
                    assert(so_far[k].arrived);
                }
            }
        }
        i += 1;
    }
    proof {
        let now = tiles_of(list@);
        assert forall|k: int| 0 <= k < now.len() implies #[trigger] now[k] == refreshed_all(
            before,
            dir,
        )[k] by {
            assert(same_body(before[k], now[k]));
        }
        assert(now =~= refreshed_all(before, dir));
    }
    all_at_target(list)
}

/// Whether no tile of `list` sits exactly on the cell in column `col` and
/// row `row`.
pub fn is_cell_free(list: &Vec<GameTile>, col: i32, row: i32) -> (r: bool)
    requires
        0 <= col < COLUMNS,
        0 <= row < ROWS,
    ensures
        r == cell_free(tiles_of(list@), col as int, row as int),
{
    let ghost tiles = tiles_of(list@);
    let x: i32 = col * TILE_SIZE;
    let y: i32 = row * TILE_SIZE;
    let mut i: usize = 0;
    while i < list.len()
        invariant
            i <= list.len(),
            tiles == tiles_of(list@),
            x == cell_x(col as int),
            y == cell_y(row as int),
            forall|k: int| 0 <= k < i ==> !((#[trigger] tiles[k]).x == x && tiles[k].y == y),
        decreases list.len() - i,
    {
        let t: GameTile = list[i];
        assert(t@ == tiles[i as int]);
        if t.x() == x && t.y() == y {
            return false;
        }
        i += 1;
    }
    true
}

/// The cells on which no tile of `list` sits, row by row, each as its column
/// and its row.
pub fn free_cells(list: &Vec<GameTile>) -> (cells: Vec<(i32, i32)>)
    ensures
        cells.len() == free_among(tiles_of(list@), COLUMNS * ROWS).len(),
        forall|k: int|
            0 <= k < cells.len() ==> ((#[trigger] cells[k]).0 as int, cells[k].1 as int)
                == free_among(tiles_of(list@), COLUMNS * ROWS)[k],
        forall|k: int|
            0 <= k < cells.len() ==> 0 <= (#[trigger] cells[k]).0 < COLUMNS && 0 <= cells[k].1
                < ROWS && cell_free(tiles_of(list@), cells[k].0 as int, cells[k].1 as int),
        cells.len() > 0 <==> room_on(tiles_of(list@)),
        cells.len() <= COLUMNS * ROWS,
{
    let ghost tiles = tiles_of(list@);
    let mut cells: Vec<(i32, i32)> = Vec::new();
    let mut n: i32 = 0;
    while n < COLUMNS * ROWS
        invariant
            0 <= n <= COLUMNS * ROWS,
            tiles == tiles_of(list@),
            cells.len() <= n,
            cells.len() == free_among(tiles, n as int).len(),
            forall|k: int|
                0 <= k < cells.len() ==> ((#[trigger] cells[k]).0 as int, cells[k].1 as int)
                    == free_among(tiles, n as int)[k],
            forall|k: int|
                0 <= k < cells.len() ==> 0 <= (#[trigger] cells[k]).0 < COLUMNS && 0 <= cells[k].1
                    < ROWS && cell_free(tiles, cells[k].0 as int, cells[k].1 as int),
            cells.len() == 0 ==> forall|c: int, r: int|
                0 <= c < COLUMNS && 0 <= r && r * COLUMNS + c < n ==> !#[trigger] cell_free(
                    tiles,
                    c,
                    r,
                ),
        decreases COLUMNS * ROWS - n,
    {
        let col: i32 = n % COLUMNS;
        let row: i32 = n / COLUMNS;
        if is_cell_free(list, col, row) {
            cells.push((col, row));
        }
        n += 1;
    }
    proof {
        if cells.len() > 0 {
            assert(cell_free(tiles, cells[0].0 as int, cells[0].1 as int));
        }
    }
    cells
}

/// Whether no tile of `list` sits exactly where `t` does.
pub fn spot_free(list: &Vec<GameTile>, t: &GameTile) -> (r: bool)
    ensures
        r == forall|k: int|
            0 <= k < list.len() ==> !(#[trigger] tiles_of(list@)[k]).same_spot(t@),
{
    let ghost tiles = tiles_of(list@);
    let mut i: usize = 0;
    while i < list.len()
        invariant
            i <= list.len(),
            tiles == tiles_of(list@),
            forall|k: int| 0 <= k < i ==> !(#[trigger] tiles[k]).same_spot(t@),
        decreases list.len() - i,
    {
        let other: GameTile = list[i];
        assert(other@ == tiles[i as int]);
        if other.same_spot(t) {
            return false;
        }
        i += 1;
    }
    true
}

/// Puts `t` among `list`, as its last tile, unless a tile of `list` sits
/// exactly where `t` does; says whether it did.
pub fn put_tile(list: &mut Vec<GameTile>, t: GameTile) -> (placed: bool)
    ensures
        placed == forall|k: int|
            0 <= k < old(list).len() ==> !(#[trigger] tiles_of(old(list)@)[k]).same_spot(t@),
        placed ==> tiles_of(final(list)@) == tiles_of(old(list)@).push(t@),
        !placed ==> final(list)@ == old(list)@,
{
    let ghost before = tiles_of(list@);
    if !spot_free(list, &t) {
        return false;
    }
    list.push(t);
    assert(tiles_of(list@) =~= before.push(t@));
    true
}

/// The tiles after a new tile has appeared for given draws.
///
/// The tile is a 4 where `four` was drawn, else a 2; it is headed for `dir`
/// and has stopped. It takes the cell that was drawn, in column `col` and row
/// `row`, if no tile sits on it, and else the free cell that `pick` counts to
/// ([`free_among`]). Where no cell is free no tile appears.
pub open spec fn spawned_with(
    tiles: Seq<Tile>,
    dir: Heading,
    four: bool,
    col: int,
    row: int,
    pick: int,
) -> Seq<Tile> {
    let val: int = if four {
        4
    } else {
        2
    };
    let free = free_among(tiles, COLUMNS * ROWS);
    if cell_free(tiles, col, row) {
        tiles.push(Tile::on_cell(val, dir, col, row))
    } else if 0 <= pick < free.len() {
        tiles.push(Tile::on_cell(val, dir, free[pick].0, free[pick].1))
    } else {
        tiles
    }
}

/// Lets the new tile appear that the draws call for: `four` says whether it is
/// a 4, `col` and `row` name the cell that was drawn among all the cells, and
/// `pick` the free cell that was drawn where a tile sits on that one.
pub fn spawn_drawn(
    list: &mut Vec<GameTile>,
    dir: Heading,
    four: bool,
    col: i32,
    row: i32,
    pick: usize,
)
    requires
        0 <= col < COLUMNS,
        0 <= row < ROWS,
        cell_free(tiles_of(old(list)@), col as int, row as int) || !room_on(tiles_of(old(list)@))
            || pick < free_among(tiles_of(old(list)@), COLUMNS * ROWS).len(),
    ensures
        tiles_of(final(list)@) == spawned_with(
            tiles_of(old(list)@),
            dir,
            four,
            col as int,
            row as int,
            pick as int,
        ),
        room_on(tiles_of(old(list)@)) ==> final(list)@.len() == old(list)@.len() + 1 && spawnable(
            tiles_of(old(list)@),
            dir,
            tiles_of(final(list)@).last(),
        ) && tiles_of(final(list)@) == tiles_of(old(list)@).push(tiles_of(final(list)@).last()),
        !room_on(tiles_of(old(list)@)) ==> final(list)@ == old(list)@,
{
    let ghost before = tiles_of(list@);
    let val: i32 = if four {
        4
    } else {
        2
    };
    proof {
        lemma2_to64();
        assert(val == pow2(1) || val == pow2(2));
    }
    let mut new_tile: GameTile = GameTile::new(val, dir);
    if is_cell_free(list, col, row) {
        new_tile.place(col, row);
        list.push(new_tile);
        proof {
            assert(tiles_of(list@) =~= before.push(new_tile@));
            assert(tiles_of(list@).last() == new_tile@);
            assert(spawnable(before, dir, new_tile@));
        }
    } else {
        let cells: Vec<(i32, i32)> = free_cells(list);
        if cells.len() > 0 {
            let cell: (i32, i32) = cells[pick];
            new_tile.place(cell.0, cell.1);
            list.push(new_tile);
            proof {
                assert(cell_free(before, cell.0 as int, cell.1 as int));
                assert(tiles_of(list@) =~= before.push(new_tile@));
                assert(tiles_of(list@).last() == new_tile@);
                assert(spawnable(before, dir, new_tile@));
            }
        }
    }
}

/// Lets a new tile appear among `list`: a 4 with a chance of one in ten, else
/// a 2, on a cell drawn at random among those on which no tile sits. A list
/// that leaves no such cell stays as it is.
///
/// The cell is first drawn among all the cells of the grid; where a tile sits
/// on it, it is drawn again among the free ones, so that every free cell is
/// as likely as any other. What appears for which draws is the business of
/// [`spawn_drawn`].
pub fn gen_new_tile(list: &mut Vec<GameTile>, dir: Heading)
    ensures
        room_on(tiles_of(old(list)@)) ==> exists|t: Tile| #[trigger]
            spawnable(tiles_of(old(list)@), dir, t) && tiles_of(final(list)@) == tiles_of(
                old(list)@,
            ).push(t),
        !room_on(tiles_of(old(list)@)) ==> final(list)@ == old(list)@,
{
    let four: bool = random_ratio(1, 10);
    let cell: (i32, i32) = random_cell();
    let mut pick: usize = 0;
    if !is_cell_free(list, cell.0, cell.1) {
        let free: usize = free_cells(list).len();
        if free > 0 {
            pick = random_below(free as i32) as usize;
        }
    }
    spawn_drawn(list, dir, four, cell.0, cell.1, pick);
}

/// Whether a tile of value `val` can be put on the cell in column `col` and
/// row `row` among `tiles`: the value is one a tile can have, the cell is one
/// of the grid, and no tile sits on it.
pub open spec fn can_put(tiles: Seq<Tile>, val: int, col: int, row: int) -> bool {
    &&& is_tile_value(val)
    &&& 0 <= col < COLUMNS
    &&& 0 <= row < ROWS
    &&& cell_free(tiles, col, row)
}

/// The board of the game.
pub struct TileMap {
    list: Vec<GameTile>,
    dir: Heading,
    done_moving: bool,
}

impl View for TileMap {
    type V = Board;

    closed spec fn view(&self) -> Board {
        Board { tiles: tiles_of(self.list@), dir: self.dir, settled: self.done_moving }
    }
}

impl TileMap {
    #[verifier::type_invariant]
    spec fn inv(self) -> bool {
        self@.wf()
    }

    /// An empty board on which no move has begun.
    pub fn new() -> (m: TileMap)
        ensures
            m@ == (Board { tiles: Seq::empty(), dir: Heading::Idle, settled: true }),
            m@.wf(),
    {
        let m = TileMap { list: Vec::new(), dir: Heading::Idle, done_moving: true };
        assert(m@.tiles =~= Seq::<Tile>::empty());
        m
    }

    /// Begins a game: the board is cleared, no move is in progress, and two
    /// tiles appear on two different cells.
    pub fn start(&mut self)
        ensures
            final(self)@.fresh(),
    {
        let mut list: Vec<GameTile> = Vec::new();
        let ghost none = tiles_of(list@);
        assert(none =~= Seq::<Tile>::empty());
        proof {
            assert(cell_free(none, 0, 0));
        }
        gen_new_tile(&mut list, Heading::Idle);
        let ghost one = tiles_of(list@);
        proof {
            let first = one[0];
            assert(one =~= seq![first]);
            assert(one == none.push(first));
            lemma_spawn_at_rest(none, Heading::Idle, first);
            if first.x == cell_x(0) && first.y == cell_y(0) {
                assert(cell_free(one, 1, 0));
            } else {
                assert(cell_free(one, 0, 0));
            }
        }
        gen_new_tile(&mut list, Heading::Idle);
        proof {
            let two = tiles_of(list@);
            let t1 = choose|t: Tile| #[trigger] spawnable(one, Heading::Idle, t) && two == one.push(t);
            lemma_spawn_is_tile(Board { tiles: none, dir: Heading::Idle, settled: true }, one[0]);
            lemma_spawn_is_tile(Board { tiles: one, dir: Heading::Idle, settled: true }, t1);
            lemma_spawn_at_rest(one, Heading::Idle, t1);
            assert(two[0] == one[0] && two[1] == t1);
            assert(at_rest(two));
            assert(!two[0].same_spot(two[1]));
        }
        *self = TileMap { list, dir: Heading::Idle, done_moving: true };
    }

    /// Runs the board for one frame.
    ///
    /// A board at rest takes the direction the keys ask for and sets its tiles
    /// in motion. A board in motion moves every tile that has not stopped by
    /// one step; when that stops the last tile, overlapping tiles merge and
    /// a new tile appears.
    pub fn update(&mut self, key_states: &KeyStates)
        ensures
            old(self)@.step_result(*key_states, final(self)@),
            final(self)@.wf(),
            old(self)@.tiles.len() > 0 ==> final(self)@.tiles.len() > 0,
            old(self)@.settles(*key_states) ==> old(self)@.moved(*key_states).merged().tiles
                == settled(old(self)@.moved(*key_states).tiles),
            final(self)@.tiles.len() == (if old(self)@.settles(*key_states) {
                old(self)@.tiles.len() - twins(old(self)@.moved(*key_states).tiles) + 1
            } else {
                old(self)@.tiles.len() as int
            }),
            (forall|k: int|
                0 <= k < old(self)@.tiles.len() ==> (#[trigger] old(self)@.tiles[k]).val
                    < MAX_TILE_VALUE) ==> total_value(final(self)@.tiles) == total_value(
                old(self)@.tiles,
            ) + (if old(self)@.settles(*key_states) {
                final(self)@.tiles.last().val
            } else {
                0
            }),
    {
        proof {
            use_type_invariant(&*self);
        }
        let ghost before = self@;
        proof {
            lemma_moved_in_order(before, *key_states);
        }
        let mut list: Vec<GameTile> = Vec::new();
        core::mem::swap(&mut self.list, &mut list);
        assert(tiles_of(list@) == before.tiles);
        let mut dir: Heading = self.dir;
        let mut done: bool = all_at_target(&list) || dir.is_idle();
        assert(done == before.at_ease());
        if done && key_states.any_movement() {
            dir = key_states.heading();
            launch_all(&mut list, dir);
            proof {
                let set_off = Board { tiles: tiles_of(list@), dir, settled: before.settled };
                assert forall|k: int| 0 <= k < set_off.tiles.len() implies (
                #[trigger] set_off.tiles[k]).heading == dir by {}
            }
            done = refresh(&mut list, dir);
        }
        let ghost steered = Board { tiles: tiles_of(list@), dir, settled: done };
        assert(steered == before.steered(*key_states));
        assert(steered.wf());
        if !done {
            advance_all(&mut list);
            proof {
                let stepped = Board { tiles: tiles_of(list@), dir, settled: done };
                assert forall|k: int| 0 <= k < stepped.tiles.len() implies (
                #[trigger] stepped.tiles[k]).heading == dir by {
                    assert(steered.tiles[k].heading == dir);
                }
            }
            done = refresh(&mut list, dir);
            let ghost moved = Board { tiles: tiles_of(list@), dir, settled: done };
            assert(moved == before.moved(*key_states));
            if done {
                resolve_merges(&mut list);
                let ghost merged = moved.merged();
                assert(tiles_of(list@) == merged.tiles);
                gen_new_tile(&mut list, dir);
                proof {
                    lemma_merged_from_sound(moved.tiles, dir, 0);
                    if merged.has_room() {
                        let t = choose|t: Tile| #[trigger]
                            spawnable(merged.tiles, dir, t) && tiles_of(list@)
                                == merged.tiles.push(t);
                        lemma_spawn_is_tile(merged, t);
                        let grown = merged.with_tile(t);
                        assert forall|k: int| 0 <= k < grown.tiles.len() implies (
                        #[trigger] grown.tiles[k]).heading == dir by {
                            if k < merged.tiles.len() {
                                assert(grown.tiles[k] == merged.tiles[k]);
                            }
                        }
                    }
                }
                done = refresh(&mut list, dir);
                proof {
                    let last = Board { tiles: tiles_of(list@), dir, settled: done };
                    if merged.has_room() {
                        let t = choose|t: Tile| #[trigger]
                            spawnable(merged.tiles, dir, t) && last == merged.with_tile(
                                t,
                            ).refreshed();
                        assert(merged.can_spawn(t) && last == merged.with_tile(t).refreshed());
                    } else {
                        assert(last == merged.refreshed());
                    }
                    assert(before.step_result(*key_states, last));
                }
            }
        }
        proof {
            let last = Board { tiles: tiles_of(list@), dir, settled: done };
            assert(before.step_result(*key_states, last));
            lemma_step_keeps_wf(before, *key_states, last);
            lemma_step_count(before, *key_states, last);
            if before.settles(*key_states) {
                lemma_step_tiles(before, *key_states);
            }
            if forall|k: int|
                0 <= k < before.tiles.len() ==> (#[trigger] before.tiles[k]).val < MAX_TILE_VALUE {
                lemma_step_total(before, *key_states, last);
            }
        }
        self.dir = dir;
        self.done_moving = done;
        self.list = list;
    }

    /// The greatest value on the board; zero on an empty board.
    pub fn get_score(&self) -> (score: i32)
        ensures
            self@.is_score(score as int),
    {
        let ghost tiles = tiles_of(self.list@);
        let mut best: i32 = 0;
        let mut i: usize = 0;
        while i < self.list.len()
            invariant
                i <= self.list.len(),
                tiles == tiles_of(self.list@),
                i == 0 ==> best == 0,
                i > 0 ==> exists|k: int| 0 <= k < i && (#[trigger] tiles[k]).val == best,
                forall|k: int| 0 <= k < i ==> (#[trigger] tiles[k]).val <= best,
            decreases self.list.len() - i,
        {
            let t: GameTile = self.list[i];
            assert(t@ == tiles[i as int]);
            let v: i32 = t.value();
            if i == 0 || v > best {
                best = v;
            }
            i += 1;
        }
        best
    }

    /// Whether the game is over: a tile sits on every cell of the grid and
    /// every tile has stopped.
    pub fn is_game_over(&self) -> (over: bool)
        ensures
            over == self@.game_over(),
    {
        let cells: Vec<(i32, i32)> = free_cells(&self.list);
        cells.len() == 0 && all_at_target(&self.list)
    }

    /// Puts a stopped tile of value `val` on the cell in column `col` and row
    /// `row`, as the last tile of the board, and says whether it did: it does
    /// so where every tile of the board has stopped, `val` is a value a tile
    /// can have, the cell is one of the grid, and no tile sits on it.
    pub fn place_tile(&mut self, val: i32, col: i32, row: i32) -> (placed: bool)
        ensures
            final(self)@.wf(),
            placed == (all_stopped(old(self)@.tiles) && can_put(
                old(self)@.tiles,
                val as int,
                col as int,
                row as int,
            )),
            placed ==> final(self)@ == old(self)@.with_tile(
                Tile::on_cell(val as int, old(self)@.dir, col as int, row as int),
            ),
            !placed ==> final(self)@ == old(self)@,
    {
        proof {
            use_type_invariant(&*self);
        }
        if !(is_value(val) && 0 <= col && col < COLUMNS && 0 <= row && row < ROWS) {
            return false;
        }
        if !all_at_target(&self.list) {
            return false;
        }
        let ghost before = self@;
        let mut t: GameTile = GameTile::new(val, self.dir);
        t.place(col, row);
        let mut list: Vec<GameTile> = Vec::new();
        core::mem::swap(&mut self.list, &mut list);
        let placed: bool = put_tile(&mut list, t);
        proof {
            if placed {
                let after = before.with_tile(t@);
                assert forall|k: int| 0 <= k < before.tiles.len() implies !((
                #[trigger] before.tiles[k]).x == cell_x(col as int) && before.tiles[k].y == cell_y(
                    row as int,
                )) by {
                    assert(!before.tiles[k].same_spot(t@));
                }
                lemma_put_at_rest(before.tiles, t@, col as int, row as int);
                assert(cell_free(before.tiles, col as int, row as int));
                lemma_room_at_rest(before.tiles);
                assert forall|i: int| 0 <= i < after.tiles.len() implies (
                #[trigger] after.tiles[i]).wf() && after.tiles[i].heading == after.dir
                    && after.tiles[i].arrived by {
                    if i < before.tiles.len() {
                        assert(after.tiles[i] == before.tiles[i]);
                    }
                }
                assert(after.wf());
            } else {
                let k = choose|k: int|
                    0 <= k < before.tiles.len() && (#[trigger] before.tiles[k]).same_spot(t@);
                assert(before.tiles[k].x == cell_x(col as int) && before.tiles[k].y == cell_y(
                    row as int,
                ));
            }
        }
        self.list = list;
        placed
    }

    /// The number of tiles on the board.
    pub fn len(&self) -> (n: usize)
        ensures
            n == self@.tiles.len(),
            self@.wf(),
    {
        proof {
            use_type_invariant(self);
        }
        self.list.len()
    }

    /// Tile number `i` of the board.
    pub fn tile(&self, i: usize) -> (t: GameTile)
        requires
            i < self@.tiles.len(),
        ensures
            t@ == self@.tiles[i as int],
    {
        self.list[i]
    }

    /// The direction of the move in progress, or of the last one.
    pub fn direction(&self) -> (dir: Heading)
        ensures
            dir == self@.dir,
    {
        self.dir
    }

    /// Whether the board was at rest when it was last run.
    pub fn is_settled(&self) -> (settled: bool)
        ensures
            settled == self@.settled,
    {
        self.done_moving
    }

    /// Whether tile number `i` has to stop where it is. What is found to have
    /// to stop on the way is marked as stopped; between frames those marks
    /// are all in place already, so that the board stays as it is.
    pub fn tile_at_target(&mut self, i: usize) -> (stop: bool)
        requires
            i < old(self)@.tiles.len(),
        ensures
            stop == arrived(old(self)@.tiles, old(self)@.dir, i as int),
            final(self)@ == old(self)@,
            final(self)@.wf(),
            stop ==> final(self)@.tiles[i as int].arrived,
            forall|j: int|
                #[trigger] in_way(old(self)@.tiles, old(self)@.dir, i as int, j) && arrived(
                    old(self)@.tiles,
                    old(self)@.dir,
                    j,
                ) ==> final(self)@.tiles[j].arrived,
    {
        proof {
            use_type_invariant(&*self);
        }
        let ghost before = self@;
        let mut list: Vec<GameTile> = Vec::new();
        core::mem::swap(&mut self.list, &mut list);
        let stop: bool = tile_at_target(&mut list, self.dir, i);
        proof {
            let now = tiles_of(list@);
            assert forall|k: int| 0 <= k < now.len() implies #[trigger] now[k]
                == before.tiles[k] by {
                assert(same_body(before.tiles[k], now[k]));
                if !all_stopped(before.tiles) {
                    lemma_tile_in_order(before.tiles, before.dir, k);
                }
            }
            assert(now =~= before.tiles);
        }
        self.list = list;
        stop
    }
}

} // verus!
