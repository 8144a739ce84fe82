use slide2048::arrival::tile_at_target;
use slide2048::grid::Heading;
use slide2048::merge::{find_overlap, resolve_merges};
use slide2048::tile::GameTile;
use slide2048::tile_map::{
    advance_all, all_at_target, free_cells, gen_new_tile, is_cell_free, launch_all, put_tile,
    refresh, spawn_drawn, spot_free,
};

fn resting(val: i32, col: i32, row: i32) -> GameTile {
    let mut t = GameTile::new(val, Heading::Right);
    t.place(col, row);
    t
}

/// A tile that has left the cell in column `col` and row `row` towards the
/// right and has `steps` steps behind it.
fn on_its_way(val: i32, col: i32, row: i32, steps: usize) -> GameTile {
    let mut t = resting(val, col, row).launched(Heading::Right);
    for _ in 0..steps {
        t.advance();
    }
    t
}

fn spots(list: &Vec<GameTile>) -> Vec<(i32, i32, i32)> {
    list.iter().map(|t| (t.x(), t.y(), t.value())).collect()
}

#[test]
fn merging_leaves_tiles_apart_alone() {
    let mut list = vec![resting(2, 0, 0), resting(2, 1, 0), resting(4, 0, 1)];
    resolve_merges(&mut list);
    assert_eq!(spots(&list), vec![(0, 0, 2), (500, 0, 2), (0, 500, 4)]);
    let mut none: Vec<GameTile> = Vec::new();
    resolve_merges(&mut none);
    assert!(none.is_empty());
}

#[test]
fn merging_removes_the_earlier_tile_and_doubles_the_other() {
    let mut list = vec![on_its_way(2, 1, 0, 4), resting(2, 2, 0)];
    resolve_merges(&mut list);
    assert_eq!(spots(&list), vec![(1000, 0, 4)]);
    assert!(list[0].arrived());

    // The survivor is the one later in the list, wherever it stands.
    let mut list = vec![resting(2, 2, 0), on_its_way(2, 1, 0, 3)];
    resolve_merges(&mut list);
    assert_eq!(spots(&list), vec![(875, 0, 4)]);
    assert!(!list[0].arrived());
}

#[test]
fn merging_doubles_the_survivor_whatever_the_other_was_worth() {
    let mut list = vec![on_its_way(8, 1, 0, 2), resting(2, 2, 0)];
    resolve_merges(&mut list);
    assert_eq!(spots(&list), vec![(1000, 0, 4)]);
}

#[test]
fn merging_takes_the_first_tile_that_overlaps() {
    let mut list = vec![
        resting(16, 0, 3),
        on_its_way(2, 1, 0, 2),
        resting(32, 3, 3),
        resting(2, 2, 0),
        on_its_way(2, 1, 0, 3),
    ];
    // The second tile overlaps the fourth and the fifth; the fourth comes
    // first. The fourth, grown, then overlaps the fifth.
    resolve_merges(&mut list);
    assert_eq!(spots(&list), vec![(0, 1500, 16), (1500, 1500, 32), (875, 0, 4)]);
}

#[test]
fn merging_three_tiles_on_a_heap_leaves_the_last() {
    let mut list = vec![on_its_way(2, 0, 0, 1), on_its_way(2, 0, 0, 2), on_its_way(2, 0, 0, 3)];
    resolve_merges(&mut list);
    assert_eq!(spots(&list), vec![(375, 0, 4)]);
    let mut list = vec![on_its_way(4, 0, 0, 1), on_its_way(16, 0, 0, 2), on_its_way(64, 0, 0, 3)];
    resolve_merges(&mut list);
    assert_eq!(spots(&list), vec![(375, 0, 128)]);
}

#[test]
fn find_overlap_gives_the_first_other_tile_or_the_length() {
    let list = vec![
        resting(2, 0, 0),
        on_its_way(2, 1, 0, 1),
        resting(2, 2, 0),
        on_its_way(2, 1, 0, 2),
    ];
    assert_eq!(find_overlap(&list, 0), 4);
    assert_eq!(find_overlap(&list, 1), 2);
    assert_eq!(find_overlap(&list, 2), 1);
    assert_eq!(find_overlap(&list, 3), 1);
    let alone = vec![resting(2, 0, 0)];
    assert_eq!(find_overlap(&alone, 0), 1);
}

#[test]
fn free_cells_come_row_by_row() {
    let none: Vec<GameTile> = Vec::new();
    let all = free_cells(&none);
    assert_eq!(all.len(), 16);
    for row in 0..4 {
        for col in 0..4 {
            assert_eq!(all[(row * 4 + col) as usize], (col, row));
        }
    }
    let list = vec![resting(2, 0, 0), resting(2, 2, 1), resting(2, 3, 3)];
    let free = free_cells(&list);
    assert_eq!(
        free,
        vec![
            (1, 0),
            (2, 0),
            (3, 0),
            (0, 1),
            (1, 1),
            (3, 1),
            (0, 2),
            (1, 2),
            (2, 2),
            (3, 2),
            (0, 3),
            (1, 3),
            (2, 3)
        ]
    );
}

#[test]
fn a_tile_between_cells_takes_no_cell() {
    let list = vec![on_its_way(2, 1, 1, 1)];
    assert!(is_cell_free(&list, 1, 1));
    assert!(is_cell_free(&list, 2, 1));
    assert_eq!(free_cells(&list).len(), 16);
    let list = vec![resting(2, 1, 1)];
    assert!(!is_cell_free(&list, 1, 1));
    assert!(is_cell_free(&list, 1, 2));
    assert!(!spot_free(&list, &resting(64, 1, 1)));
    assert!(spot_free(&list, &resting(64, 2, 1)));
}

#[test]
fn all_at_target_looks_at_every_tile() {
    let none: Vec<GameTile> = Vec::new();
    assert!(all_at_target(&none));
    assert!(all_at_target(&vec![resting(2, 0, 0), resting(2, 1, 0)]));
    assert!(!all_at_target(&vec![resting(2, 0, 0), on_its_way(2, 1, 0, 0)]));
    assert!(!all_at_target(&vec![on_its_way(2, 1, 0, 0), resting(2, 0, 0)]));
}

#[test]
fn launch_all_turns_every_tile_and_sets_it_going() {
    let mut list = vec![resting(2, 0, 0), resting(4, 3, 2)];
    launch_all(&mut list, Heading::Up);
    assert_eq!(spots(&list), vec![(0, 0, 2), (1500, 1000, 4)]);
    for t in &list {
        assert_eq!(t.heading(), Heading::Up);
        assert!(!t.arrived());
    }
}

#[test]
fn advance_all_moves_the_tiles_that_have_not_stopped() {
    let mut list = vec![resting(2, 0, 0), on_its_way(4, 1, 2, 0), on_its_way(8, 0, 3, 5)];
    advance_all(&mut list);
    assert_eq!(spots(&list), vec![(0, 0, 2), (625, 1000, 4), (750, 1500, 8)]);
}

#[test]
fn refresh_marks_the_tiles_that_have_to_stop_and_keeps_the_marks() {
    let mut list = vec![
        on_its_way(2, 3, 0, 0),
        on_its_way(4, 2, 0, 0),
        on_its_way(2, 0, 1, 0),
        resting(2, 1, 2),
    ];
    assert!(tile_at_target(&mut list, Heading::Right, 0));
    assert!(tile_at_target(&mut list, Heading::Right, 1));
    assert!(!tile_at_target(&mut list, Heading::Right, 2));
    assert!(!tile_at_target(&mut list, Heading::Right, 3));
    let all = refresh(&mut list, Heading::Right);
    assert!(!all);
    assert!(list[0].arrived());
    assert!(list[1].arrived());
    assert!(!list[2].arrived());
    // Stopped before, and not set going again: still stopped.
    assert!(list[3].arrived());
    assert_eq!(spots(&list), vec![(1500, 0, 2), (1000, 0, 4), (0, 500, 2), (500, 1000, 2)]);

    let mut packed = vec![on_its_way(2, 3, 0, 0), on_its_way(4, 2, 0, 0)];
    assert!(refresh(&mut packed, Heading::Right));
}

#[test]
fn a_tile_stops_behind_two_stopped_tiles_of_its_own_value() {
    // The second tile has run into the first; the third stands behind both.
    let mut list = vec![on_its_way(2, 3, 0, 0), on_its_way(2, 2, 0, 4), on_its_way(2, 2, 0, 0)];
    assert!(tile_at_target(&mut list, Heading::Right, 0));
    assert!(tile_at_target(&mut list, Heading::Right, 1));
    assert!(tile_at_target(&mut list, Heading::Right, 2));
    // One step earlier the second tile still goes on, and so does the third.
    let mut list = vec![on_its_way(2, 3, 0, 0), on_its_way(2, 2, 0, 3), on_its_way(2, 1, 0, 3)];
    assert!(!tile_at_target(&mut list, Heading::Right, 1));
    assert!(!tile_at_target(&mut list, Heading::Right, 2));
}

#[test]
fn new_tile_takes_the_only_free_cell() {
    let mut list: Vec<GameTile> = Vec::new();
    for row in 0..4 {
        for col in 0..4 {
            if (col, row) != (2, 1) {
                list.push(resting(8, col, row));
            }
        }
    }
    gen_new_tile(&mut list, Heading::Down);
    assert_eq!(list.len(), 16);
    let fresh = list[15];
    assert_eq!((fresh.x(), fresh.y()), (1000, 500));
    assert!(fresh.value() == 2 || fresh.value() == 4);
    assert_eq!(fresh.heading(), Heading::Down);
    assert!(fresh.arrived());
    // No room is left: nothing appears.
    gen_new_tile(&mut list, Heading::Down);
    assert_eq!(list.len(), 16);
}

#[test]
fn new_tiles_fill_the_board_cell_by_cell() {
    let mut list: Vec<GameTile> = Vec::new();
    for n in 1..=16 {
        gen_new_tile(&mut list, Heading::Idle);
        assert_eq!(list.len(), n);
        for j in 0..n - 1 {
            assert!(!list[n - 1].same_spot(&list[j]));
        }
    }
    assert!(free_cells(&list).is_empty());
}

#[test]
fn put_tile_adds_the_tile_unless_its_spot_is_taken() {
    let mut list = vec![resting(2, 0, 0), resting(4, 1, 0)];
    assert!(!put_tile(&mut list, resting(8, 1, 0)));
    assert_eq!(spots(&list), vec![(0, 0, 2), (500, 0, 4)]);
    assert!(put_tile(&mut list, resting(8, 1, 1)));
    assert_eq!(spots(&list), vec![(0, 0, 2), (500, 0, 4), (500, 500, 8)]);
    // Only a tile on the very same spot is in the way.
    assert!(put_tile(&mut list, on_its_way(16, 0, 0, 1)));
    assert_eq!(list.len(), 4);
    assert_eq!(spots(&list)[3], (125, 0, 16));
}

fn flags(list: &Vec<GameTile>) -> Vec<bool> {
    list.iter().map(|t| t.arrived()).collect()
}

#[test]
fn a_tile_on_the_edge_is_marked_where_it_is() {
    let mut list = vec![on_its_way(2, 3, 0, 0)];
    assert_eq!(flags(&list), vec![false]);
    assert!(tile_at_target(&mut list, Heading::Right, 0));
    assert_eq!(flags(&list), vec![true]);
    assert_eq!(spots(&list), vec![(1500, 0, 2)]);
    assert_eq!(list[0].heading(), Heading::Right);
}

#[test]
fn looking_at_the_rear_tile_marks_the_front_tile_of_its_own_value() {
    let mut list = vec![on_its_way(2, 2, 0, 0), on_its_way(2, 3, 0, 0)];
    assert!(!tile_at_target(&mut list, Heading::Right, 0));
    assert_eq!(flags(&list), vec![false, true]);
    assert_eq!(spots(&list), vec![(1000, 0, 2), (1500, 0, 2)]);
}

#[test]
fn looking_at_the_rear_tile_marks_it_behind_a_tile_of_another_value() {
    let mut list = vec![on_its_way(2, 2, 0, 0), on_its_way(4, 3, 0, 0)];
    assert!(tile_at_target(&mut list, Heading::Right, 0));
    assert_eq!(flags(&list), vec![true, true]);
    assert_eq!(spots(&list), vec![(1000, 0, 2), (1500, 0, 4)]);
}

#[test]
fn looking_at_the_rear_tile_marks_it_behind_two_tiles_on_one_cell() {
    let mut list = vec![on_its_way(2, 2, 0, 0), on_its_way(2, 3, 0, 0), on_its_way(2, 3, 0, 0)];
    assert!(tile_at_target(&mut list, Heading::Right, 0));
    assert_eq!(flags(&list), vec![true, true, true]);
    assert_eq!(spots(&list), vec![(1000, 0, 2), (1500, 0, 2), (1500, 0, 2)]);
}

#[test]
fn looking_at_a_tile_marks_nothing_that_may_go_on_and_takes_no_mark_back() {
    // The first tile has a free way; the second was stopped before and has a
    // free way too; the third stands in another lane on the edge.
    let mut list = vec![on_its_way(2, 0, 0, 0), resting(4, 0, 1), on_its_way(8, 3, 2, 0)];
    assert!(!tile_at_target(&mut list, Heading::Right, 0));
    assert_eq!(flags(&list), vec![false, true, false]);
    assert!(!tile_at_target(&mut list, Heading::Right, 1));
    assert_eq!(flags(&list), vec![false, true, false]);
    assert!(tile_at_target(&mut list, Heading::Right, 2));
    assert_eq!(flags(&list), vec![false, true, true]);
    assert_eq!(spots(&list), vec![(0, 0, 2), (0, 500, 4), (1500, 1000, 8)]);
}

#[test]
fn looking_at_a_tile_marks_the_whole_chain_ahead_of_it() {
    let mut list = vec![
        on_its_way(2, 1, 0, 0),
        on_its_way(4, 2, 0, 0),
        on_its_way(8, 3, 0, 0),
        on_its_way(2, 0, 0, 0),
    ];
    assert!(tile_at_target(&mut list, Heading::Right, 0));
    // The tile behind was not asked about and is not ahead: it is left alone.
    assert_eq!(flags(&list), vec![true, true, true, false]);
}

#[test]
fn the_drawn_value_is_four_on_a_true_draw_and_two_on_a_false_one() {
    let mut list: Vec<GameTile> = Vec::new();
    spawn_drawn(&mut list, Heading::Right, true, 1, 2, 0);
    spawn_drawn(&mut list, Heading::Right, false, 3, 0, 0);
    assert_eq!(spots(&list), vec![(500, 1000, 4), (1500, 0, 2)]);
    for t in &list {
        assert!(t.arrived());
        assert_eq!(t.heading(), Heading::Right);
    }
}

#[test]
fn the_drawn_cell_is_taken_if_it_is_free_whatever_was_picked() {
    let mut list = vec![resting(8, 0, 0), resting(8, 1, 0)];
    spawn_drawn(&mut list, Heading::Up, false, 2, 3, 7);
    assert_eq!(spots(&list), vec![(0, 0, 8), (500, 0, 8), (1000, 1500, 2)]);
    assert_eq!(list[2].heading(), Heading::Up);
}

#[test]
fn a_taken_cell_gives_way_to_the_free_cell_that_was_picked() {
    // Free cells, row by row: (2,0), (3,0), (0,1), (1,1), ...
    for (pick, x, y) in [(0, 1000, 0), (1, 1500, 0), (2, 0, 500), (3, 500, 500), (13, 1500, 1500)] {
        let mut list = vec![resting(8, 0, 0), resting(8, 1, 0)];
        spawn_drawn(&mut list, Heading::Idle, true, 1, 0, pick);
        assert_eq!(spots(&list), vec![(0, 0, 8), (500, 0, 8), (x, y, 4)]);
    }
}

#[test]
fn nothing_is_drawn_onto_a_full_board() {
    let mut list: Vec<GameTile> = Vec::new();
    for row in 0..4 {
        for col in 0..4 {
            list.push(resting(16, col, row));
        }
    }
    let before = spots(&list);
    spawn_drawn(&mut list, Heading::Left, true, 2, 2, 0);
    assert_eq!(spots(&list), before);
}
