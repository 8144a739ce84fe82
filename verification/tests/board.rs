use slide2048::grid::{Heading, MOVE_SPEED, TILE_SIZE, W};
use slide2048::keys::KeyStates;
use slide2048::tile_map::TileMap;

fn press(up: bool, down: bool, right: bool, left: bool) -> KeyStates {
    let mut keys = KeyStates::new();
    keys.up = up;
    keys.down = down;
    keys.right = right;
    keys.left = left;
    keys
}

/// Runs the board with no key down until it is settled; gives the number of
/// frames that took.
fn run_until_settled(board: &mut TileMap) -> usize {
    let quiet = KeyStates::new();
    let mut frames = 0;
    while !board.is_settled() {
        board.update(&quiet);
        frames += 1;
        assert!(frames <= 12, "the board did not settle in time");
    }
    frames
}

fn assert_on_grid(board: &TileMap) {
    for i in 0..board.len() {
        let t = board.tile(i);
        assert!(0 <= t.x() && t.x() + TILE_SIZE <= W);
        assert!(0 <= t.y() && t.y() + TILE_SIZE <= W);
        assert_eq!(t.x() % MOVE_SPEED, 0);
        assert_eq!(t.y() % MOVE_SPEED, 0);
    }
}

fn assert_at_rest_on_cells(board: &TileMap) {
    for i in 0..board.len() {
        let a = board.tile(i);
        assert!(a.arrived());
        assert_eq!(a.x() % TILE_SIZE, 0);
        assert_eq!(a.y() % TILE_SIZE, 0);
        for j in 0..i {
            let b = board.tile(j);
            assert!(a.x() != b.x() || a.y() != b.y());
        }
    }
}

#[test]
fn new_board_is_empty_idle_and_settled() {
    let board = TileMap::new();
    assert_eq!(board.len(), 0);
    assert_eq!(board.direction(), Heading::Idle);
    assert!(board.is_settled());
    assert!(!board.is_game_over());
}

#[test]
fn score_of_two_four_eight_is_eight() {
    let mut board = TileMap::new();
    assert!(board.place_tile(2, 0, 0));
    assert!(board.place_tile(4, 1, 0));
    assert!(board.place_tile(8, 2, 0));
    assert_eq!(board.get_score(), 8);
}

#[test]
fn score_of_an_empty_board_is_zero() {
    let board = TileMap::new();
    assert_eq!(board.get_score(), 0);
}

#[test]
fn score_is_the_greatest_value_wherever_it_stands() {
    let mut board = TileMap::new();
    assert!(board.place_tile(64, 3, 3));
    assert!(board.place_tile(2, 0, 0));
    assert!(board.place_tile(16, 1, 2));
    assert_eq!(board.get_score(), 64);
}

#[test]
fn start_gives_two_tiles_on_different_cells() {
    let mut board = TileMap::new();
    for _ in 0..1000 {
        board.start();
        assert_eq!(board.len(), 2);
        assert_eq!(board.direction(), Heading::Idle);
        assert!(board.is_settled());
        assert_on_grid(&board);
        assert_at_rest_on_cells(&board);
        for i in 0..2 {
            let v = board.tile(i).value();
            assert!(v == 2 || v == 4);
            assert_eq!(board.tile(i).heading(), Heading::Idle);
        }
    }
}

#[test]
fn start_clears_what_was_on_the_board() {
    let mut board = TileMap::new();
    assert!(board.place_tile(8, 0, 0));
    assert!(board.place_tile(16, 1, 0));
    assert!(board.place_tile(32, 2, 0));
    board.update(&press(false, false, true, false));
    board.start();
    assert_eq!(board.len(), 2);
    assert_eq!(board.direction(), Heading::Idle);
    assert!(board.get_score() <= 4);
}

#[test]
fn new_tiles_are_mostly_twos() {
    let mut board = TileMap::new();
    let mut fours = 0;
    let mut all = 0;
    for _ in 0..5000 {
        board.start();
        for i in 0..board.len() {
            all += 1;
            if board.tile(i).value() == 4 {
                fours += 1;
            }
        }
    }
    assert_eq!(all, 10000);
    // One in ten is a 4: far more than 600 and far fewer than 1400 of 10000.
    assert!(fours > 600, "{} fours", fours);
    assert!(fours < 1400, "{} fours", fours);
}

#[test]
fn every_cell_is_reached_by_new_tiles() {
    let mut board = TileMap::new();
    let mut seen = [[false; 4]; 4];
    for _ in 0..2000 {
        board.start();
        for i in 0..board.len() {
            let t = board.tile(i);
            seen[(t.x() / TILE_SIZE) as usize][(t.y() / TILE_SIZE) as usize] = true;
        }
    }
    for col in 0..4 {
        for row in 0..4 {
            assert!(seen[col][row]);
        }
    }
}

#[test]
fn idle_board_ignores_frames_without_keys() {
    let mut board = TileMap::new();
    board.start();
    let a = board.tile(0);
    let b = board.tile(1);
    for _ in 0..10 {
        board.update(&KeyStates::new());
        assert_eq!(board.len(), 2);
        assert!(board.is_settled());
        assert_eq!((board.tile(0).x(), board.tile(0).y()), (a.x(), a.y()));
        assert_eq!((board.tile(1).x(), board.tile(1).y()), (b.x(), b.y()));
    }
}

#[test]
fn place_tile_puts_a_stopped_tile_on_the_cell() {
    let mut board = TileMap::new();
    assert!(board.place_tile(16, 2, 3));
    assert_eq!(board.len(), 1);
    let t = board.tile(0);
    assert_eq!(t.x(), 1000);
    assert_eq!(t.y(), 1500);
    assert_eq!(t.value(), 16);
    assert!(t.arrived());
    assert_eq!(t.heading(), Heading::Idle);
}

#[test]
fn place_tile_refuses_bad_values_cells_and_taken_cells() {
    let mut board = TileMap::new();
    assert!(!board.place_tile(3, 0, 0));
    assert!(!board.place_tile(0, 0, 0));
    assert!(!board.place_tile(1, 0, 0));
    assert!(!board.place_tile(-2, 0, 0));
    assert!(!board.place_tile(2, 4, 0));
    assert!(!board.place_tile(2, 0, 4));
    assert!(!board.place_tile(2, -1, 0));
    assert!(!board.place_tile(2, 0, -1));
    assert_eq!(board.len(), 0);
    assert!(board.place_tile(2, 1, 1));
    assert!(!board.place_tile(4, 1, 1));
    assert_eq!(board.len(), 1);
    assert!(board.place_tile(1073741824, 0, 0));
}

#[test]
fn a_lone_tile_slides_to_the_edge_in_quarter_steps() {
    let mut board = TileMap::new();
    assert!(board.place_tile(2, 0, 1));
    board.update(&press(false, false, true, false));
    assert_eq!(board.direction(), Heading::Right);
    assert!(!board.is_settled());
    // The frame that takes the key already moves the tile by one step.
    assert_eq!(board.tile(0).x(), 125);
    assert_eq!(board.tile(0).y(), 500);
    assert!(!board.tile(0).arrived());
    let quiet = KeyStates::new();
    for step in 2..12 {
        board.update(&quiet);
        assert_eq!(board.tile(0).x(), 125 * step);
        assert!(!board.is_settled());
        assert_eq!(board.len(), 1);
    }
    // The twelfth step reaches the edge: the move ends and a tile appears.
    board.update(&quiet);
    assert!(board.is_settled());
    assert_eq!(board.len(), 2);
    assert_eq!(board.tile(0).x(), 1500);
    assert_eq!(board.tile(0).y(), 500);
    assert_eq!(board.tile(0).value(), 2);
    assert!(board.tile(0).arrived());
    let fresh = board.tile(1);
    assert!(fresh.value() == 2 || fresh.value() == 4);
    assert!(fresh.arrived());
    assert_eq!(fresh.heading(), Heading::Right);
    assert!(fresh.x() != 1500 || fresh.y() != 500);
    assert_at_rest_on_cells(&board);
}

#[test]
fn keys_are_ignored_while_a_move_is_in_progress() {
    let mut board = TileMap::new();
    assert!(board.place_tile(2, 0, 0));
    board.update(&press(false, false, true, false));
    board.update(&press(false, true, false, false));
    assert_eq!(board.direction(), Heading::Right);
    assert_eq!(board.tile(0).x(), 250);
    assert_eq!(board.tile(0).y(), 0);
}

#[test]
fn up_wins_over_the_other_keys() {
    let mut board = TileMap::new();
    assert!(board.place_tile(2, 1, 2));
    board.update(&press(true, true, true, true));
    assert_eq!(board.direction(), Heading::Up);
    assert_eq!(board.tile(0).x(), 500);
    assert_eq!(board.tile(0).y(), 1000 - 125);
}

#[test]
fn down_wins_over_right_and_left() {
    let mut board = TileMap::new();
    assert!(board.place_tile(2, 1, 2));
    board.update(&press(false, true, true, true));
    assert_eq!(board.direction(), Heading::Down);
    assert_eq!(board.tile(0).y(), 1000 + 125);
}

#[test]
fn right_wins_over_left() {
    let mut board = TileMap::new();
    assert!(board.place_tile(2, 1, 2));
    board.update(&press(false, false, true, true));
    assert_eq!(board.direction(), Heading::Right);
    assert_eq!(board.tile(0).x(), 500 + 125);
}

#[test]
fn left_moves_left() {
    let mut board = TileMap::new();
    assert!(board.place_tile(2, 1, 2));
    board.update(&press(false, false, false, true));
    assert_eq!(board.direction(), Heading::Left);
    assert_eq!(board.tile(0).x(), 500 - 125);
}

#[test]
fn a_move_that_cannot_advance_settles_at_once() {
    let mut board = TileMap::new();
    assert!(board.place_tile(2, 3, 0));
    assert!(board.place_tile(4, 2, 0));
    assert!(board.place_tile(8, 3, 2));
    board.update(&press(false, false, true, false));
    assert!(board.is_settled());
    assert_eq!(board.direction(), Heading::Right);
    // Nothing moved, nothing merged, nothing appeared.
    assert_eq!(board.len(), 3);
    assert_eq!((board.tile(0).x(), board.tile(0).y()), (1500, 0));
    assert_eq!((board.tile(1).x(), board.tile(1).y()), (1000, 0));
    assert_eq!((board.tile(2).x(), board.tile(2).y()), (1500, 1000));
    for i in 0..3 {
        assert!(board.tile(i).arrived());
        assert_eq!(board.tile(i).heading(), Heading::Right);
    }
}

#[test]
fn two_equal_tiles_merge_into_their_sum() {
    let mut board = TileMap::new();
    assert!(board.place_tile(2, 0, 0));
    assert!(board.place_tile(2, 1, 0));
    board.update(&press(false, false, true, false));
    let frames = run_until_settled(&mut board);
    // Twelve steps bring the rear tile to the edge; the first was taken in
    // the frame of the key.
    assert_eq!(frames, 11);
    assert_eq!(board.len(), 2);
    let merged = board.tile(0);
    assert_eq!(merged.value(), 4);
    assert_eq!((merged.x(), merged.y()), (1500, 0));
    let fresh = board.tile(1);
    assert!(fresh.value() == 2 || fresh.value() == 4);
    assert_at_rest_on_cells(&board);
}

#[test]
fn three_equal_tiles_in_a_row_merge_once() {
    let mut board = TileMap::new();
    assert!(board.place_tile(2, 0, 0));
    assert!(board.place_tile(2, 1, 0));
    assert!(board.place_tile(2, 2, 0));
    board.update(&press(false, false, true, false));
    run_until_settled(&mut board);
    assert_eq!(board.len(), 3);
    let left = board.tile(0);
    assert_eq!(left.value(), 2);
    assert_eq!((left.x(), left.y()), (1000, 0));
    let merged = board.tile(1);
    assert_eq!(merged.value(), 4);
    assert_eq!((merged.x(), merged.y()), (1500, 0));
    let fresh = board.tile(2);
    assert!(fresh.value() == 2 || fresh.value() == 4);
    assert!(!(fresh.y() == 0 && fresh.x() >= 1000));
    assert_at_rest_on_cells(&board);
}

#[test]
fn four_equal_tiles_in_a_row_merge_in_pairs_of_neighbours() {
    let mut board = TileMap::new();
    for col in 0..4 {
        assert!(board.place_tile(2, col, 1));
    }
    board.update(&press(false, false, false, true));
    run_until_settled(&mut board);
    // Towards the left the tile at the edge stops first, its neighbour runs
    // into it, and the two behind come to a stop behind that pair.
    let mut values: Vec<(i32, i32)> = Vec::new();
    for i in 0..board.len() - 1 {
        let t = board.tile(i);
        assert_eq!(t.y(), 500);
        values.push((t.x(), t.value()));
    }
    values.sort();
    assert_eq!(values, vec![(0, 4), (500, 4)]);
}

#[test]
fn tiles_of_different_values_stop_behind_each_other() {
    let mut board = TileMap::new();
    assert!(board.place_tile(2, 0, 2));
    assert!(board.place_tile(4, 1, 2));
    assert!(board.place_tile(8, 3, 2));
    board.update(&press(false, false, true, false));
    run_until_settled(&mut board);
    assert_eq!(board.len(), 4);
    assert_eq!((board.tile(0).x(), board.tile(0).value()), (500, 2));
    assert_eq!((board.tile(1).x(), board.tile(1).value()), (1000, 4));
    assert_eq!((board.tile(2).x(), board.tile(2).value()), (1500, 8));
}

#[test]
fn a_merged_tile_does_not_merge_again_in_the_same_move() {
    let mut board = TileMap::new();
    assert!(board.place_tile(4, 0, 0));
    assert!(board.place_tile(2, 1, 0));
    assert!(board.place_tile(2, 2, 0));
    board.update(&press(false, false, true, false));
    run_until_settled(&mut board);
    assert_eq!(board.len(), 3);
    assert_eq!((board.tile(0).x(), board.tile(0).value()), (1000, 4));
    assert_eq!((board.tile(1).x(), board.tile(1).value()), (1500, 4));
}

#[test]
fn columns_move_up_and_down() {
    let mut board = TileMap::new();
    assert!(board.place_tile(2, 2, 0));
    assert!(board.place_tile(2, 2, 3));
    board.update(&press(false, true, false, false));
    run_until_settled(&mut board);
    assert_eq!(board.len(), 2);
    assert_eq!(board.tile(0).value(), 4);
    assert_eq!((board.tile(0).x(), board.tile(0).y()), (1000, 1500));

    let mut board = TileMap::new();
    assert!(board.place_tile(8, 1, 1));
    assert!(board.place_tile(16, 1, 3));
    board.update(&press(true, false, false, false));
    run_until_settled(&mut board);
    assert_eq!(board.len(), 3);
    assert_eq!((board.tile(0).y(), board.tile(0).value()), (0, 8));
    assert_eq!((board.tile(1).y(), board.tile(1).value()), (500, 16));
}

#[test]
fn full_board_without_equal_neighbours_is_game_over() {
    let mut board = TileMap::new();
    for col in 0..4 {
        for row in 0..4 {
            assert!(!board.is_game_over());
            let val = if (col + row) % 2 == 0 { 2 } else { 4 };
            assert!(board.place_tile(val, col, row));
        }
    }
    assert_eq!(board.len(), 16);
    assert!(board.is_game_over());
    // No key moves anything, and nothing appears.
    for keys in [
        press(true, false, false, false),
        press(false, true, false, false),
        press(false, false, true, false),
        press(false, false, false, true),
    ] {
        board.update(&keys);
        assert!(board.is_settled());
        assert_eq!(board.len(), 16);
        assert!(board.is_game_over());
        assert_at_rest_on_cells(&board);
    }
}

#[test]
fn board_in_motion_is_not_game_over() {
    let mut board = TileMap::new();
    for col in 0..4 {
        for row in 0..4 {
            // Two equal tiles side by side in the top row, nothing else equal.
            let val = if row == 0 && col < 2 {
                8
            } else if (col + row) % 2 == 0 {
                2
            } else {
                4
            };
            assert!(board.place_tile(val, col, row));
        }
    }
    assert!(board.is_game_over());
    board.update(&press(false, false, false, true));
    assert!(!board.is_settled());
    assert!(!board.is_game_over());
    run_until_settled(&mut board);
    // The pair has merged, and the tile that appeared fills the board again.
    assert_eq!(board.len(), 16);
    assert_eq!(board.get_score(), 16);
    assert!(board.is_game_over());
}

#[test]
fn tile_at_target_follows_the_rule() {
    let mut board = TileMap::new();
    assert!(board.place_tile(2, 3, 0));
    assert!(board.place_tile(2, 2, 0));
    assert!(board.place_tile(4, 1, 0));
    assert!(board.place_tile(2, 0, 3));
    // On an idle board nothing has to stop.
    for i in 0..4 {
        assert!(!board.tile_at_target(i));
    }
    let mut board = TileMap::new();
    assert!(board.place_tile(2, 3, 0));
    assert!(board.place_tile(2, 2, 0));
    assert!(board.place_tile(4, 1, 0));
    assert!(board.place_tile(2, 0, 3));
    assert!(board.place_tile(8, 3, 1));
    assert!(board.place_tile(8, 2, 1));
    assert!(board.place_tile(8, 1, 1));
    board.update(&press(false, false, true, false));
    let before: Vec<(i32, i32, i32, bool)> = (0..board.len())
        .map(|i| {
            let t = board.tile(i);
            (t.x(), t.y(), t.value(), t.arrived())
        })
        .collect();
    // At the edge: stops.
    assert!(board.tile_at_target(0));
    // Behind one stopped tile of its own value: goes on.
    assert!(!board.tile_at_target(1));
    // Behind a tile that goes on: goes on.
    assert!(!board.tile_at_target(2));
    // Free way: goes on.
    assert!(!board.tile_at_target(3));
    assert!(board.tile_at_target(4));
    assert!(!board.tile_at_target(5));
    assert!(!board.tile_at_target(6));
    // Between frames every mark is in place: asking changes nothing.
    for i in 0..board.len() {
        let t = board.tile(i);
        assert_eq!(before[i], (t.x(), t.y(), t.value(), t.arrived()));
        assert_eq!(t.arrived(), board.tile_at_target(i));
    }
}

#[test]
fn tiles_stay_on_the_grid_through_long_play() {
    let mut seed: u32 = 12345;
    for _ in 0..40 {
        let mut board = TileMap::new();
        board.start();
        for _ in 0..60 {
            seed = seed.wrapping_mul(1664525).wrapping_add(1013904223);
            let keys = match (seed >> 16) % 4 {
                0 => press(true, false, false, false),
                1 => press(false, true, false, false),
                2 => press(false, false, true, false),
                _ => press(false, false, false, true),
            };
            let before = board.len();
            board.update(&keys);
            assert_on_grid(&board);
            assert!(board.len() >= 1);
            assert!(board.len() <= before + 1);
            let mut frames = 0;
            while !board.is_settled() {
                board.update(&KeyStates::new());
                assert_on_grid(&board);
                frames += 1;
                assert!(frames <= 12);
            }
            assert_at_rest_on_cells(&board);
            assert!(board.len() <= 16);
        }
    }
}

#[test]
fn a_settled_board_stays_as_it_is_without_keys() {
    let mut board = TileMap::new();
    assert!(board.place_tile(2, 0, 0));
    assert!(board.place_tile(4, 2, 2));
    board.update(&press(false, true, false, false));
    run_until_settled(&mut board);
    let n = board.len();
    let mut spots: Vec<(i32, i32, i32)> = Vec::new();
    for i in 0..n {
        spots.push((board.tile(i).x(), board.tile(i).y(), board.tile(i).value()));
    }
    for _ in 0..5 {
        board.update(&KeyStates::new());
        assert!(board.is_settled());
        assert_eq!(board.len(), n);
        for i in 0..n {
            assert_eq!(spots[i], (board.tile(i).x(), board.tile(i).y(), board.tile(i).value()));
        }
    }
}

#[test]
fn place_tile_waits_for_the_board_to_rest() {
    let mut board = TileMap::new();
    assert!(board.place_tile(2, 0, 0));
    board.update(&press(false, false, true, false));
    assert!(!board.is_settled());
    assert!(!board.place_tile(2, 3, 3));
    assert_eq!(board.len(), 1);
    run_until_settled(&mut board);
    let n = board.len();
    let free = slide2048::tile_map::free_cells(&vec![board.tile(0), board.tile(1)]);
    let (col, row) = free[0];
    assert!(board.place_tile(8, col, row));
    assert_eq!(board.len(), n + 1);
    assert_eq!(board.tile(n).heading(), Heading::Right);
    assert!(board.tile(n).arrived());
    assert_at_rest_on_cells(&board);
}

#[test]
fn merging_in_play_conserves_the_sum() {
    let mut seed: u32 = 2024;
    let mut moves = 0;
    for _ in 0..30 {
        let mut board = TileMap::new();
        board.start();
        for _ in 0..80 {
            seed = seed.wrapping_mul(1664525).wrapping_add(1013904223);
            let keys = match (seed >> 16) % 4 {
                0 => press(true, false, false, false),
                1 => press(false, true, false, false),
                2 => press(false, false, true, false),
                _ => press(false, false, false, true),
            };
            let mut before = 0;
            for i in 0..board.len() {
                before += board.tile(i).value();
            }
            let count = board.len();
            board.update(&keys);
            let moved = !board.is_settled();
            run_until_settled(&mut board);
            let mut after = 0;
            for i in 0..board.len() {
                after += board.tile(i).value();
            }
            if moved {
                moves += 1;
                // Merging changes no sum; the tile that appears adds its own.
                assert_eq!(after, before + board.tile(board.len() - 1).value());
                assert!(board.len() <= count + 1);
            } else {
                assert_eq!(after, before);
                assert_eq!(board.len(), count);
            }
        }
    }
    assert!(moves > 500);
}

#[test]
fn a_move_ends_within_twelve_frames() {
    assert_eq!(slide2048::settle::FRAMES_TO_SETTLE, 12);
    // The longest move: one tile crosses the whole grid, then a second one
    // follows it from the far side.
    let mut board = TileMap::new();
    assert!(board.place_tile(2, 0, 0));
    board.update(&press(false, false, true, false));
    let frames = 1 + run_until_settled(&mut board);
    assert_eq!(frames, 12);
    let mut board = TileMap::new();
    assert!(board.place_tile(2, 0, 0));
    assert!(board.place_tile(2, 1, 0));
    assert!(board.place_tile(4, 3, 3));
    board.update(&press(false, false, true, false));
    let frames = 1 + run_until_settled(&mut board);
    assert_eq!(frames, 12);
    assert_eq!(board.tile(0).value(), 4);
}

#[test]
fn a_settling_frame_takes_one_tile_per_pair_and_adds_one() {
    // No pair: three tiles of different values in a row.
    let mut board = TileMap::new();
    assert!(board.place_tile(2, 0, 0));
    assert!(board.place_tile(4, 1, 0));
    assert!(board.place_tile(8, 2, 0));
    board.update(&press(false, false, true, false));
    run_until_settled(&mut board);
    assert_eq!(board.len(), 3 - 0 + 1);
    // One pair.
    let mut board = TileMap::new();
    assert!(board.place_tile(2, 0, 0));
    assert!(board.place_tile(2, 1, 0));
    assert!(board.place_tile(8, 2, 1));
    board.update(&press(false, false, true, false));
    run_until_settled(&mut board);
    assert_eq!(board.len(), 3 - 1 + 1);
    // Two pairs in one row, and two in another.
    let mut board = TileMap::new();
    for col in 0..4 {
        assert!(board.place_tile(2, col, 0));
        assert!(board.place_tile(16, col, 2));
    }
    board.update(&press(false, false, false, true));
    let mut len_in_motion = board.len();
    while !board.is_settled() {
        // Until the move ends the number of tiles stays.
        assert_eq!(board.len(), 8);
        len_in_motion = board.len();
        board.update(&KeyStates::new());
    }
    assert_eq!(len_in_motion, 8);
    assert_eq!(board.len(), 8 - 4 + 1);
    let mut row0: Vec<(i32, i32)> = Vec::new();
    let mut row2: Vec<(i32, i32)> = Vec::new();
    for i in 0..4 {
        let t = board.tile(i);
        if t.y() == 0 {
            row0.push((t.x(), t.value()));
        } else {
            assert_eq!(t.y(), 1000);
            row2.push((t.x(), t.value()));
        }
    }
    row0.sort();
    row2.sort();
    // Each survivor holds twice the value of its pair, where the pair stood.
    assert_eq!(row0, vec![(0, 4), (500, 4)]);
    assert_eq!(row2, vec![(0, 32), (500, 32)]);
}
