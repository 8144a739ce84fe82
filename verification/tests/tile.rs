use slide2048::grid::{point_in_grid, Heading, Point};
use slide2048::tile::{is_value, random_cell, GameTile, MAX_TILE_VALUE};

fn tile_on(val: i32, heading: Heading, col: i32, row: i32) -> GameTile {
    let mut t = GameTile::new(val, heading);
    t.place(col, row);
    t
}

#[test]
fn new_tile_is_stopped_in_the_top_left_cell() {
    let t = GameTile::new(4, Heading::Down);
    assert_eq!(t.x(), 0);
    assert_eq!(t.y(), 0);
    assert_eq!(t.value(), 4);
    assert_eq!(t.heading(), Heading::Down);
    assert!(t.arrived());
}

#[test]
fn place_puts_the_corner_on_the_cell() {
    let t = tile_on(2, Heading::Idle, 3, 1);
    assert_eq!((t.x(), t.y()), (1500, 500));
    assert_eq!(t.value(), 2);
    assert!(t.arrived());
}

#[test]
fn future_point_lies_one_pixel_beyond_the_leading_edge() {
    // The centre of the tile on cell (1, 2) is (750, 1250); the probe point
    // lies 254 units from it.
    assert_eq!(tile_on(2, Heading::Idle, 1, 2).future_point(), Point { x: 750, y: 1250 });
    assert_eq!(tile_on(2, Heading::Right, 1, 2).future_point(), Point { x: 1004, y: 1250 });
    assert_eq!(tile_on(2, Heading::Left, 1, 2).future_point(), Point { x: 496, y: 1250 });
    assert_eq!(tile_on(2, Heading::Down, 1, 2).future_point(), Point { x: 750, y: 1504 });
    assert_eq!(tile_on(2, Heading::Up, 1, 2).future_point(), Point { x: 750, y: 996 });
}

#[test]
fn future_point_leaves_the_grid_at_the_edges() {
    assert!(!point_in_grid(tile_on(2, Heading::Right, 3, 0).future_point()));
    assert!(!point_in_grid(tile_on(2, Heading::Left, 0, 0).future_point()));
    assert!(!point_in_grid(tile_on(2, Heading::Up, 2, 0).future_point()));
    assert!(!point_in_grid(tile_on(2, Heading::Down, 2, 3).future_point()));
    assert!(point_in_grid(tile_on(2, Heading::Right, 2, 0).future_point()));
    assert!(point_in_grid(tile_on(2, Heading::Left, 1, 0).future_point()));
    assert!(point_in_grid(tile_on(2, Heading::Up, 2, 1).future_point()));
    assert!(point_in_grid(tile_on(2, Heading::Down, 2, 2).future_point()));
}

#[test]
fn the_border_belongs_to_the_grid() {
    assert!(point_in_grid(Point { x: 0, y: 0 }));
    assert!(point_in_grid(Point { x: 2000, y: 2000 }));
    assert!(point_in_grid(Point { x: 0, y: 2000 }));
    assert!(!point_in_grid(Point { x: -1, y: 0 }));
    assert!(!point_in_grid(Point { x: 0, y: -1 }));
    assert!(!point_in_grid(Point { x: 2001, y: 0 }));
    assert!(!point_in_grid(Point { x: 0, y: 2001 }));
}

#[test]
fn covers_counts_the_border_of_the_square() {
    let t = tile_on(2, Heading::Idle, 1, 1);
    assert!(t.covers(Point { x: 500, y: 500 }));
    assert!(t.covers(Point { x: 1000, y: 1000 }));
    assert!(t.covers(Point { x: 750, y: 750 }));
    assert!(t.covers(Point { x: 500, y: 1000 }));
    assert!(!t.covers(Point { x: 499, y: 750 }));
    assert!(!t.covers(Point { x: 1001, y: 750 }));
    assert!(!t.covers(Point { x: 750, y: 499 }));
    assert!(!t.covers(Point { x: 750, y: 1001 }));
}

#[test]
fn tiles_that_only_touch_do_not_overlap() {
    let a = tile_on(2, Heading::Idle, 1, 1);
    let right = tile_on(2, Heading::Idle, 2, 1);
    let below = tile_on(2, Heading::Idle, 1, 2);
    let corner = tile_on(2, Heading::Idle, 2, 2);
    assert!(!a.overlaps(&right));
    assert!(!right.overlaps(&a));
    assert!(!a.overlaps(&below));
    assert!(!a.overlaps(&corner));
    assert!(a.overlaps(&a));
    assert!(a.same_spot(&a));
    assert!(!a.same_spot(&right));
}

#[test]
fn a_tile_one_step_into_another_overlaps_it() {
    let mut a = tile_on(2, Heading::Right, 1, 1).launched(Heading::Right);
    let b = tile_on(2, Heading::Right, 2, 1);
    assert!(!a.overlaps(&b));
    a.advance();
    assert_eq!((a.x(), a.y()), (625, 500));
    assert!(a.overlaps(&b));
    assert!(b.overlaps(&a));
    assert!(!a.same_spot(&b));
}

#[test]
fn advance_moves_a_quarter_of_an_edge_along_the_heading() {
    let mut t = tile_on(8, Heading::Idle, 1, 1).launched(Heading::Right);
    assert!(!t.arrived());
    t.advance();
    assert_eq!((t.x(), t.y()), (625, 500));
    let mut t = tile_on(8, Heading::Idle, 1, 1).launched(Heading::Left);
    t.advance();
    assert_eq!((t.x(), t.y()), (375, 500));
    let mut t = tile_on(8, Heading::Idle, 1, 1).launched(Heading::Up);
    t.advance();
    assert_eq!((t.x(), t.y()), (500, 375));
    let mut t = tile_on(8, Heading::Idle, 1, 1).launched(Heading::Down);
    t.advance();
    assert_eq!((t.x(), t.y()), (500, 625));
    assert_eq!(t.value(), 8);
}

#[test]
fn advance_leaves_a_stopped_tile_and_an_idle_tile_where_they_are() {
    let mut t = tile_on(8, Heading::Right, 1, 1);
    assert!(t.arrived());
    t.advance();
    assert_eq!((t.x(), t.y()), (500, 500));
    let mut t = tile_on(8, Heading::Idle, 1, 1).launched(Heading::Idle);
    assert!(!t.arrived());
    t.advance();
    assert_eq!((t.x(), t.y()), (500, 500));
}

#[test]
fn launched_and_stopped_change_only_heading_and_flag() {
    let t = tile_on(16, Heading::Idle, 2, 3).launched(Heading::Up);
    assert_eq!((t.x(), t.y(), t.value()), (1000, 1500, 16));
    assert_eq!(t.heading(), Heading::Up);
    assert!(!t.arrived());
    let s = t.stopped();
    assert_eq!((s.x(), s.y(), s.value()), (1000, 1500, 16));
    assert_eq!(s.heading(), Heading::Up);
    assert!(s.arrived());
}

#[test]
fn grown_doubles_the_value_up_to_the_greatest() {
    let t = tile_on(2, Heading::Left, 2, 3).grown();
    assert_eq!(t.value(), 4);
    assert_eq!((t.x(), t.y()), (1000, 1500));
    assert_eq!(t.heading(), Heading::Left);
    assert!(t.arrived());
    assert_eq!(tile_on(512, Heading::Idle, 0, 0).grown().value(), 1024);
    assert_eq!(tile_on(MAX_TILE_VALUE / 2, Heading::Idle, 0, 0).grown().value(), MAX_TILE_VALUE);
    assert_eq!(tile_on(MAX_TILE_VALUE, Heading::Idle, 0, 0).grown().value(), MAX_TILE_VALUE);
}

#[test]
fn random_spot_lands_on_a_cell_of_the_grid() {
    let mut t = GameTile::new(2, Heading::Idle);
    let mut moved = false;
    for _ in 0..500 {
        t.random_spot();
        assert!(t.x() == 0 || t.x() == 500 || t.x() == 1000 || t.x() == 1500);
        assert!(t.y() == 0 || t.y() == 500 || t.y() == 1000 || t.y() == 1500);
        assert_eq!(t.value(), 2);
        assert!(t.arrived());
        if t.x() != 0 || t.y() != 0 {
            moved = true;
        }
    }
    assert!(moved);
}

#[test]
fn tile_values_are_the_powers_of_two_from_two() {
    assert!(is_value(2));
    assert!(is_value(4));
    assert!(is_value(2048));
    assert!(is_value(131072));
    assert!(is_value(MAX_TILE_VALUE));
    assert!(!is_value(0));
    assert!(!is_value(1));
    assert!(!is_value(3));
    assert!(!is_value(6));
    assert!(!is_value(-4));
    assert!(!is_value(i32::MAX));
    assert!(!is_value(i32::MIN));
    assert_eq!(MAX_TILE_VALUE, 1 << 30);
}

#[test]
fn headings_are_unit_steps() {
    assert_eq!((Heading::Idle.step_x(), Heading::Idle.step_y()), (0, 0));
    assert_eq!((Heading::Up.step_x(), Heading::Up.step_y()), (0, -1));
    assert_eq!((Heading::Down.step_x(), Heading::Down.step_y()), (0, 1));
    assert_eq!((Heading::Left.step_x(), Heading::Left.step_y()), (-1, 0));
    assert_eq!((Heading::Right.step_x(), Heading::Right.step_y()), (1, 0));
    assert!(Heading::Idle.is_idle());
    assert!(!Heading::Left.is_idle());
}

#[test]
fn random_cell_draws_every_cell_of_the_grid_and_no_other() {
    let mut seen = [[false; 4]; 4];
    for _ in 0..2000 {
        let (col, row) = random_cell();
        assert!((0..4).contains(&col));
        assert!((0..4).contains(&row));
        seen[col as usize][row as usize] = true;
    }
    for col in 0..4 {
        for row in 0..4 {
            assert!(seen[col][row]);
        }
    }
}
