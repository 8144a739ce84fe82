//! What a renderer needs to know about a tile besides its square: the colours
//! that go with its value, and where its label starts.

use crate::grid::{Point, HALF_TILE, SUBPIXELS};
use crate::tile::{GameTile, Tile};
use vstd::prelude::*;

verus! {

/// Height, in pixels, of the digits on a tile.
pub const TILE_FONT_SIZE: i32 = 24;

/// The colours tiles are drawn in.
#[derive(Clone, Copy, PartialEq, Eq, Structural, Debug)]
pub enum Shade {
    LightGray,
    Beige,
    Orange,
    Red,
    Gold,
    Black,
    White,
}

/// The colour of the square of a tile of value `val`.
pub open spec fn background_of(val: int) -> Shade {
    if val == 2 {
        Shade::LightGray
    } else if val == 4 {
        Shade::Beige
    } else if val == 8 || val == 16 {
        Shade::Orange
    } else if val == 32 || val == 64 {
        Shade::Red
    } else {
        Shade::Gold
    }
}

/// The colour of the digits on a tile of value `val`: black on the two
/// lightest squares, white on all the others.
pub open spec fn foreground_of(val: int) -> Shade {
    if val == 2 || val == 4 {
        Shade::Black
    } else {
        Shade::White
    }
}

/// Where, in pixels, the label of tile `t` starts so that a text `text_width`
/// wide and `font_size` high is centred on the tile.
pub open spec fn label_origin_of(t: Tile, text_width: int, font_size: int) -> (int, int) {
    (
        (t.x + HALF_TILE) / (SUBPIXELS as int) - text_width / 2,
        (t.y + HALF_TILE) / (SUBPIXELS as int) - font_size / 2,
    )
}

/// The colours of a tile of value `val`: first that of its square, then that
/// of its digits.
pub fn tile_colours(val: i32) -> (pair: [Shade; 2])
    ensures
        pair[0] == background_of(val as int),
        pair[1] == foreground_of(val as int),
{
    match val {
        2 => [Shade::LightGray, Shade::Black],
        4 => [Shade::Beige, Shade::Black],
        8 | 16 => [Shade::Orange, Shade::White],
        32 | 64 => [Shade::Red, Shade::White],
        _ => [Shade::Gold, Shade::White],
    }
}

/// Where, in pixels, the label of `tile` starts when its text is `text_width`
/// pixels wide and [`TILE_FONT_SIZE`] high.
pub fn label_origin(tile: &GameTile, text_width: i32) -> (p: Point)
    requires
        text_width >= 0,
    ensures
        p@ == label_origin_of(tile@, text_width as int, TILE_FONT_SIZE as int),
{
    let x: i32 = tile.x();
    let y: i32 = tile.y();
    Point {
        x: (x + HALF_TILE) / SUBPIXELS - text_width / 2,
        y: (y + HALF_TILE) / SUBPIXELS - TILE_FONT_SIZE / 2,
    }
}

} // verus!
