//! A sliding-tile merge puzzle on a four by four grid, in which tiles glide
//! across the board in small steps instead of jumping from cell to cell.
//!
//! Positions are whole numbers, four to the pixel, and tiles meet by
//! geometry: a tile stops when the point just ahead of it leaves the grid or
//! lies in a stopped tile it cannot merge with, and tiles merge where their
//! squares overlap.
//!
//! The board ([`tile_map::TileMap`]) owns the tiles and moves them; what it
//! does in one frame is stated over its mathematical view ([`board::Board`]).
//! [`game::Game`] wraps the board in the course of a game: start, play,
//! pause, end.
//!
//! What holds of every board is proved here too: no tile leaves the grid, a
//! board that has come to rest has every tile on a cell of its own
//! ([`lanes`], [`order`]), a merge of two equal tiles conserves their sum
//! ([`merge`]), a frame changes the number of tiles and the sum of their
//! values only where a move ends, and then by one tile fewer for every pair
//! and one new tile ([`tally`], [`room`], [`packed`]), and a board that is
//! left alone comes to rest within a fixed number of frames ([`settle`]).

pub mod arrival;
pub mod board;
pub mod chance;
pub mod game;
pub mod grid;
pub mod keys;
pub mod lanes;
pub mod merge;
pub mod order;
pub mod packed;
pub mod render;
pub mod room;
pub mod settle;
pub mod tally;
pub mod tile;
pub mod tile_map;
