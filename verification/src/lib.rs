//! A solver for the calendar tiling puzzle: a 6 by 9 grid on which three
//! cells are blocked to show a date, to be covered exactly by pieces of
//! five cells each.
//!
//! `grid` holds the model of the board and `board` the board itself;
//! `piece` the pieces; `region` the regions of empty cells and the test that
//! prunes the search; `search` the search; `tiling` what holds of every
//! way to fill the board; `render` the drawing of a board.

pub mod board;
pub mod grid;
pub mod piece;
pub mod region;
pub mod render;
pub mod search;
pub mod tiling;
