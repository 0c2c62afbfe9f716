//! A solver for number-link puzzles on boards whose rows differ in width.
//!
//! A board is a list of rows of cells. Some cells carry fixed clues, some are
//! holes. A solution numbers cells from 1 up to the largest clue so that
//! successive numbers sit on adjacent cells and every clue carries its own
//! number.
pub mod adjacency;
pub mod board;
pub mod cell;
pub mod clues;
pub mod parse;
pub mod path;
pub mod render;
pub mod shape;
pub mod solver;
