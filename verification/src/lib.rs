//! A bit-packed rules engine for a tile-claiming penguin game on a hex grid,
//! with machine-checked contracts on every operation.

use vstd::prelude::*;

pub mod bits;
pub mod board;
pub mod cellset;
pub mod chance;
pub mod errors;
pub mod fixed;
pub mod game;
pub mod geometry;
pub mod hex;
pub mod icebergs;
pub mod json;
pub mod mctsbot;
pub mod minimaxbot;
pub mod neuralnet;
pub mod pruning;
pub mod randombot;
pub mod tree;

verus! {

/// Number of cells in an even row of the board.
pub const EVEN_ROW_LEN: usize = 7;

/// Number of cells in an odd row of the board.
pub const ODD_ROW_LEN: usize = 8;

/// Number of rows of the board.
pub const NUM_ROWS: usize = 8;

/// Number of cells of the board.
pub const NUM_CELLS: usize = 60;

/// Number of cells that hold one fish.
pub const NUM_ONE_FISH: usize = 30;

/// Number of cells that hold two fish.
pub const NUM_TWO_FISH: usize = 20;

/// Number of cells that hold three fish.
pub const NUM_THREE_FISH: usize = 10;

/// Number of cells that hold fish at all.
pub const NUM_FISH: usize = 60;

/// Upper bound on the number of moves a player can have in one position.
pub const MOVE_ARRAY_SIZE: usize = 100;

} // verus!
