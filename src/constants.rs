use vstd::prelude::*;

verus! {

/// Width (and height) of the square board.
pub const PUZZLE_SIZE: i8 = 3;

/// Number of cells on the board.
pub const TOTAL_PUZZLE_SIZE: usize = 9;

/// The value of the blank cell, the one that moves.
pub const MOVABLE_PIECE: i8 = 0;

} // verus!
