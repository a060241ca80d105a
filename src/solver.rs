use vstd::prelude::*;

use crate::constants::TOTAL_PUZZLE_SIZE;
use crate::direction::Direction;
use crate::state::{apply_moves, goal_state, is_valid_state};

verus! {

/// The outcome of a search: the board reached and the moves of the blank
/// that lead there from the start.
pub struct SolvedState {
    pub puzzle_state: [i8; TOTAL_PUZZLE_SIZE],
    pub moves: Vec<Direction>,
}

impl SolvedState {
    pub fn new(puzzle_state: [i8; TOTAL_PUZZLE_SIZE], moves: Vec<Direction>) -> (r: SolvedState)
        ensures
            r.puzzle_state == puzzle_state,
            r.moves == moves,
    {
        SolvedState { puzzle_state, moves }
    }
}

/// A solver of the 8-puzzle.
pub trait Solve {
    /// Searches for moves from `puzzle_state` (left unchanged) to the solved
    /// board. It returns `None` exactly when no sequence of moves reaches the
    /// solved board: every reachable board was explored without meeting it.
    fn solve(&mut self, puzzle_state: &mut [i8; TOTAL_PUZZLE_SIZE]) -> (r: Option<SolvedState>)
        requires
            is_valid_state(old(puzzle_state)@),
        ensures
            *final(puzzle_state) == *old(puzzle_state),
            r matches Some(s) ==> s.puzzle_state@ == goal_state() && apply_moves(
                old(puzzle_state)@,
                s.moves@,
            ) == Some(goal_state()),
            old(puzzle_state)@ == goal_state() ==> (r matches Some(s) && s.moves@.len() == 0),
            r is None ==> forall|ms: Seq<Direction>|
                #[trigger] apply_moves(old(puzzle_state)@, ms) != Some(goal_state()),
    ;
}

} // verus!
