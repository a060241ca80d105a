use vstd::prelude::*;
use rand::seq::SliceRandom;

use crate::constants::{MOVABLE_PIECE, TOTAL_PUZZLE_SIZE};
use crate::state::{goal_state, inversions_after, inversions_from, is_solvable};

verus! {

/// The solved board `[0, 1, ..., 8]`.
pub fn create_array_with_increasing_value() -> (r: [i8; TOTAL_PUZZLE_SIZE])
    ensures
        r@ == goal_state(),
{
    let mut r: [i8; TOTAL_PUZZLE_SIZE] = [0i8; TOTAL_PUZZLE_SIZE];
    let mut i: usize = 0;
    while i < TOTAL_PUZZLE_SIZE
        invariant
            i <= TOTAL_PUZZLE_SIZE,
            r@.len() == TOTAL_PUZZLE_SIZE,
            forall|k: int| 0 <= k < i ==> r@[k] == k as i8,
        decreases TOTAL_PUZZLE_SIZE - i,
    {
        r[i] = i as i8;
        i = i + 1;
    }
    assert(r@ =~= goal_state());
    r
}

/// Whether `s` is the solved board.
pub fn is_goal(s: &[i8; TOTAL_PUZZLE_SIZE]) -> (r: bool)
    ensures
        r == (s@ == goal_state()),
{
    let mut i: usize = 0;
    while i < TOTAL_PUZZLE_SIZE
        invariant
            i <= TOTAL_PUZZLE_SIZE,
            forall|k: int| 0 <= k < i ==> s@[k] == k as i8,
        decreases TOTAL_PUZZLE_SIZE - i,
    {
        if s[i] != i as i8 {
            assert(s@[i as int] != goal_state()[i as int]);
            return false;
        }
        i = i + 1;
    }
    assert(s@ =~= goal_state());
    true
}

/// Whether two boards hold the same values cell by cell.
pub fn same_state(a: &[i8; TOTAL_PUZZLE_SIZE], b: &[i8; TOTAL_PUZZLE_SIZE]) -> (r: bool)
    ensures
        r == (a@ == b@),
{
    let mut i: usize = 0;
    while i < TOTAL_PUZZLE_SIZE
        invariant
            i <= TOTAL_PUZZLE_SIZE,
            a@.len() == TOTAL_PUZZLE_SIZE,
            b@.len() == TOTAL_PUZZLE_SIZE,
            forall|k: int| 0 <= k < i ==> a@[k] == b@[k],
        decreases TOTAL_PUZZLE_SIZE - i,
    {
        if a[i] != b[i] {
            return false;
        }
        i = i + 1;
    }
    assert(a@ =~= b@);
    true
}

/// The parity test for a 3x3 board: the tiles, read row by row with the
/// blank left out, hold an even number of inversions.
pub fn check_solvability(puzzle_state: &[i8; TOTAL_PUZZLE_SIZE]) -> (r: bool)
    ensures
        r == is_solvable(puzzle_state@),
{
    let s = puzzle_state;
    let mut inversions: u32 = 0;
    let mut i: usize = TOTAL_PUZZLE_SIZE;
    while i > 0
        invariant
            i <= TOTAL_PUZZLE_SIZE,
            inversions as int == inversions_from(s@, i as int),
            inversions <= (TOTAL_PUZZLE_SIZE - i) * TOTAL_PUZZLE_SIZE,
        decreases i,
    {
        i = i - 1;
        let mut count: u32 = 0;
        if s[i] != MOVABLE_PIECE {
            let mut j: usize = TOTAL_PUZZLE_SIZE;
            while j > i + 1
                invariant
                    i < j <= TOTAL_PUZZLE_SIZE,
                    count as int == inversions_after(s@, i as int, j as int),
                    count <= TOTAL_PUZZLE_SIZE - j,
                decreases j,
            {
                j = j - 1;
                if s[j] != MOVABLE_PIECE && s[i] > s[j] {
                    count = count + 1;
                }
            }
        }
        inversions = inversions + count;
    }
    inversions % 2 == 0
}

/// Relies on rand's `SliceRandom::shuffle` with the thread-local generator:
/// the board is rearranged by exchanges of cells, so the same values remain.
#[verifier::external_body]
fn shuffle_cells(puzzle_state: &mut [i8; TOTAL_PUZZLE_SIZE])
    ensures
        final(puzzle_state)@.to_multiset() == old(puzzle_state)@.to_multiset(),
{
    puzzle_state.shuffle(&mut rand::thread_rng());
}

/// Rearranges the board at random and tells whether the result passes the
/// parity test.
pub fn shuffle_and_check(puzzle_state: &mut [i8; TOTAL_PUZZLE_SIZE]) -> (r: bool)
    ensures
        final(puzzle_state)@.to_multiset() == old(puzzle_state)@.to_multiset(),
        r == is_solvable(final(puzzle_state)@),
{
    shuffle_cells(puzzle_state);
    check_solvability(puzzle_state)
}

} // verus!
