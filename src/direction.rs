use vstd::prelude::*;

verus! {

/// The direction in which the blank moved; `NoMove` marks the root of a search.
#[derive(Clone, Copy, Debug, PartialEq, Eq, Structural)]
pub enum Direction {
    Left,
    Right,
    Up,
    Down,
    NoMove,
}

} // verus!
