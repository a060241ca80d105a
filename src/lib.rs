//! An A* solver for the 8-puzzle: board model, Manhattan heuristic,
//! neighbour generation with move pruning, and a best-first search over an
//! arena of nodes whose parents are arena indices.

pub mod constants;
pub mod direction;
pub mod state;
pub mod utils;
pub mod node;
pub mod solver;
pub mod astar;
