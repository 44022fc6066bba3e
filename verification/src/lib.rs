//! A solver for a fixed-length tile-compaction puzzle: each turn a tile value
//! is inserted into an empty cell of a 10x10 board, one of four gravity-shift
//! actions slides all tiles toward an edge, and after the final turn the score
//! is the sum of squared sizes of axis-connected same-value groups. The
//! library holds the board engine, the insertion oracle, a deterministic
//! rollout policy, a wall-clock time budget, and the Monte Carlo search that
//! picks an action each turn.
use vstd::prelude::*;

pub mod board;
pub mod conserve;
pub mod oracle;
pub mod policy;
pub mod rng;
pub mod score;
pub mod search;
pub mod time_keeper;

verus! {

/// Board height in cells.
pub const H: usize = 10;

/// Board width in cells.
pub const W: usize = 10;

/// Number of cells on the board.
pub const CELLS: usize = 100;

/// Number of turns in a game.
pub const END_TURN: i64 = 100;

/// Upper bound on the number of rollouts per turn that the precomputed
/// simulation table supports.
pub const SIMULATION_MAX: usize = 14000;

} // verus!
