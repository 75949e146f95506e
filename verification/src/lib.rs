//! Exhaustive solver for a tile-collapse puzzle on an 8x8 grid.
//!
//! A board holds ranked tiles. Clicking a tile merges its whole cluster (the
//! connected region of equal rank around it) into one tile of the next rank,
//! after which the remaining tiles fall to the floor and the occupied columns
//! close up to the left. The solver searches every sequence of merges for the
//! highest total score.
//!
//! The modules, leaves first:
//! - `score`: what a merge earns, and the end bonus;
//! - `board`: the board and the grid that stands for it in contracts;
//! - `lists`: the fixed-capacity lists of the arrayvec crate;
//! - `cluster`, `bitboard`: clusters and the merge, by worklist and by bitboard;
//! - `collapse`, `shuffle`: compaction, by two pointers and by shuffle;
//! - `moves`: move generation;
//! - `fingerprint`, `cache`: the digest of a grid and the transposition cache;
//! - `model`, `search`: the search as mathematics and as a loop over a stack;
//! - `laws`: what the search finds.

pub mod score;
pub mod board;
pub mod lists;
pub mod cluster;
pub mod bitboard;
pub mod collapse;
pub mod shuffle;
pub mod moves;
pub mod fingerprint;
pub mod cache;
pub mod model;
pub mod search;
pub mod laws;

pub use board::{Board, BOARD_SIZE};
pub use cache::TranspositionCache;
pub use fingerprint::BoardHash;
pub use lists::STACK_SIZE;
pub use score::get_score;
pub use search::{Frame, Solution, SolveError};
