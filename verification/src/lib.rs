//! A verified exact-cover tiling solver: polyomino pieces are placed on a
//! bounded grid so that they partition a target region with no gaps and no
//! overlaps.  The board is a 64-bit occupancy mask with a fixed stride of 8
//! columns; pieces are generated in all rotated and mirrored orientations and
//! a depth-first backtracking search enumerates accepted placements.

pub mod board;
pub mod piece;
pub mod problem;
pub mod solver;
pub mod utils;

pub use board::Board;
pub use piece::Piece;
pub use solver::Solver;
