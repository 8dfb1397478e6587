//! A human-style Sudoku deduction engine.
//!
//! Given a partially filled 9x9 grid, the engine repeatedly discovers
//! logically justified placements and candidate eliminations using a catalog
//! of named techniques, until no further technique applies. The hardest
//! technique required to solve a grid determines its difficulty rating.

pub mod board;
pub mod generate;
pub mod geometry;
pub mod logical_solver;
pub mod masks;
pub mod solver;
pub mod types;
