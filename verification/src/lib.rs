//! A constraint-propagation engine for 9x9 Sudoku puzzles.
//!
//! Each cell holds a bitmask of candidate digits 1..=9.  Two elimination
//! rules (`uniqueness_eliminate` and `single_possibility`) are applied over
//! the 27 row/column/box constraint groups until the board is solved or no
//! further progress is possible.

pub mod basic;
pub mod bits;
pub mod board;
pub mod cell;
pub mod parse;
pub mod solver;

pub use basic::NoOp;
pub use basic::Rule;
pub use basic::SinglePossibility;
pub use basic::Uniqueness;
pub use basic::single_possibility;
pub use basic::uniqueness_eliminate;
pub use board::Sudoku;
pub use board::chunk_indicies;
pub use board::col_indicies;
pub use board::row_indicies;
pub use cell::Cell;
pub use parse::ParseError;
pub use parse::from_debug_grid;
pub use parse::from_digit_line;
pub use parse::to_debug_grid;
pub use parse::to_pretty_grid;
