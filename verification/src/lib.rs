//! A group-based Sudoku constraint solver on a bit-parallel board.
//!
//! Nine 81-bit masks carry each digit's candidacy over the 9x9 grid; the
//! constraint groups are 81-bit masks of exactly nine cells each.  The engine
//! propagates completions and eliminations to a fixed point, checks legality,
//! and branches on the cell with the fewest candidates, counting solutions as
//! none, one, or more than one under a shared branch budget.

pub mod bits;
pub mod board;
pub mod checker;
pub mod completion;
pub mod engine;
pub mod groups;
pub mod loader;
pub mod rules;
pub mod search;
pub mod solve;
pub mod solver;

pub use bits::count_bits;
pub use bits::get_bit;
pub use board::Board;
pub use rules::Rules;
pub use solve::Solve;
