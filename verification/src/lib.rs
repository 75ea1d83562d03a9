//! A 9x9 Sudoku engine: constraint propagation over candidate sets, a
//! minimum-remaining-values branching rule, a depth-bounded work generator
//! and a backtracking search, each with a machine-checked contract.
//!
//! - [`grid`]: the board, its model, and the legality predicate.
//! - [`solution`]: valid grids, solved grids, and the fillings of a grid.
//! - [`candidate_set`], [`candidates`]: the values still legal in each
//!   empty cell, and the choice of the cell to branch on.
//! - [`propagation`]: what one placement does to the grid and the entries.
//! - [`search`]: the search state and the depth-first solver.
//! - [`work`]: the expansion of a state into a pool of independent states.
//! - [`engine`]: the pool of a board, the dispatcher that workers share,
//!   and the engine on one thread.
//! - [`schedule`]: runs of a search under any schedule of its workers.
//! - [`conflicts`]: boards with a value repeated in a row.
//! - [`parse`]: the text form of a board.

pub mod candidate_set;
pub mod candidates;
pub mod conflicts;
pub mod engine;
pub mod grid;
pub mod parse;
pub mod propagation;
pub mod schedule;
pub mod search;
pub mod solution;
pub mod work;
