//! Encoding of generalized Sudoku puzzles as CNF formulas in DIMACS form.
//!
//! A puzzle of order `N` is played on an `N² × N²` grid tiled by `N × N`
//! blocks. Every triple (row, column, value) is a Boolean variable; the
//! formula built here is satisfiable exactly by the completed grids that
//! agree with the given clues.

pub mod cells;
pub mod clues;
pub mod entry;
pub mod formula;
pub mod groups;
pub mod meaning;
pub mod order;
pub mod solutions;
