//! A 9x9 Sudoku library: a backtracking generator that fills the grid so that
//! every row, column and 3x3 box holds each of 1..9 exactly once, a clue
//! remover that blanks a chosen number of cells, and an interactive solver
//! that protects clue cells and detects completion.

pub mod cell;
pub mod board;
