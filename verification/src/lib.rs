//! Constraint-based deduction on a 9x9 Sudoku board.
//!
//! A board is a flat sequence of 81 cells, stored box by box; 0 stands for a
//! blank cell and 1 to 9 for a digit. Nothing else is stored: the row and
//! the column of a cell are derived from its index.
//!
//! - [`mapper`] maps between cell indices, boxes, rows and columns.
//! - [`units`] reads the nine cells of a box, a row or a column.
//! - [`validation`] checks that no unit holds a digit twice.
//! - [`candidates`] marks, for each blank cell, the digits still possible.
//! - [`resolver`] writes the digits that the marks force, and completes a
//!   box that lacks one digit.
//! - [`board`] checks and counts the cells of a board.
//! - [`text`] reads a board from text and draws it.
//!
//! Every function leaves its input as it is and returns a new value. One
//! round of solving is [`resolver::solve_pass`]; the caller repeats it until
//! the board no longer changes.

pub mod board;
pub mod candidates;
pub mod mapper;
pub mod resolver;
pub mod text;
pub mod units;
pub mod validation;
