//! A Sudoku solver and puzzle generator built on an explicit-stack
//! depth-first backtracking search.
//!
//! `Board` is a 9x9 grid of optional digits 1..=9 with row, column and box
//! uniqueness checks; `Tree` is a resumable search frontier that yields one
//! completed board per call; the generator module derives solved boards in
//! batches and carves puzzles out of solved boards while keeping them
//! uniquely solvable.

pub mod board;
pub mod generate;
pub mod position;
pub mod rng;
pub mod search;
