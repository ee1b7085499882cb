//! A verified 9x9 sudoku engine: grid geometry, bit-set primitives,
//! candidate propagation, deduction strategies, a backtracking solver and a
//! unique-solution puzzle generator.

pub mod bitset;
pub mod board;
pub mod candidates;
pub mod digit;
pub mod errors;
pub mod generator;
pub mod positions;
pub mod rng;
pub mod solver;
pub mod strategy;
