//! A crossword grid filler: grids of blocked and fillable cells, a
//! pattern-indexed dictionary, and a backtracking solver that fills every
//! maximal run of three or more fillable cells with a dictionary word.

pub mod basic_types;
pub mod dict;
pub mod grid;
pub mod rng;
