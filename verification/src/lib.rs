//! Longest dictionary word on a letter grid.
//!
//! A dictionary is held in a prefix tree: every node stands for the letters
//! on the way from the root to it, and says whether they make up a whole word.
//! The solver walks the grid from every cell, one neighbouring cell at a
//! time, and gives up a walk as soon as its letters are no prefix of a word.
use vstd::prelude::*;

pub mod dict_entry;
pub mod solver;
pub mod text;
pub mod word_dict;

verus! {

/// A grid of characters, row by row.
pub type Board = Vec<Vec<char>>;

/// A cell of the grid: row first, then column, both counted from zero.
pub type Pos = (usize, usize);

} // verus!
