//! A word-search generator: words are laid out as small letter patterns, scored
//! against a board by how well they interlock with letters already placed, and
//! committed by a backtracking search over a stack of board snapshots.

pub mod cell;
pub mod board;
pub mod scoring;
pub mod pattern;
pub mod merge;
pub mod candidate;
pub mod engine;
pub mod wordlist;
pub mod filler;
