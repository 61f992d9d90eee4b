//! Rules of the game of Go on a square board: stones, groups and their
//! liberties, captures, the suicide and ko rules, passing, and Japanese
//! territory scoring.

pub mod board;
pub mod grid;
pub mod group;
pub mod capture;
pub mod rules;
pub mod scoring;
pub mod laws;
