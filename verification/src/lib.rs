//! Rule engine of a 2048-style sliding-tile puzzle.
//!
//! A square board holds tiles that are powers of two. A move slides every
//! tile toward one edge, merges equal neighbours once, and earns the value of
//! each merged tile. After a move that changed the board a new tile appears
//! on a free cell, and the board is judged: won, lost, or still in play.
//!
//! Every function here carries a contract over a mathematical model of the
//! board, a grid of natural numbers, and Verus proves that the code meets it.

pub mod board;
pub mod direction;
pub mod engine;
pub mod evaluator;
pub mod grid;
pub mod laws;
pub mod line;
pub mod seq_facts;
pub mod session;
pub mod spawner;
pub mod tile;
pub mod worth;
