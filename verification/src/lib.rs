//! Pseudo-legal chess move generation on an 8x8 board, a small engine facade
//! that aggregates and applies moves, and the line-oriented protocol state
//! machine that drives an external engine process.

pub mod board;
pub mod engine;
pub mod move_gen;
pub mod uci;
