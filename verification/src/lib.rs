//! A legal chess move generator on bitboards.
//!
//! A position is a handful of 64-bit masks; bit `i` of a mask stands for
//! square `i`, counted from a1 (0) along the first rank to h1 (7) and on to
//! h8 (63). The library computes attack sets, lists exactly the legal
//! moves of a position, plays a move on a position and counts lines of
//! play.
//!
//! - `bits`, `geometry`, `consts`: masks as sets of squares, the lines and
//!   steps of the board, the numeric codes.
//! - `attacks`: the squares that each piece attacks.
//! - `position`: positions and moves, and `make`, which plays a move.
//! - `rules`: which positions are sound and which moves are legal.
//! - `movegen`: `gen`, which lists the legal moves.
//! - `effects`, `legality`, `laws`: what a move does to the board, why the
//!   generator lists the legal moves, and why a legal move leads to a sound
//!   position.
//! - `trial`: making moves first and asking afterwards whether they were
//!   legal.
//! - `perft`, `epd`, `fen`: counting lines of play, reading known counts,
//!   reading positions.

pub mod bits;
pub mod consts;
pub mod geometry;
pub mod attacks;
pub mod position;
pub mod rules;
pub mod movegen;
pub mod effects;
pub mod legality;
pub mod laws;
pub mod trial;
pub mod perft;
pub mod epd;
pub mod fen;
