//! Bitboard chess core: position representation, attack tables, magic
//! sliding attacks, fully legal move generation and position transition.

pub mod analysis;
pub mod bitboard;
pub mod bits;
pub mod board;
pub mod complete;
pub mod display;
pub mod error;
pub mod fen;
pub mod laws;
pub mod legal;
pub mod magic;
pub mod movegen;
pub mod moves;
pub mod safety;
pub mod sound;
pub mod tables;
pub mod text;
pub mod transition;
pub mod uci;
pub mod validity;
