//! Failures reported at the text boundaries of the crate.

use vstd::prelude::*;

verus! {

/// Why a piece of text was rejected.
#[derive(Debug, PartialEq, Eq)]
pub enum Error {
    /// File or rank outside `0..8`.
    InvalidSquare(u8, u8),
    /// A square name that is not a file letter `a..h` followed by a rank digit `1..8`.
    InvalidAlgebraicNotation,
    /// A position text that does not have exactly six fields.
    InvalidFen,
    /// Malformed piece-placement field.
    InvalidPlacement,
    /// Side-to-move field that is neither `w` nor `b`.
    InvalidSide,
    /// Castling field with characters outside `KQkq`, and not `-`.
    InvalidCastling,
    /// En-passant field that is neither `-` nor a square name.
    InvalidEnPassant,
    /// Half-move or full-move counter that is not a number in range.
    InvalidCounter,
    /// A move text that matches no legal move of the position.
    InvalidMove(String),
}

} // verus!
