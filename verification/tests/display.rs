use brainybishop::bitboard::Bitboard;
use brainybishop::board::{Board, Color, Piece, PieceType, Square};
use brainybishop::error::Error;

#[test]
fn test_board_diagram() {
    let expected = "\
8 ♖ ♘ ♗ ♕ ♔ ♗ ♘ ♖ \n\
7 ♙ ♙ ♙ ♙ ♙ ♙ ♙ ♙ \n\
6 . . . . . . . . \n\
5 . . . . . . . . \n\
4 . . . . . . . . \n\
3 . . . . . . . . \n\
2 ♟ ♟ ♟ ♟ ♟ ♟ ♟ ♟ \n\
1 ♜ ♞ ♝ ♛ ♚ ♝ ♞ ♜ \n  a b c d e f g h\n";
    assert_eq!(Board::default().bitboard.to_text(), expected);
}

#[test]
fn test_empty_board_diagram() {
    let text = Bitboard::new().to_text();
    let lines: Vec<&str> = text.lines().collect();
    assert_eq!(lines.len(), 9);
    assert_eq!(lines[0], "8 . . . . . . . . ");
    assert_eq!(lines[7], "1 . . . . . . . . ");
    assert_eq!(lines[8], "  a b c d e f g h");
    let mut bb = Bitboard::new();
    bb.set_piece(Square::from_index(28), Piece(PieceType::Queen, Color::Black));
    let text = bb.to_text();
    let lines: Vec<&str> = text.lines().collect();
    assert_eq!(lines[4], "4 . . . . ♕ . . . ");
}

#[test]
fn test_error_messages() {
    assert_eq!(Error::InvalidSquare(8, 3).message(), "Invalid square: 83");
    assert_eq!(Error::InvalidSquare(0, 200).message(), "Invalid square: 0200");
    assert_eq!(Error::InvalidAlgebraicNotation.message(), "Invalid algebraic notation");
    assert_eq!(Error::InvalidFen.message(), "Invalid FEN");
    assert_eq!(Error::InvalidPlacement.message(), "Invalid piece placement");
    assert_eq!(Error::InvalidSide.message(), "Error parsing turn-to-move");
    assert_eq!(Error::InvalidCastling.message(), "Invalid castling rights");
    assert_eq!(Error::InvalidEnPassant.message(), "Invalid en-passant square");
    assert_eq!(Error::InvalidCounter.message(), "Invalid move counter");
    assert_eq!(Error::InvalidMove("e2e5".to_string()).message(), "Invalid move: e2e5");
}
