use brainybishop::bitboard::Bitboard;
use brainybishop::board::{Board, CastlingRights, Color, Piece, PieceType, Square};
use brainybishop::error::Error;

const START: &str = "rnbqkbnr/pppppppp/8/8/8/8/PPPPPPPP/RNBQKBNR w KQkq - 0 1";
const KIWIPETE: &str = "r3k2r/p1ppqpb1/bn2pnp1/3PN3/1p2P3/2N2Q1p/PPPBBPPP/R3K2R w KQkq - 0 1";

#[test]
fn test_initial_position_round_trips_to_canonical_text() {
    assert_eq!(Board::default().to_fen(), START);
    assert_eq!(Board::from_fen(START).unwrap().to_fen(), START);
}

#[test]
fn test_fen_round_trip_on_positions() {
    let texts = [
        START,
        KIWIPETE,
        "8/2p5/3p4/KP5r/1R3p1k/8/4P1P1/8 w - - 0 1",
        "n1n5/PPPk4/8/8/8/8/4Kppp/5N1N b - - 0 1",
        "rnbqkbnr/ppp1p1pp/8/3pPp2/8/8/PPPP1PPP/RNBQKBNR w KQkq d6 0 1",
        "8/8/8/8/8/8/8/8 b Kq a3 65535 18446744073709551615",
        "4k3/8/8/8/8/8/8/4K3 w - - 12 345",
    ];
    for text in texts {
        let board = Board::from_fen(text).unwrap();
        assert_eq!(board.to_fen(), text);
        assert_eq!(Board::from_fen(&board.to_fen()).unwrap(), board);
    }
}

#[test]
fn test_fen_fields() {
    let board =
        Board::from_fen("rnbqkbnr/ppp1p1pp/8/3pPp2/8/8/PPPP1PPP/RNBQKBNR b Kq d6 7 42").unwrap();
    assert_eq!(board.turn, Color::Black);
    assert_eq!(board.castling, CastlingRights(0b1001));
    assert_eq!(board.en_passant, Some(Square(1 << 43)));
    assert_eq!(board.halfmove, 7);
    assert_eq!(board.fullmove, 42);
    assert_eq!(
        board.get_piece(&Square::from_index(36)),
        Some(Piece(PieceType::Pawn, Color::White))
    );
    assert_eq!(
        board.get_piece(&Square::from_index(35)),
        Some(Piece(PieceType::Pawn, Color::Black))
    );
    assert_eq!(board.get_piece(&Square::from_index(12)), None);
    assert_eq!(board.bitboard.all, board.bitboard.white | board.bitboard.black);
}

#[test]
fn test_fen_accepts_any_separators() {
    let board = Board::from_fen("  8/8/8/8/8/8/8/8\tw \n -   -  0   1  ").unwrap();
    assert_eq!(board.bitboard, Bitboard::new());
    assert_eq!(board.to_fen(), "8/8/8/8/8/8/8/8 w - - 0 1");
}

#[test]
fn test_fen_wrong_field_count() {
    assert_eq!(Board::from_fen(""), Err(Error::InvalidFen));
    assert_eq!(Board::from_fen("8/8/8/8/8/8/8/8 w - - 0"), Err(Error::InvalidFen));
    assert_eq!(Board::from_fen("8/8/8/8/8/8/8/8 w - - 0 1 extra"), Err(Error::InvalidFen));
    // The count is looked at first.
    assert_eq!(Board::from_fen("x y"), Err(Error::InvalidFen));
}

#[test]
fn test_fen_invalid_placement() {
    // Unknown piece letter.
    assert_eq!(Board::from_fen("8/8/8/8/8/8/8/7x w - - 0 1"), Err(Error::InvalidPlacement));
    // Rank too short, too long, too few ranks, too many.
    assert_eq!(Board::from_fen("8/8/8/8/8/8/8/7 w - - 0 1"), Err(Error::InvalidPlacement));
    assert_eq!(Board::from_fen("8/8/8/8/8/8/8/9 w - - 0 1"), Err(Error::InvalidPlacement));
    assert_eq!(Board::from_fen("8/8/8/8/8/8/8/8p w - - 0 1"), Err(Error::InvalidPlacement));
    assert_eq!(Board::from_fen("8/8/8/8/8/8/8 w - - 0 1"), Err(Error::InvalidPlacement));
    assert_eq!(Board::from_fen("8/8/8/8/8/8/8/8/8 w - - 0 1"), Err(Error::InvalidPlacement));
    assert_eq!(Board::from_fen("8/8/8/8/8/8/8/08 w - - 0 1"), Err(Error::InvalidPlacement));
}

#[test]
fn test_fen_invalid_side() {
    assert_eq!(Board::from_fen("8/8/8/8/8/8/8/8 x - - 0 1"), Err(Error::InvalidSide));
    assert_eq!(Board::from_fen("8/8/8/8/8/8/8/8 W - - 0 1"), Err(Error::InvalidSide));
    assert_eq!(Board::from_fen("8/8/8/8/8/8/8/8 wb - - 0 1"), Err(Error::InvalidSide));
}

#[test]
fn test_fen_invalid_castling() {
    assert_eq!(Board::from_fen("8/8/8/8/8/8/8/8 w KQx - 0 1"), Err(Error::InvalidCastling));
    assert_eq!(Board::from_fen("8/8/8/8/8/8/8/8 w 0 - 0 1"), Err(Error::InvalidCastling));
    // Any order, and repetition, are accepted.
    let board = Board::from_fen("8/8/8/8/8/8/8/8 w qKq - 0 1").unwrap();
    assert_eq!(board.castling, CastlingRights(0b1001));
}

#[test]
fn test_fen_invalid_en_passant() {
    assert_eq!(Board::from_fen("8/8/8/8/8/8/8/8 w - e9 0 1"), Err(Error::InvalidEnPassant));
    assert_eq!(Board::from_fen("8/8/8/8/8/8/8/8 w - i3 0 1"), Err(Error::InvalidEnPassant));
    assert_eq!(Board::from_fen("8/8/8/8/8/8/8/8 w - e 0 1"), Err(Error::InvalidEnPassant));
    assert_eq!(Board::from_fen("8/8/8/8/8/8/8/8 w - -- 0 1"), Err(Error::InvalidEnPassant));
}

#[test]
fn test_fen_invalid_counter() {
    assert_eq!(Board::from_fen("8/8/8/8/8/8/8/8 w - - x 1"), Err(Error::InvalidCounter));
    assert_eq!(Board::from_fen("8/8/8/8/8/8/8/8 w - - -1 1"), Err(Error::InvalidCounter));
    assert_eq!(Board::from_fen("8/8/8/8/8/8/8/8 w - - 65536 1"), Err(Error::InvalidCounter));
    assert_eq!(Board::from_fen("8/8/8/8/8/8/8/8 w - - 0 0"), Err(Error::InvalidCounter));
    assert_eq!(Board::from_fen("8/8/8/8/8/8/8/8 w - - 0 1a"), Err(Error::InvalidCounter));
    assert_eq!(
        Board::from_fen("8/8/8/8/8/8/8/8 w - - 0 18446744073709551616"),
        Err(Error::InvalidCounter)
    );
    // Leading zeros are digits like any other.
    let board = Board::from_fen("8/8/8/8/8/8/8/8 w - - 007 010").unwrap();
    assert_eq!(board.halfmove, 7);
    assert_eq!(board.fullmove, 10);
}

#[test]
fn test_fen_first_violation_decides() {
    assert_eq!(Board::from_fen("9/8/8/8/8/8/8/8 x z z9 a b"), Err(Error::InvalidPlacement));
    assert_eq!(Board::from_fen("8/8/8/8/8/8/8/8 x z z9 a b"), Err(Error::InvalidSide));
    assert_eq!(Board::from_fen("8/8/8/8/8/8/8/8 w z z9 a b"), Err(Error::InvalidCastling));
    assert_eq!(Board::from_fen("8/8/8/8/8/8/8/8 w - z9 a b"), Err(Error::InvalidEnPassant));
    assert_eq!(Board::from_fen("8/8/8/8/8/8/8/8 w - - a b"), Err(Error::InvalidCounter));
    assert_eq!(Board::from_fen("8/8/8/8/8/8/8/8 w - - 0 b"), Err(Error::InvalidCounter));
}

#[test]
fn test_square_names() {
    assert_eq!(Square::from_algebraic("a1"), Ok(Square(1)));
    assert_eq!(Square::from_algebraic("h1"), Ok(Square(1 << 7)));
    assert_eq!(Square::from_algebraic("a8"), Ok(Square(1 << 56)));
    assert_eq!(Square::from_algebraic("h8"), Ok(Square(1 << 63)));
    assert_eq!(Square::from_algebraic("e4").unwrap().to_algebraic(), "e4");
    assert_eq!(Square::from_algebraic("e4").unwrap().file(), 4);
    assert_eq!(Square::from_algebraic("e4").unwrap().rank(), 3);
    assert_eq!(Square::from_algebraic("e4").unwrap().to_index(), 28);
    for bad in ["", "a", "a0", "a9", "i1", "A1", "e44", "é1"] {
        assert_eq!(Square::from_algebraic(bad), Err(Error::InvalidAlgebraicNotation));
    }
    for idx in 0..64usize {
        let sq = Square::from_index(idx);
        assert_eq!(Square::from_algebraic(&sq.to_algebraic()), Ok(sq));
    }
}

#[test]
fn test_square_from_file_and_rank() {
    assert_eq!(Square::from(4, 1), Ok(Square(1 << 12)));
    assert_eq!(Square::from(0, 0), Ok(Square(1)));
    assert_eq!(Square::from(7, 7), Ok(Square(1 << 63)));
    assert_eq!(Square::from(8, 0), Err(Error::InvalidSquare(8, 0)));
    assert_eq!(Square::from(0, 8), Err(Error::InvalidSquare(0, 8)));
    assert_eq!(Square::from(200, 200), Err(Error::InvalidSquare(200, 200)));
}

#[test]
fn test_piece_letters() {
    for c in "pnbrqkPNBRQK".chars() {
        let piece = Piece::from_char(c).unwrap();
        assert_eq!(piece.to_char(), c);
    }
    assert_eq!(Piece::from_char('P'), Some(Piece(PieceType::Pawn, Color::White)));
    assert_eq!(Piece::from_char('q'), Some(Piece(PieceType::Queen, Color::Black)));
    assert_eq!(Piece::from_char('x'), None);
    assert_eq!(Piece::from_char('1'), None);
}
