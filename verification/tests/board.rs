use brainybishop::bitboard::Bitboard;
use brainybishop::board::{Board, CastlingRights, Color, Piece, PieceType, Square};

fn initial_pieces() -> [u64; 12] {
    [
        0xFF00,
        0x42,
        0x24,
        0x81,
        0x08,
        0x10,
        0xFF000000000000,
        0x4200000000000000,
        0x2400000000000000,
        0x8100000000000000,
        0x0800000000000000,
        0x1000000000000000,
    ]
}

#[test]
fn test_from_fen_default_position() {
    let board =
        Board::from_fen("rnbqkbnr/pppppppp/8/8/8/8/PPPPPPPP/RNBQKBNR w KQkq - 0 1").unwrap();

    assert_eq!(
        board,
        Board {
            bitboard: Bitboard::from_pieces(initial_pieces()),
            turn: Color::White,
            castling: CastlingRights(0b1111),
            en_passant: None,
            halfmove: 0,
            fullmove: 1,
        }
    );
}

#[test]
fn test_board_state_default() {
    let board = Board::default();

    assert_eq!(
        board,
        Board {
            // Default starting position
            bitboard: Bitboard::from_pieces(initial_pieces()),

            turn: Color::White,
            castling: CastlingRights(0b1111),
            en_passant: None,
            halfmove: 0,
            fullmove: 1,
        }
    );
    assert_eq!(board.bitboard.pieces, initial_pieces());
    assert_eq!(board.bitboard.white, 0xFFFF);
    assert_eq!(board.bitboard.black, 0xFFFF000000000000);
    assert_eq!(board.bitboard.all, 0xFFFF00000000FFFF);
}

#[test]
fn test_get_piece_default_position() {
    let board = Board::default().bitboard;

    let back = [
        PieceType::Rook,
        PieceType::Knight,
        PieceType::Bishop,
        PieceType::Queen,
        PieceType::King,
        PieceType::Bishop,
        PieceType::Knight,
        PieceType::Rook,
    ];
    for file in 0..8u8 {
        assert_eq!(
            board.get_piece(&Square::from(file, 0).unwrap()),
            Some(Piece(back[file as usize], Color::White))
        );
        assert_eq!(
            board.get_piece(&Square::from(file, 1).unwrap()),
            Some(Piece(PieceType::Pawn, Color::White))
        );
        assert_eq!(board.get_piece(&Square::from(file, 2).unwrap()), None);
        assert_eq!(board.get_piece(&Square::from(file, 3).unwrap()), None);
        assert_eq!(board.get_piece(&Square::from(file, 4).unwrap()), None);
        assert_eq!(board.get_piece(&Square::from(file, 5).unwrap()), None);
        assert_eq!(
            board.get_piece(&Square::from(file, 6).unwrap()),
            Some(Piece(PieceType::Pawn, Color::Black))
        );
        assert_eq!(
            board.get_piece(&Square::from(file, 7).unwrap()),
            Some(Piece(back[file as usize], Color::Black))
        );
    }
}
