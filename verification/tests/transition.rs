use brainybishop::bitboard::{piece_from_index, piece_to_index, piece_type_color_to_index, Bitboard};
use brainybishop::board::{Board, CastlingRights, Color, Piece, PieceType, Square};
use brainybishop::moves::{
    Move, FLAG_CAPTURE, FLAG_DOUBLE_PUSH, FLAG_EP_CAPTURE, FLAG_KING_CASTLE, FLAG_PROMO_CAPTURE_Q,
    FLAG_PROMO_N, FLAG_QUEEN_CASTLE, FLAG_QUIET,
};

fn board(fen: &str) -> Board {
    Board::from_fen(fen).unwrap()
}

#[test]
fn test_quiet_move_and_counters() {
    let b = board("4k3/8/8/8/8/8/8/4K1N1 w - - 5 10");
    let next = b.make_move(Move::new(6, 21, FLAG_QUIET));
    assert_eq!(next.to_fen(), "4k3/8/8/8/8/5N2/8/4K3 b - - 6 10");
    let after = next.make_move(Move::new(60, 59, FLAG_QUIET));
    assert_eq!(after.to_fen(), "3k4/8/8/8/8/5N2/8/4K3 w - - 7 11");
    // The position moved from is left as it is.
    assert_eq!(b.to_fen(), "4k3/8/8/8/8/8/8/4K1N1 w - - 5 10");
}

#[test]
fn test_double_push_sets_en_passant() {
    let b = Board::default();
    let next = b.make_move(Move::new(12, 28, FLAG_DOUBLE_PUSH));
    assert_eq!(next.en_passant, Some(Square(1 << 20)));
    assert_eq!(next.halfmove, 0);
    assert_eq!(next.fullmove, 1);
    assert_eq!(next.turn, Color::Black);
    let after = next.make_move(Move::new(52, 36, FLAG_DOUBLE_PUSH));
    assert_eq!(after.en_passant, Some(Square(1 << 44)));
    assert_eq!(after.fullmove, 2);
    let then = after.make_move(Move::new(6, 21, FLAG_QUIET));
    assert_eq!(then.en_passant, None);
}

#[test]
fn test_capture_resets_halfmove() {
    let b = board("4k3/8/8/3p4/4N3/8/8/4K3 w - - 9 1");
    let next = b.make_move(Move::new(28, 35, FLAG_CAPTURE));
    assert_eq!(next.to_fen(), "4k3/8/8/3N4/8/8/8/4K3 b - - 0 1");
}

#[test]
fn test_en_passant_capture_removes_the_pawn_behind() {
    let b = board("4k3/8/8/3pP3/8/8/8/4K3 w - d6 0 1");
    let next = b.make_move(Move::new(36, 43, FLAG_EP_CAPTURE));
    assert_eq!(next.to_fen(), "4k3/8/3P4/8/8/8/8/4K3 b - - 0 1");
    let b = board("4k3/8/8/8/3pP3/8/8/4K3 b - e3 0 1");
    let next = b.make_move(Move::new(27, 20, FLAG_EP_CAPTURE));
    assert_eq!(next.to_fen(), "4k3/8/8/8/8/4p3/8/4K3 w - - 0 2");
}

#[test]
fn test_promotion_places_the_new_piece() {
    let b = board("1n5k/P7/8/8/8/8/8/4K3 w - - 3 1");
    let next = b.make_move(Move::new(48, 56, FLAG_PROMO_N));
    assert_eq!(next.to_fen(), "Nn5k/8/8/8/8/8/8/4K3 b - - 0 1");
    let next = b.make_move(Move::new(48, 57, FLAG_PROMO_CAPTURE_Q));
    assert_eq!(next.to_fen(), "1Q5k/8/8/8/8/8/8/4K3 b - - 0 1");
}

#[test]
fn test_castling_moves_the_rook_and_clears_rights() {
    let b = board("r3k2r/8/8/8/8/8/8/R3K2R w KQkq - 0 1");
    let ks = b.make_move(Move::new(4, 6, FLAG_KING_CASTLE));
    assert_eq!(ks.to_fen(), "r3k2r/8/8/8/8/8/8/R4RK1 b kq - 1 1");
    let qs = b.make_move(Move::new(4, 2, FLAG_QUEEN_CASTLE));
    assert_eq!(qs.to_fen(), "r3k2r/8/8/8/8/8/8/2KR3R b kq - 1 1");
    let b = board("r3k2r/8/8/8/8/8/8/R3K2R b KQkq - 0 1");
    let ks = b.make_move(Move::new(60, 62, FLAG_KING_CASTLE));
    assert_eq!(ks.to_fen(), "r4rk1/8/8/8/8/8/8/R3K2R w KQ - 1 2");
    let qs = b.make_move(Move::new(60, 58, FLAG_QUEEN_CASTLE));
    assert_eq!(qs.to_fen(), "2kr3r/8/8/8/8/8/8/R3K2R w KQ - 1 2");
}

#[test]
fn test_rook_moves_and_captures_clear_one_right() {
    let b = board("r3k2r/8/8/8/8/8/8/R3K2R w KQkq - 0 1");
    assert_eq!(b.make_move(Move::new(0, 8, FLAG_QUIET)).castling, CastlingRights(0b1101));
    assert_eq!(b.make_move(Move::new(7, 15, FLAG_QUIET)).castling, CastlingRights(0b1110));
    assert_eq!(b.make_move(Move::new(4, 12, FLAG_QUIET)).castling, CastlingRights(0b1100));
    // Rook takes rook on its home square: both sides lose that wing.
    assert_eq!(b.make_move(Move::new(0, 56, FLAG_CAPTURE)).castling, CastlingRights(0b0101));
    assert_eq!(b.make_move(Move::new(7, 63, FLAG_CAPTURE)).castling, CastlingRights(0b1010));
    let b = board("r3k2r/8/8/8/8/8/8/R3K2R b KQkq - 0 1");
    assert_eq!(b.make_move(Move::new(60, 52, FLAG_QUIET)).castling, CastlingRights(0b0011));
    assert_eq!(b.make_move(Move::new(56, 48, FLAG_QUIET)).castling, CastlingRights(0b0111));
    assert_eq!(b.make_move(Move::new(63, 55, FLAG_QUIET)).castling, CastlingRights(0b1011));
}

#[test]
fn test_occupancy_stays_consistent_through_edits() {
    let mut bb = Bitboard::new();
    let steps: [(usize, Option<Piece>); 8] = [
        (4, Some(Piece(PieceType::King, Color::White))),
        (60, Some(Piece(PieceType::King, Color::Black))),
        (4, Some(Piece(PieceType::Queen, Color::Black))),
        (12, None),
        (4, None),
        (4, None),
        (63, Some(Piece(PieceType::Rook, Color::White))),
        (60, Some(Piece(PieceType::Pawn, Color::White))),
    ];
    for (idx, piece) in steps {
        let sq = Square::from_index(idx);
        match piece {
            Some(p) => bb.set_piece(sq, p),
            None => bb.remove_piece(&sq),
        }
        let white = bb.pieces[0..6].iter().fold(0u64, |a, b| a | b);
        let black = bb.pieces[6..12].iter().fold(0u64, |a, b| a | b);
        assert_eq!(bb.white, white);
        assert_eq!(bb.black, black);
        assert_eq!(bb.all, white | black);
        assert!(bb.is_consistent());
        assert!(bb.is_disjoint());
    }
    assert_eq!(bb.get_piece(&Square::from_index(60)), Some(Piece(PieceType::Pawn, Color::White)));
    assert_eq!(bb.get_piece(&Square::from_index(4)), None);
    assert!(bb.is_square_empty(&Square::from_index(4)));
    assert!(!bb.is_square_empty(&Square::from_index(63)));
    assert_eq!(bb.white, (1 << 63) | (1 << 60));
    assert_eq!(bb.black, 0);
}

#[test]
fn test_piece_indices() {
    assert_eq!(piece_type_color_to_index(PieceType::Pawn, Color::White), 0);
    assert_eq!(piece_type_color_to_index(PieceType::King, Color::White), 5);
    assert_eq!(piece_type_color_to_index(PieceType::Pawn, Color::Black), 6);
    assert_eq!(piece_type_color_to_index(PieceType::King, Color::Black), 11);
    for i in 0..12usize {
        assert_eq!(piece_to_index(piece_from_index(i)), i);
    }
    let b = Board::default();
    assert_eq!(b.pieces(PieceType::Knight, Color::Black), 0x4200000000000000);
    assert_eq!(b.bitboard.piece_bb(PieceType::Queen, Color::White), 0x08);
    assert_eq!(b.occupancy(Color::White), 0xFFFF);
    assert_eq!(b.bitboard.occupancy(Color::Black), 0xFFFF000000000000);
    assert_eq!(b.all_occupancy(), 0xFFFF00000000FFFF);
    assert_eq!(b.side_to_move(), Color::White);
    assert_eq!(b.king_square(Color::White), 4);
    assert_eq!(b.king_square(Color::Black), 60);
    assert_eq!(Color::White.opposite(), Color::Black);
    assert_eq!(Color::Black.index(), 1);
}

#[test]
fn test_validity() {
    assert!(Board::default().is_valid());
    // No kings.
    assert!(!board("8/8/8/8/8/8/8/8 w - - 0 1").is_valid());
    // Two white kings.
    assert!(!board("4k3/8/8/8/8/8/8/3KK3 w - - 0 1").is_valid());
    // A pawn on the last rank.
    assert!(!board("P3k3/8/8/8/8/8/8/4K3 w - - 0 1").is_valid());
    assert!(!board("4k3/8/8/8/8/8/8/p3K3 w - - 0 1").is_valid());
    // A castling right without the rook, or with the king elsewhere.
    assert!(!board("4k3/8/8/8/8/8/8/4K3 w K - 0 1").is_valid());
    assert!(!board("4k2r/8/8/8/8/8/8/3K3R w K - 0 1").is_valid());
    assert!(board("4k2r/8/8/8/8/8/8/4K2R w Kk - 0 1").is_valid());
    // An en-passant target without the pawn in front of it, or on a wrong rank.
    assert!(!board("4k3/8/8/8/8/8/8/4K3 w - d6 0 1").is_valid());
    assert!(!board("4k3/8/8/3p4/8/8/8/4K3 b - d6 0 1").is_valid());
    assert!(board("4k3/8/8/3p4/8/8/8/4K3 w - d6 0 1").is_valid());
    assert!(board("4k3/8/8/8/4P3/8/8/4K3 b - e3 0 1").is_valid());
    // Unions that do not match the piece sets.
    let mut b = Board::default();
    b.bitboard.white = 0;
    assert!(!b.is_valid());
    // A square in two sets.
    let mut b = Board::default();
    b.bitboard.pieces[1] |= 1 << 8;
    b.bitboard = Bitboard::from_pieces(b.bitboard.pieces);
    assert!(!b.is_valid());
}
