use brainybishop::board::{Board, Color, Piece, PieceType, Square};
use brainybishop::error::Error;
use brainybishop::movegen::{generate_moves, MoveGen, Moves};
use brainybishop::moves::{
    Move, MoveList, FLAG_CAPTURE, FLAG_DOUBLE_PUSH, FLAG_EP_CAPTURE, FLAG_KING_CASTLE,
    FLAG_PROMO_B, FLAG_PROMO_CAPTURE_B, FLAG_PROMO_CAPTURE_N, FLAG_PROMO_CAPTURE_Q,
    FLAG_PROMO_CAPTURE_R, FLAG_PROMO_N, FLAG_PROMO_Q, FLAG_PROMO_R, FLAG_QUEEN_CASTLE, FLAG_QUIET,
};
use brainybishop::tables::Tables;
use brainybishop::uci::{find_move, is_square_attacked, UciEngine};

fn tables() -> Tables {
    Tables::new().expect("the fixed multipliers are perfect hashes")
}

fn board(fen: &str) -> Board {
    let b = Board::from_fen(fen).unwrap();
    assert!(b.is_valid());
    b
}

fn texts(list: &MoveList) -> Vec<String> {
    let mut v: Vec<String> = list.as_slice().iter().map(|m| m.to_uci()).collect();
    v.sort();
    v
}

#[test]
fn test_move_encoding_round_trip() {
    for from in 0..64usize {
        for to in 0..64usize {
            for flags in 0..16u16 {
                let m = Move::new(from, to, flags);
                assert_eq!(m.from(), from);
                assert_eq!(m.to(), to);
                assert_eq!(m.flags(), flags);
                assert_eq!(m.0, (from as u16) | ((to as u16) << 6) | (flags << 12));
            }
        }
    }
}

#[test]
fn test_move_predicates() {
    let captures = [
        FLAG_CAPTURE,
        FLAG_EP_CAPTURE,
        FLAG_PROMO_CAPTURE_N,
        FLAG_PROMO_CAPTURE_B,
        FLAG_PROMO_CAPTURE_R,
        FLAG_PROMO_CAPTURE_Q,
    ];
    for flags in 0..16u16 {
        let m = Move::new(12, 28, flags);
        assert_eq!(m.is_capture(), captures.contains(&flags));
        assert_eq!(m.is_promotion(), flags >= 8);
        assert_eq!(m.is_castle(), flags == FLAG_KING_CASTLE || flags == FLAG_QUEEN_CASTLE);
    }
    assert!(!Move::new(0, 1, FLAG_QUIET).is_capture());
    assert!(!Move::new(0, 1, FLAG_DOUBLE_PUSH).is_capture());
}

#[test]
fn test_move_text() {
    assert_eq!(Move::new(12, 28, FLAG_DOUBLE_PUSH).to_uci(), "e2e4");
    assert_eq!(Move::new(6, 21, FLAG_QUIET).to_uci(), "g1f3");
    assert_eq!(Move::new(52, 60, FLAG_PROMO_Q).to_uci(), "e7e8q");
    assert_eq!(Move::new(52, 60, FLAG_PROMO_N).to_uci(), "e7e8n");
    assert_eq!(Move::new(52, 61, FLAG_PROMO_CAPTURE_R).to_uci(), "e7f8r");
    assert_eq!(Move::new(52, 61, FLAG_PROMO_CAPTURE_B).to_uci(), "e7f8b");
    assert_eq!(Move::new(52, 60, FLAG_PROMO_B).to_uci(), "e7e8b");
    assert_eq!(Move::new(52, 60, FLAG_PROMO_R).to_uci(), "e7e8r");
    assert_eq!(Move::new(4, 6, FLAG_KING_CASTLE).to_uci(), "e1g1");
    assert_eq!(Move::new(60, 58, FLAG_QUEEN_CASTLE).to_uci(), "e8c8");
}

#[test]
fn test_move_text_finds_the_move_again() {
    let t = tables();
    for fen in [
        "rnbqkbnr/pppppppp/8/8/8/8/PPPPPPPP/RNBQKBNR w KQkq - 0 1",
        "r3k2r/p1ppqpb1/bn2pnp1/3PN3/1p2P3/2N2Q1p/PPPBBPPP/R3K2R w KQkq - 0 1",
        "n1n5/PPPk4/8/8/8/8/4Kppp/5N1N b - - 0 1",
        "rnbqkbnr/ppp1p1pp/8/3pPp2/8/8/PPPP1PPP/RNBQKBNR w KQkq d6 0 1",
    ] {
        let b = board(fen);
        let list = generate_moves(&t, &b);
        for m in list.as_slice() {
            assert_eq!(find_move(&list, &m.to_uci()), Some(*m));
        }
        assert_eq!(find_move(&list, "0000"), None);
        assert_eq!(find_move(&list, "e2e5"), None);
        assert_eq!(find_move(&list, ""), None);
    }
}

#[test]
fn test_move_list() {
    let mut list = MoveList::new();
    assert!(list.is_empty());
    assert_eq!(list.len(), 0);
    list.push(Move::new(1, 2, 0));
    list.push(Move::new(3, 4, 4));
    assert!(!list.is_empty());
    assert_eq!(list.len(), 2);
    assert_eq!(list.get(0), Move::new(1, 2, 0));
    assert_eq!(list.get(1), Move::new(3, 4, 4));
    assert_eq!(list.as_slice(), &[Move::new(1, 2, 0), Move::new(3, 4, 4)]);
}

#[test]
fn test_initial_moves() {
    let list = generate_moves(&tables(), &Board::default());
    let expected = vec![
        "a2a3", "a2a4", "b1a3", "b1c3", "b2b3", "b2b4", "c2c3", "c2c4", "d2d3", "d2d4", "e2e3",
        "e2e4", "f2f3", "f2f4", "g1f3", "g1h3", "g2g3", "g2g4", "h2h3", "h2h4",
    ];
    assert_eq!(texts(&list), expected);
    let doubles = list
        .as_slice()
        .iter()
        .filter(|m| m.flags() == FLAG_DOUBLE_PUSH)
        .count();
    assert_eq!(doubles, 8);
}

#[test]
fn test_generation_is_deterministic_and_without_repeats() {
    let t = tables();
    let b = board("r3k2r/p1ppqpb1/bn2pnp1/3PN3/1p2P3/2N2Q1p/PPPBBPPP/R3K2R w KQkq - 0 1");
    let first = generate_moves(&t, &b);
    let second = generate_moves(&t, &b);
    assert_eq!(first.as_slice(), second.as_slice());
    let mut seen: Vec<u16> = first.as_slice().iter().map(|m| m.0).collect();
    seen.sort();
    seen.dedup();
    assert_eq!(seen.len(), first.len());
}

#[test]
fn test_castling_moves() {
    let t = tables();
    let b = board("r3k2r/8/8/8/8/8/8/R3K2R w KQkq - 0 1");
    let list = generate_moves(&t, &b);
    assert!(list.as_slice().contains(&Move::new(4, 6, FLAG_KING_CASTLE)));
    assert!(list.as_slice().contains(&Move::new(4, 2, FLAG_QUEEN_CASTLE)));
    let b = board("r3k2r/8/8/8/8/8/8/R3K2R b KQkq - 0 1");
    let list = generate_moves(&t, &b);
    assert!(list.as_slice().contains(&Move::new(60, 62, FLAG_KING_CASTLE)));
    assert!(list.as_slice().contains(&Move::new(60, 58, FLAG_QUEEN_CASTLE)));
    // A rook on the f-file guards f1: no king-side castling, the other stays.
    let b = board("r3kr2/8/8/8/8/8/8/R3K2R w KQq - 0 1");
    let list = generate_moves(&t, &b);
    assert!(!list.as_slice().iter().any(|m| m.flags() == FLAG_KING_CASTLE));
    assert!(list.as_slice().contains(&Move::new(4, 2, FLAG_QUEEN_CASTLE)));
    // A piece on b1 stands in the way of the rook.
    let b = board("4k3/8/8/8/8/8/8/RN2K2R w KQ - 0 1");
    let list = generate_moves(&t, &b);
    assert!(list.as_slice().contains(&Move::new(4, 6, FLAG_KING_CASTLE)));
    assert!(!list.as_slice().iter().any(|m| m.flags() == FLAG_QUEEN_CASTLE));
    // An attack on b1 alone does not matter.
    let b = board("1r2k3/8/8/8/8/8/8/R3K3 w Q - 0 1");
    let list = generate_moves(&t, &b);
    assert!(list.as_slice().contains(&Move::new(4, 2, FLAG_QUEEN_CASTLE)));
    // In check there is no castling.
    let b = board("4r1k1/8/8/8/8/8/8/R3K2R w KQ - 0 1");
    let list = generate_moves(&t, &b);
    assert!(!list.as_slice().iter().any(|m| m.is_castle()));
    // Without the right there is none either.
    let b = board("4k3/8/8/8/8/8/8/R3K2R w - - 0 1");
    let list = generate_moves(&t, &b);
    assert!(!list.as_slice().iter().any(|m| m.is_castle()));
}

#[test]
fn test_double_check_leaves_king_moves_only() {
    let t = tables();
    // Knight on f3 and rook on e8 both give check to the king on e1.
    let b = board("4r2k/8/8/8/8/5n2/8/3QK3 w - - 0 1");
    let list = generate_moves(&t, &b);
    assert!(!list.is_empty());
    for m in list.as_slice() {
        assert_eq!(m.from(), 4);
    }
    assert_eq!(texts(&list), vec!["e1f1", "e1f2"]);
}

#[test]
fn test_single_check_is_blocked_or_captured() {
    let t = tables();
    // Rook e8 checks the king e1; the queen d1 can block on e2, the bishop b5 can take.
    let b = board("4r2k/8/8/1B6/8/8/8/3QK3 w - - 0 1");
    let list = generate_moves(&t, &b);
    assert_eq!(texts(&list), vec!["b5e2", "b5e8", "d1e2", "e1d2", "e1f1", "e1f2"]);
}

#[test]
fn test_king_may_not_retreat_along_the_check_ray() {
    let t = tables();
    // Rook a1 checks the king e1 along the rank: f1 stays attacked through the king.
    let b = board("7k/8/8/8/8/8/8/r3K3 w - - 0 1");
    let list = generate_moves(&t, &b);
    assert_eq!(texts(&list), vec!["e1d2", "e1e2", "e1f2"]);
}

#[test]
fn test_pinned_knight_cannot_move() {
    let t = tables();
    // Knight e2 between king e1 and rook e8.
    let b = board("4r2k/8/8/8/8/8/4N3/4K3 w - - 0 1");
    let list = generate_moves(&t, &b);
    assert!(list.as_slice().iter().all(|m| m.from() != 12));
    assert_eq!(texts(&list), vec!["e1d1", "e1d2", "e1f1", "e1f2"]);
    // Knight d2 between king e1 and bishop a5.
    let b = board("7k/8/8/b7/8/8/3N4/4K3 w - - 0 1");
    let list = generate_moves(&t, &b);
    assert!(list.as_slice().iter().all(|m| m.from() != 11));
    // With a second piece on the line the knight is free.
    let b = board("4r2k/8/8/4P3/8/8/4N3/4K3 w - - 0 1");
    let list = generate_moves(&t, &b);
    assert_eq!(list.as_slice().iter().filter(|m| m.from() == 12).count(), 6);
}

#[test]
fn test_pinned_pieces_keep_to_the_line() {
    let t = tables();
    // Rook e2 pinned on the e-file: it moves along the file only, up to the pinner.
    let b = board("4r2k/8/8/8/8/8/4R3/4K3 w - - 0 1");
    let list = generate_moves(&t, &b);
    let rook: Vec<String> = list
        .as_slice()
        .iter()
        .filter(|m| m.from() == 12)
        .map(|m| m.to_uci())
        .collect();
    assert_eq!(rook, vec!["e2e3", "e2e4", "e2e5", "e2e6", "e2e7", "e2e8"]);
    // Pawn d2 pinned on the diagonal by the bishop a5: it cannot push;
    // it could only take on c3.
    let b = board("7k/8/8/b7/8/8/3P4/4K3 w - - 0 1");
    let list = generate_moves(&t, &b);
    assert!(list.as_slice().iter().all(|m| m.from() != 11));
    let b = board("7k/8/8/8/8/2b5/3P4/4K3 w - - 0 1");
    let list = generate_moves(&t, &b);
    let pawn: Vec<String> = list
        .as_slice()
        .iter()
        .filter(|m| m.from() == 11)
        .map(|m| m.to_uci())
        .collect();
    assert_eq!(pawn, vec!["d2c3"]);
}

#[test]
fn test_en_passant_horizontal_discovery() {
    let t = tables();
    // King a5, pawn b5, black pawn c5 just pushed, black rook h5: taking
    // en passant would open the fifth rank.
    let b = board("8/8/8/KPp4r/8/8/8/7k w - c6 0 1");
    let list = generate_moves(&t, &b);
    assert!(!list.as_slice().iter().any(|m| m.flags() == FLAG_EP_CAPTURE));
    // Without the rook the capture is there.
    let b = board("8/8/8/KPp5/8/8/8/7k w - c6 0 1");
    let list = generate_moves(&t, &b);
    assert!(list.as_slice().contains(&Move::new(33, 42, FLAG_EP_CAPTURE)));
}

#[test]
fn test_en_passant_takes_the_checking_pawn() {
    let t = tables();
    // The pawn d5 has just pushed and checks the king on e4; e5 takes it en passant.
    let b = board("7k/8/8/3pP3/4K3/8/8/8 w - d6 0 1");
    let list = generate_moves(&t, &b);
    assert!(list.as_slice().contains(&Move::new(36, 43, FLAG_EP_CAPTURE)));
}

#[test]
fn test_promotions() {
    let t = tables();
    let b = board("1n5k/P7/8/8/8/8/8/4K3 w - - 0 1");
    let list = generate_moves(&t, &b);
    let pawn: Vec<Move> = list.as_slice().iter().copied().filter(|m| m.from() == 48).collect();
    assert_eq!(pawn.len(), 8);
    for f in [FLAG_PROMO_N, FLAG_PROMO_B, FLAG_PROMO_R, FLAG_PROMO_Q] {
        assert!(pawn.contains(&Move::new(48, 56, f)));
    }
    for f in [
        FLAG_PROMO_CAPTURE_N,
        FLAG_PROMO_CAPTURE_B,
        FLAG_PROMO_CAPTURE_R,
        FLAG_PROMO_CAPTURE_Q,
    ] {
        assert!(pawn.contains(&Move::new(48, 57, f)));
    }
}

#[test]
fn test_no_legal_moves_is_checkmate_or_stalemate() {
    let t = tables();
    // Fool's mate: White is checkmated.
    let b = board("rnb1kbnr/pppp1ppp/8/4p3/6Pq/5P2/PPPPP2P/RNBQKBNR w KQkq - 1 3");
    assert!(generate_moves(&t, &b).is_empty());
    assert!(is_square_attacked(&t, &b, b.king_square(Color::White), Color::Black));
    // Stalemate: Black to move, king a8, white queen b6, white king c7.
    let b = board("k7/2K5/1Q6/8/8/8/8/8 b - - 0 1");
    assert!(generate_moves(&t, &b).is_empty());
    assert!(!is_square_attacked(&t, &b, b.king_square(Color::Black), Color::White));
    // In check with an escape: not terminal.
    let b = board("4r2k/8/8/8/8/8/8/4K3 w - - 0 1");
    assert!(!generate_moves(&t, &b).is_empty());
    assert!(is_square_attacked(&t, &b, 4, Color::Black));
}

fn check_safe_after_every_move(t: &Tables, b: &Board, depth: u32) {
    let list = generate_moves(t, b);
    for m in list.as_slice() {
        let next = b.make_move(*m);
        assert!(next.is_valid());
        let king = next.king_square(b.turn);
        assert!(!is_square_attacked(t, &next, king, next.turn), "{} in {}", m.to_uci(), b.to_fen());
        if depth > 1 {
            check_safe_after_every_move(t, &next, depth - 1);
        }
    }
}

#[test]
fn test_mover_is_not_in_check_after_a_legal_move() {
    let t = tables();
    for fen in [
        "rnbqkbnr/pppppppp/8/8/8/8/PPPPPPPP/RNBQKBNR w KQkq - 0 1",
        "r3k2r/p1ppqpb1/bn2pnp1/3PN3/1p2P3/2N2Q1p/PPPBBPPP/R3K2R w KQkq - 0 1",
        "8/2p5/3p4/KP5r/1R3p1k/8/4P1P1/8 w - - 0 1",
        "n1n5/PPPk4/8/8/8/8/4Kppp/5N1N b - - 0 1",
        "rnbqkbnr/ppp1p1pp/8/3pPp2/8/8/PPPP1PPP/RNBQKBNR w KQkq d6 0 1",
    ] {
        check_safe_after_every_move(&t, &board(fen), 2);
    }
}

#[test]
fn test_single_piece_queries() {
    let t = tables();
    let b = Board::default();
    let e2 = Square::from_algebraic("e2").unwrap();
    let moves = MoveGen::get_moves(&t, &b, &e2).unwrap();
    assert_eq!(moves.from, e2);
    assert_eq!(moves.to, Square((1 << 20) | (1 << 28)));
    assert_eq!(moves.to_algebraic(), "e3,e4");
    let pawn = MoveGen::get_pawn_moves(&t, &b, &e2, Color::White).unwrap();
    assert_eq!(pawn.to.0, (1 << 20) | (1 << 28));
    assert!(MoveGen::get_pawn_moves(&t, &b, &e2, Color::Black).is_none());
    let b1 = Square::from_algebraic("b1").unwrap();
    let knight = MoveGen::get_knight_moves(&t, &b, &b1).unwrap();
    assert_eq!(knight.to_algebraic(), "a3,c3");
    assert!(MoveGen::get_knight_moves(&t, &b, &e2).is_none());
    // The king is boxed in; empty squares and the opponent's pieces have no move.
    let e1 = Square::from_algebraic("e1").unwrap();
    assert!(MoveGen::get_king_moves(&t, &b, &e1).is_none());
    assert!(MoveGen::get_moves(&t, &b, &Square::from_algebraic("e4").unwrap()).is_none());
    assert!(MoveGen::get_moves(&t, &b, &Square::from_algebraic("e7").unwrap()).is_none());
    let open = board("4k3/8/8/8/8/8/8/4K3 w - - 0 1");
    let king = MoveGen::get_king_moves(&t, &open, &e1).unwrap();
    assert_eq!(king.to_algebraic(), "d1,f1,d2,e2,f2");
}

#[test]
fn test_moves_to_algebraic() {
    let moves = Moves { from: Square(1), to: Square(0) };
    assert_eq!(moves.to_algebraic(), "");
    let moves = Moves { from: Square(1), to: Square(1 << 63) };
    assert_eq!(moves.to_algebraic(), "h8");
    let moves = Moves { from: Square(1), to: Square(0b1010_0101) };
    assert_eq!(moves.to_algebraic(), "a1,c1,f1,h1");
}

#[test]
fn test_filter_same_color_moves() {
    let b = Board::default();
    let all = u64::MAX;
    assert_eq!(MoveGen::filter_same_color_moves(&b, all, Color::White), !0xFFFFu64);
    assert_eq!(MoveGen::filter_same_color_moves(&b, all, Color::Black), !0xFFFF000000000000u64);
    assert_eq!(MoveGen::filter_same_color_moves(&b, 0x1_0001, Color::White), 0x1_0000);
}

#[test]
fn test_is_square_attacked() {
    let t = tables();
    let b = Board::default();
    // e3 is attacked by white pawns, not by Black.
    assert!(is_square_attacked(&t, &b, 20, Color::White));
    assert!(!is_square_attacked(&t, &b, 20, Color::Black));
    // f3 is attacked by the knight g1; e4 by nobody.
    assert!(is_square_attacked(&t, &b, 21, Color::White));
    assert!(!is_square_attacked(&t, &b, 28, Color::White));
    // The rook a1 is guarded by nothing but sees b1? b1 holds a knight: attacked by the rook.
    assert!(is_square_attacked(&t, &b, 1, Color::White));
    assert!(is_square_attacked(&t, &b, 44, Color::Black));
}

#[test]
fn test_engine_applies_moves() {
    let t = tables();
    let mut engine = UciEngine::new();
    assert_eq!(engine.board, Board::default());
    assert_eq!(engine.apply_move(&t, "e2e4"), Ok(()));
    assert_eq!(
        engine.board.to_fen(),
        "rnbqkbnr/pppppppp/8/8/4P3/8/PPPP1PPP/RNBQKBNR b KQkq e3 0 1"
    );
    assert_eq!(engine.apply_move(&t, "c7c5"), Ok(()));
    assert_eq!(engine.apply_move(&t, "g1f3"), Ok(()));
    assert_eq!(
        engine.board.to_fen(),
        "rnbqkbnr/pp1ppppp/8/2p5/4P3/5N2/PPPP1PPP/RNBQKB1R b KQkq - 1 2"
    );
    let before = engine.board;
    assert_eq!(engine.apply_move(&t, "e2e4"), Err(Error::InvalidMove("e2e4".to_string())));
    assert_eq!(engine.apply_move(&t, "0000"), Err(Error::InvalidMove("0000".to_string())));
    assert_eq!(engine.apply_move(&t, ""), Err(Error::InvalidMove(String::new())));
    assert_eq!(engine.board, before);
    engine.uci_new_game();
    assert_eq!(engine.board, Board::default());
    assert_eq!(UciEngine::default().board, Board::default());
}

#[test]
fn test_engine_refuses_a_position_without_kings() {
    let t = tables();
    let mut engine = UciEngine::new();
    engine.board = Board::from_fen("8/8/8/8/8/8/4P3/8 w - - 0 1").unwrap();
    assert!(!engine.board.is_valid());
    assert_eq!(engine.apply_move(&t, "e2e4"), Err(Error::InvalidMove("e2e4".to_string())));
    engine.board.set_piece(Square::from_index(4), Piece(PieceType::King, Color::White));
    engine.board.set_piece(Square::from_index(60), Piece(PieceType::King, Color::Black));
    assert!(engine.board.is_valid());
    assert_eq!(engine.apply_move(&t, "e2e4"), Ok(()));
}

#[test]
fn test_position_command() {
    let t = tables();
    let mut engine = UciEngine::new();
    assert_eq!(engine.uci_position(&t, &[]), Ok(()));
    assert_eq!(engine.board, Board::default());
    assert_eq!(engine.uci_position(&t, &["startpos", "moves", "e2e4", "e7e5", "g1f3"]), Ok(()));
    assert_eq!(
        engine.board.to_fen(),
        "rnbqkbnr/pppp1ppp/8/4p3/4P3/5N2/PPPP1PPP/RNBQKB1R b KQkq - 1 2"
    );
    assert_eq!(engine.uci_position(&t, &["startpos"]), Ok(()));
    assert_eq!(engine.board, Board::default());
    // Words after `startpos` other than `moves` are passed over.
    assert_eq!(engine.uci_position(&t, &["startpos", "e2e4"]), Ok(()));
    assert_eq!(engine.board, Board::default());
    let kiwipete = [
        "fen",
        "r3k2r/p1ppqpb1/bn2pnp1/3PN3/1p2P3/2N2Q1p/PPPBBPPP/R3K2R",
        "w",
        "KQkq",
        "-",
        "0",
        "1",
        "moves",
        "e1g1",
        "e8c8",
    ];
    assert_eq!(engine.uci_position(&t, &kiwipete), Ok(()));
    assert_eq!(
        engine.board.to_fen(),
        "2kr3r/p1ppqpb1/bn2pnp1/3PN3/1p2P3/2N2Q1p/PPPBBPPP/R4RK1 w - - 2 2"
    );
    assert_eq!(engine.uci_position(&t, &kiwipete[..7]), Ok(()));
    assert_eq!(
        engine.board.to_fen(),
        "r3k2r/p1ppqpb1/bn2pnp1/3PN3/1p2P3/2N2Q1p/PPPBBPPP/R3K2R w KQkq - 0 1"
    );
    // An unknown first word changes nothing.
    let before = engine.board;
    assert_eq!(engine.uci_position(&t, &["here", "moves", "e1g1"]), Ok(()));
    assert_eq!(engine.board, before);
}

#[test]
fn test_position_command_errors() {
    let t = tables();
    let mut engine = UciEngine::new();
    // The moves before the bad one stay played.
    assert_eq!(
        engine.uci_position(&t, &["startpos", "moves", "e2e4", "e2e4", "e7e5"]),
        Err(Error::InvalidMove("e2e4".to_string()))
    );
    assert_eq!(
        engine.board.to_fen(),
        "rnbqkbnr/pppppppp/8/8/4P3/8/PPPP1PPP/RNBQKBNR b KQkq e3 0 1"
    );
    // A rejected text leaves the position as it was.
    let before = engine.board;
    assert_eq!(engine.uci_position(&t, &["fen", "8/8", "w"]), Err(Error::InvalidFen));
    assert_eq!(
        engine.uci_position(&t, &["fen", "8/8/8/8/8/8/8/8", "x", "-", "-", "0", "1"]),
        Err(Error::InvalidSide)
    );
    assert_eq!(engine.uci_position(&t, &["fen"]), Err(Error::InvalidFen));
    assert_eq!(engine.board, before);
    // A position without kings is set, and no move can be played from it.
    assert_eq!(
        engine.uci_position(&t, &["fen", "8/8/8/8/8/8/4P3/8", "w", "-", "-", "0", "1", "moves", "e2e4"]),
        Err(Error::InvalidMove("e2e4".to_string()))
    );
    assert_eq!(engine.board.to_fen(), "8/8/8/8/8/8/4P3/8 w - - 0 1");
    assert_eq!(engine.play_moves(&t, &["e2e4"], 5), Ok(()));
}
