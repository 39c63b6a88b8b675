use brainybishop::board::Board;
use brainybishop::movegen::generate_moves;
use brainybishop::moves::{Move, FLAG_EP_CAPTURE};
use brainybishop::tables::Tables;

fn tables() -> Tables {
    Tables::new().expect("the fixed multipliers are perfect hashes")
}

fn perft(tables: &Tables, board: &Board, depth: u32) -> u64 {
    if depth == 0 {
        return 1;
    }

    assert!(board.is_valid());
    let moves = generate_moves(tables, board);

    if depth == 1 {
        return moves.len() as u64;
    }

    let mut nodes = 0u64;
    for mv in moves.as_slice().iter() {
        let new_board = board.make_move(*mv);
        nodes += perft(tables, &new_board, depth - 1);
    }

    nodes
}

#[test]
fn test_perft_starting_position_depth_1() {
    let board = Board::default();
    assert_eq!(perft(&tables(), &board, 1), 20);
}

#[test]
fn test_perft_starting_position_depth_2() {
    let board = Board::default();
    assert_eq!(perft(&tables(), &board, 2), 400);
}

#[test]
fn test_perft_starting_position_depth_3() {
    let board = Board::default();
    assert_eq!(perft(&tables(), &board, 3), 8902);
}

#[test]
fn test_perft_starting_position_depth_4() {
    let board = Board::default();
    assert_eq!(perft(&tables(), &board, 4), 197281);
}

#[test]
fn test_perft_starting_position_depth_5() {
    let board = Board::default();
    assert_eq!(perft(&tables(), &board, 5), 4865609);
}

// Kiwipete position - good for testing edge cases
// r3k2r/p1ppqpb1/bn2pnp1/3PN3/1p2P3/2N2Q1p/PPPBBPPP/R3K2R w KQkq -
#[test]
fn test_perft_kiwipete_depth_1() {
    let board =
        Board::from_fen("r3k2r/p1ppqpb1/bn2pnp1/3PN3/1p2P3/2N2Q1p/PPPBBPPP/R3K2R w KQkq - 0 1")
            .unwrap();
    assert_eq!(perft(&tables(), &board, 1), 48);
}

#[test]
fn test_perft_kiwipete_depth_2() {
    let board =
        Board::from_fen("r3k2r/p1ppqpb1/bn2pnp1/3PN3/1p2P3/2N2Q1p/PPPBBPPP/R3K2R w KQkq - 0 1")
            .unwrap();
    assert_eq!(perft(&tables(), &board, 2), 2039);
}

#[test]
fn test_perft_kiwipete_depth_3() {
    let board =
        Board::from_fen("r3k2r/p1ppqpb1/bn2pnp1/3PN3/1p2P3/2N2Q1p/PPPBBPPP/R3K2R w KQkq - 0 1")
            .unwrap();
    assert_eq!(perft(&tables(), &board, 3), 97862);
}

// Position 3 from CPW
// 8/2p5/3p4/KP5r/1R3p1k/8/4P1P1/8 w - -
#[test]
fn test_perft_position3_depth_1() {
    let board = Board::from_fen("8/2p5/3p4/KP5r/1R3p1k/8/4P1P1/8 w - - 0 1").unwrap();
    assert_eq!(perft(&tables(), &board, 1), 14);
}

#[test]
fn test_perft_position3_depth_2() {
    let board = Board::from_fen("8/2p5/3p4/KP5r/1R3p1k/8/4P1P1/8 w - - 0 1").unwrap();
    assert_eq!(perft(&tables(), &board, 2), 191);
}

#[test]
fn test_perft_position3_depth_3() {
    let board = Board::from_fen("8/2p5/3p4/KP5r/1R3p1k/8/4P1P1/8 w - - 0 1").unwrap();
    assert_eq!(perft(&tables(), &board, 3), 2812);
}

#[test]
fn test_perft_position3_depth_4() {
    let board = Board::from_fen("8/2p5/3p4/KP5r/1R3p1k/8/4P1P1/8 w - - 0 1").unwrap();
    assert_eq!(perft(&tables(), &board, 4), 43238);
}

// Position with promotions
// n1n5/PPPk4/8/8/8/8/4Kppp/5N1N b - -
#[test]
fn test_perft_promotions_depth_1() {
    let board = Board::from_fen("n1n5/PPPk4/8/8/8/8/4Kppp/5N1N b - - 0 1").unwrap();
    assert_eq!(perft(&tables(), &board, 1), 24);
}

#[test]
fn test_perft_promotions_depth_2() {
    let board = Board::from_fen("n1n5/PPPk4/8/8/8/8/4Kppp/5N1N b - - 0 1").unwrap();
    assert_eq!(perft(&tables(), &board, 2), 496);
}

#[test]
fn test_perft_promotions_depth_3() {
    let board = Board::from_fen("n1n5/PPPk4/8/8/8/8/4Kppp/5N1N b - - 0 1").unwrap();
    assert_eq!(perft(&tables(), &board, 3), 9483);
}

#[test]
fn test_en_passant_available() {
    let board =
        Board::from_fen("rnbqkbnr/ppp1p1pp/8/3pPp2/8/8/PPPP1PPP/RNBQKBNR w KQkq d6 0 1").unwrap();
    assert!(board.is_valid());
    let moves = generate_moves(&tables(), &board);
    let ep: Vec<Move> = moves
        .as_slice()
        .iter()
        .copied()
        .filter(|m| m.flags() == FLAG_EP_CAPTURE)
        .collect();
    assert_eq!(ep.len(), 1);
    // White e5 takes on d6.
    assert_eq!(ep[0].from(), 36);
    assert_eq!(ep[0].to(), 43);
    assert_eq!(ep[0], Move::new(36, 43, FLAG_EP_CAPTURE));
}
