use brainybishop::bitboard::{BitIter, Bitboard};
use brainybishop::board::{Color, Piece, PieceType, Square};

#[test]
fn test_occupancy_tracking() {
    let mut bb = Bitboard::new();
    assert_eq!(bb.white, 0);
    assert_eq!(bb.black, 0);
    assert_eq!(bb.all, 0);

    let e2 = Square::from(4, 1).unwrap();
    bb.set_piece(e2, Piece(PieceType::Pawn, Color::White));

    assert_eq!(bb.white, e2.0);
    assert_eq!(bb.black, 0);
    assert_eq!(bb.all, e2.0);

    let e7 = Square::from(4, 6).unwrap();
    bb.set_piece(e7, Piece(PieceType::Pawn, Color::Black));

    assert_eq!(bb.white, e2.0);
    assert_eq!(bb.black, e7.0);
    assert_eq!(bb.all, e2.0 | e7.0);
}

#[test]
fn test_bit_iter() {
    let bb = 0b1010_0101u64;
    let mut it = BitIter(bb);
    let mut squares: Vec<usize> = Vec::new();
    while let Some(sq) = it.next() {
        squares.push(sq);
    }
    assert_eq!(squares, vec![0, 2, 5, 7]);
}
