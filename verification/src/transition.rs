//! The position that a move leads to.

use vstd::prelude::*;
use vstd::array::spec_array_update;
use crate::bitboard::{Bitboard, cleared, index_of, placed, union6};
use crate::bits::{bit};
use crate::board::{Board, CastlingRights, Color, Piece, PieceType, Square};
use crate::moves::{FLAG_CAPTURE, FLAG_DOUBLE_PUSH, FLAG_EP_CAPTURE, FLAG_KING_CASTLE, FLAG_PROMO_CAPTURE_N, FLAG_PROMO_N, FLAG_QUEEN_CASTLE, Move};

verus! {

/// The kind a pawn becomes with the given flag; `kind` itself for a flag
/// that is no promotion.
pub open spec fn placed_kind(kind: PieceType, flag: int) -> PieceType {
    if flag == 8 || flag == 12 {
        PieceType::Knight
    } else if flag == 9 || flag == 13 {
        PieceType::Bishop
    } else if flag == 10 || flag == 14 {
        PieceType::Rook
    } else if flag == 11 || flag == 15 {
        PieceType::Queen
    } else {
        kind
    }
}

impl Board {
    /// The piece that `m` moves.
    pub open spec fn mover(self, m: Move) -> Option<Piece> {
        self.bitboard.piece_at(bit(m.src()))
    }

    /// `m` can be carried out: a piece stands on its source square; the pawn
    /// an en-passant capture takes, and the square a double push passes,
    /// are on the board.
    pub open spec fn applicable(self, m: Move) -> bool {
        &&& self.mover(m) is Some
        &&& m.flag() == 5 ==> 8 <= m.dst() < 56
        &&& m.flag() == 1 ==> 8 <= m.src() < 56
    }

    /// Where the rook stands before and after castling with flag `flag`.
    pub open spec fn rook_path(self, flag: int) -> (int, int) {
        match self.turn {
            Color::White => if flag == 2 {
                (7, 5)
            } else {
                (0, 3)
            },
            Color::Black => if flag == 2 {
                (63, 61)
            } else {
                (56, 59)
            },
        }
    }

    /// The piece sets after `m`: the source square is cleared; so is the
    /// destination of a capture, and the square behind the destination for
    /// an en-passant capture; the piece, or what it promotes to, is placed
    /// on the destination; in castling the rook moves as well.
    pub open spec fn moved_sets(self, m: Move) -> Seq<u64> {
        let f = m.flag();
        let piece = self.mover(m)->Some_0;
        let p1 = cleared(self.bitboard.pieces@, bit(m.src()));
        let p2 = if f == 4 || f >= 12 {
            cleared(p1, bit(m.dst()))
        } else {
            p1
        };
        let p3 = if f == 5 {
            cleared(p2, bit(m.dst() - self.forward()))
        } else {
            p2
        };
        let p4 = placed(p3, bit(m.dst()), index_of(placed_kind(piece.0, f), piece.1));
        if f == 2 || f == 3 {
            let (a, b) = self.rook_path(f);
            placed(cleared(p4, bit(a)), bit(b), index_of(PieceType::Rook, self.turn))
        } else {
            p4
        }
    }

    /// The castling rights after `m`: a king move gives up both rights of
    /// its side; a move from or to a rook's home square gives up the right
    /// of that rook.
    pub open spec fn moved_rights(self, m: Move) -> u8 {
        let c0 = self.castling.0;
        let c1 = if self.mover(m)->Some_0.0 == PieceType::King {
            match self.turn {
                Color::White => c0 & !3u8,
                Color::Black => c0 & !12u8,
            }
        } else {
            c0
        };
        let c2 = if m.src() == 0 || m.dst() == 0 {
            c1 & !2u8
        } else {
            c1
        };
        let c3 = if m.src() == 7 || m.dst() == 7 {
            c2 & !1u8
        } else {
            c2
        };
        let c4 = if m.src() == 56 || m.dst() == 56 {
            c3 & !8u8
        } else {
            c3
        };
        if m.src() == 63 || m.dst() == 63 {
            c4 & !4u8
        } else {
            c4
        }
    }

    /// `r` has the pieces, the side to move, the castling rights and the
    /// en-passant target of the position after `m`.
    pub open spec fn arrives(self, m: Move, r: Board) -> bool {
        &&& r.bitboard.pieces@ == self.moved_sets(m)
        &&& r.bitboard.consistent()
        &&& r.turn == self.turn.other()
        &&& r.castling.0 == self.moved_rights(m)
        &&& r.en_passant == if m.flag() == 1 {
            Some(Square(bit(m.src() + self.forward())))
        } else {
            None::<Square>
        }
    }

    /// The half-move clock after `m`: 0 after a pawn move or a capture,
    /// one more otherwise.
    pub open spec fn moved_halfmove(self, m: Move) -> int {
        if self.mover(m)->Some_0.0 == PieceType::Pawn || m.flag() == 4 || m.flag() == 5 {
            0
        } else {
            self.halfmove + 1
        }
    }

    /// The full-move number after `m`: one more after a move of Black.
    pub open spec fn moved_fullmove(self, m: Move) -> int {
        if self.turn == Color::Black {
            self.fullmove + 1
        } else {
            self.fullmove as int
        }
    }

    /// `r` is the position after `m`.
    pub open spec fn leads_to(self, m: Move, r: Board) -> bool {
        &&& self.arrives(m, r)
        &&& r.halfmove == self.moved_halfmove(m)
        &&& r.fullmove == self.moved_fullmove(m)
    }

    /// The position after `m`. The counters wrap where they have no room.
    pub open spec fn after(self, m: Move) -> Board {
        let sets = self.moved_sets(m);
        let white = union6(sets, 0);
        let black = union6(sets, 6);
        Board {
            bitboard: Bitboard {
                pieces: array_of(sets, self.bitboard.pieces),
                white,
                black,
                all: white | black,
            },
            turn: self.turn.other(),
            castling: CastlingRights(self.moved_rights(m)),
            en_passant: if m.flag() == 1 {
                Some(Square(bit(m.src() + self.forward())))
            } else {
                None
            },
            halfmove: self.moved_halfmove(m) as u16,
            fullmove: self.moved_fullmove(m) as u64,
        }
    }

    /// The position after `mv`. The position itself is left as it is.
    pub fn make_move(&self, mv: Move) -> (r: Board)
        requires
            self.applicable(mv),
            self.halfmove < u16::MAX,
            self.fullmove < u64::MAX,
        ensures
            self.leads_to(mv, r),
            r == self.after(mv),
    {
        proof {
            lemma_after(*self, mv);
        }
        let mut new_board = *self;
        let from = mv.from();
        let to = mv.to();
        let flags = mv.flags();
        let from_sq = Square::from_index(from);
        let to_sq = Square::from_index(to);
        let piece = match new_board.get_piece(&from_sq) {
            Some(p) => p,
            None => {
                return new_board;
            },
        };
        // Remove piece from source
        new_board.remove_piece(&from_sq);
        // Handle captures (remove captured piece)
        if flags == FLAG_CAPTURE || flags >= FLAG_PROMO_CAPTURE_N {
            new_board.remove_piece(&to_sq);
        }
        // Handle en passant capture
        if flags == FLAG_EP_CAPTURE {
            let captured_sq = match self.turn {
                Color::White => Square::from_index(to - 8),
                Color::Black => Square::from_index(to + 8),
            };
            new_board.remove_piece(&captured_sq);
        }
        // Place piece at destination (possibly promoted)
        let dest_piece = if flags == FLAG_PROMO_N || flags == FLAG_PROMO_CAPTURE_N {
            Piece(PieceType::Knight, piece.1)
        } else if flags == FLAG_PROMO_N + 1 || flags == FLAG_PROMO_CAPTURE_N + 1 {
            Piece(PieceType::Bishop, piece.1)
        } else if flags == FLAG_PROMO_N + 2 || flags == FLAG_PROMO_CAPTURE_N + 2 {
            Piece(PieceType::Rook, piece.1)
        } else if flags == FLAG_PROMO_N + 3 || flags == FLAG_PROMO_CAPTURE_N + 3 {
            Piece(PieceType::Queen, piece.1)
        } else {
            piece
        };
        new_board.set_piece(to_sq, dest_piece);
        // Handle castling - move the rook
        if flags == FLAG_KING_CASTLE {
            match self.turn {
                Color::White => {
                    new_board.remove_piece(&Square::from_index(7));  // h1
                    new_board.set_piece(Square::from_index(5), Piece(PieceType::Rook, Color::White));
                },
                Color::Black => {
                    new_board.remove_piece(&Square::from_index(63));  // h8
                    new_board.set_piece(
                        Square::from_index(61),
                        Piece(PieceType::Rook, Color::Black),
                    );
                },
            }
        }
        if flags == FLAG_QUEEN_CASTLE {
            match self.turn {
                Color::White => {
                    new_board.remove_piece(&Square::from_index(0));  // a1
                    new_board.set_piece(Square::from_index(3), Piece(PieceType::Rook, Color::White));
                },
                Color::Black => {
                    new_board.remove_piece(&Square::from_index(56));  // a8
                    new_board.set_piece(
                        Square::from_index(59),
                        Piece(PieceType::Rook, Color::Black),
                    );
                },
            }
        }
        // Update castling rights
        let mut rights = self.castling.0;
        if piece.0 == PieceType::King {
            match self.turn {
                Color::White => {
                    rights = rights & !0b0011u8;
                },
                Color::Black => {
                    rights = rights & !0b1100u8;
                },
            }
        }
        if from == 0 || to == 0 {
            rights = rights & !0b0010u8;  // White queenside
        }
        if from == 7 || to == 7 {
            rights = rights & !0b0001u8;  // White kingside
        }
        if from == 56 || to == 56 {
            rights = rights & !0b1000u8;  // Black queenside
        }
        if from == 63 || to == 63 {
            rights = rights & !0b0100u8;  // Black kingside
        }
        new_board.castling = CastlingRights(rights);
        // Update en passant square
        new_board.en_passant = if flags == FLAG_DOUBLE_PUSH {
            match self.turn {
                Color::White => Some(Square::from_index(from + 8)),
                Color::Black => Some(Square::from_index(from - 8)),
            }
        } else {
            None
        };
        // Switch turn
        new_board.turn = self.turn.opposite();
        // Update move counters
        if self.turn == Color::Black {
            new_board.fullmove = self.fullmove + 1;
        }
        if piece.0 == PieceType::Pawn || flags == FLAG_CAPTURE || flags == FLAG_EP_CAPTURE {
            new_board.halfmove = 0;
        } else {
            new_board.halfmove = self.halfmove + 1;
        }
        proof {
            lemma_one_after(*self, mv, new_board);
        }
        new_board
    }
}

/// The array that holds the twelve sets of `sets`; `base` is any array.
pub open spec fn array_of(sets: Seq<u64>, base: [u64; 12]) -> [u64; 12] {
    let a0 = spec_array_update(base, 0, sets[0]);
    let a1 = spec_array_update(a0, 1, sets[1]);
    let a2 = spec_array_update(a1, 2, sets[2]);
    let a3 = spec_array_update(a2, 3, sets[3]);
    let a4 = spec_array_update(a3, 4, sets[4]);
    let a5 = spec_array_update(a4, 5, sets[5]);
    let a6 = spec_array_update(a5, 6, sets[6]);
    let a7 = spec_array_update(a6, 7, sets[7]);
    let a8 = spec_array_update(a7, 8, sets[8]);
    let a9 = spec_array_update(a8, 9, sets[9]);
    let a10 = spec_array_update(a9, 10, sets[10]);
    spec_array_update(a10, 11, sets[11])
}

/// `array_of` holds the sets it was made of.
pub proof fn lemma_array_of(sets: Seq<u64>, base: [u64; 12])
    requires
        sets.len() == 12,
    ensures
        array_of(sets, base)@ == sets,
{
    broadcast use vstd::array::group_array_axioms;

    assert(array_of(sets, base)@ =~= sets);
}

/// `after` is a position that the move arrives at, and the position the
/// move leads to where the counters have room.
pub proof fn lemma_after(board: Board, m: Move)
    requires
        board.applicable(m),
    ensures
        board.arrives(m, board.after(m)),
        board.halfmove < 65535 && board.fullmove < 0xFFFF_FFFF_FFFF_FFFF ==> board.leads_to(
            m,
            board.after(m),
        ),
{
    crate::moves::lemma_pack_unpack(0, 0, 0, m);
    let sets = board.moved_sets(m);
    assert(sets.len() == 12);
    lemma_array_of(sets, board.bitboard.pieces);
}

/// A move leads to one position only.
pub proof fn lemma_one_after(board: Board, m: Move, r: Board)
    requires
        board.applicable(m),
        board.leads_to(m, r),
    ensures
        r == board.after(m),
{
    lemma_after(board, m);
    let a = board.after(m);
    assert(r.bitboard.pieces@ == a.bitboard.pieces@);
    assert(r.bitboard.pieces =~= a.bitboard.pieces);
    assert(r.bitboard == a.bitboard);
}

} // verus!
