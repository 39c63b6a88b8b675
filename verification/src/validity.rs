//! Deciding whether a position is one the move generator accepts.

use vstd::prelude::*;
use crate::analysis::lemma_single_member;
use crate::bitboard::{Bitboard};
use crate::bits::{bit, lemma_empty_iff, lemma_ext, lemma_lowest, lemma_meets, lemma_mem_and, lemma_mem_bit, lemma_mem_or, lemma_mem_zero, mem, square_bb};
use crate::board::{Board, CASTLE_BK, CASTLE_BQ, CASTLE_WK, CASTLE_WQ, Color, PieceType, Square};
use crate::tables::{lemma_masks, RANK_1, RANK_8, rank_of};

verus! {

/// The set has exactly one member.
pub fn is_single(bb: u64) -> (r: bool)
    ensures
        r == Square(bb).single(),
{
    if bb == 0 {
        return false;
    }
    proof {
        lemma_lowest(bb);
        lemma_single_member(bb);
        let tz = bb.trailing_zeros() as int;
        if bb & ((bb - 1) as u64) == 0 {
            assert forall|k: int| 0 <= k < 64 implies mem(bb, k) == mem(bit(tz), k) by {
                lemma_mem_bit(tz, k);
            }
            lemma_ext(bb, bit(tz));
        }
        if bb == bit(tz) {
            assert forall|u: int| mem(bb, u) implies u == tz by {
                lemma_mem_bit(tz, u);
            }
        }
    }
    bb & (bb - 1) == 0
}

impl Bitboard {
    /// The unions are those of the piece sets.
    pub fn is_consistent(&self) -> (r: bool)
        ensures
            r == self.consistent(),
    {
        let white = self.pieces[0] | self.pieces[1] | self.pieces[2] | self.pieces[3]
            | self.pieces[4] | self.pieces[5];
        let black = self.pieces[6] | self.pieces[7] | self.pieces[8] | self.pieces[9]
            | self.pieces[10] | self.pieces[11];
        self.white == white && self.black == black && self.all == (white | black)
    }

    /// No square is in two piece sets.
    pub fn is_disjoint(&self) -> (r: bool)
        ensures
            r == self.disjoint(),
    {
        let mut seen = 0u64;
        let mut i: usize = 0;
        proof {
            assert forall|sq: int| !mem(seen, sq) by {
                lemma_mem_zero(sq);
            }
        }
        while i < 12
            invariant
                i <= 12,
                forall|sq: int| mem(seen, sq) == (exists|j: int| 0 <= j < i && #[trigger] mem(self.pieces@[j], sq)),
                forall|a: int, b: int, sq: int|
                    0 <= a < b < i && #[trigger] mem(self.pieces@[a], sq) ==> !#[trigger] mem(
                        self.pieces@[b],
                        sq,
                    ),
            decreases 12 - i,
        {
            let p = self.pieces[i];
            let ghost prev = seen;
            proof {
                lemma_empty_iff(seen & p);
            }
            if seen & p != 0 {
                proof {
                    let sq = choose|sq: int| 0 <= sq < 64 && mem(seen & p, sq);
                    lemma_mem_and(seen, p, sq);
                    let j = choose|j: int| 0 <= j < i && #[trigger] mem(self.pieces@[j], sq);
                    assert(mem(self.pieces@[j], sq) && mem(self.pieces@[i as int], sq));
                }
                return false;
            }
            seen |= p;
            proof {
                assert forall|sq: int|
                    mem(seen, sq) == (exists|j: int| 0 <= j < i + 1 && #[trigger] mem(self.pieces@[j], sq)) by {
                    lemma_mem_or(prev, p, sq);
                    if mem(prev, sq) {
                        let j = choose|j: int| 0 <= j < i && #[trigger] mem(self.pieces@[j], sq);
                        assert(0 <= j < i + 1 && mem(self.pieces@[j], sq));
                    }
                    if mem(p, sq) {
                        assert(mem(self.pieces@[i as int], sq));
                    }
                    if exists|j: int| 0 <= j < i + 1 && #[trigger] mem(self.pieces@[j], sq) {
                        let j = choose|j: int| 0 <= j < i + 1 && #[trigger] mem(self.pieces@[j], sq);
                        if j < i {
                            assert(mem(prev, sq));
                        }
                    }
                }
                assert forall|a: int, b: int, sq: int|
                    0 <= a < b < i + 1 && #[trigger] mem(self.pieces@[a], sq) implies !#[trigger] mem(
                        self.pieces@[b],
                        sq,
                    ) by {
                    if b == i {
                        lemma_mem_and(prev, p, sq);
                        if mem(p, sq) {
                            assert(mem(prev, sq));
                            assert(0 <= sq < 64);
                        }
                    }
                }
            }
            i += 1;
        }
        true
    }
}

/// No member of `pawns` stands on the first or the last rank.
fn pawns_inside(pawns: u64) -> (r: bool)
    ensures
        r == (forall|sq: int| #[trigger] mem(pawns, sq) ==> 1 <= rank_of(sq) <= 6),
{
    let edge = pawns & (RANK_1 | RANK_8);
    proof {
        lemma_empty_iff(edge);
        assert forall|sq: int| 0 <= sq < 64 implies mem(edge, sq) == (mem(pawns, sq) && !(1
            <= rank_of(sq) <= 6)) by {
            lemma_mem_and(pawns, RANK_1 | RANK_8, sq);
            lemma_mem_or(RANK_1, RANK_8, sq);
            lemma_masks(sq);
        }
        if edge != 0 {
            let sq = choose|sq: int| 0 <= sq < 64 && mem(edge, sq);
            assert(mem(pawns, sq) && !(1 <= rank_of(sq) <= 6));
        }
    }
    edge == 0
}

impl Board {
    /// A castling right is held only with king and rook on their home squares.
    fn is_castling_sound(&self) -> (r: bool)
        ensures
            r == self.castling_sound(),
    {
        let wk = self.pieces(PieceType::King, Color::White);
        let wr = self.pieces(PieceType::Rook, Color::White);
        let bk = self.pieces(PieceType::King, Color::Black);
        let br = self.pieces(PieceType::Rook, Color::Black);
        proof {
            lemma_meets(wk, 4);
            lemma_meets(wr, 7);
            lemma_meets(wr, 0);
            lemma_meets(bk, 60);
            lemma_meets(br, 63);
            lemma_meets(br, 56);
        }
        let c = self.castling;
        c.0 < 16 && (!c.has_right(CASTLE_WK) || (wk & square_bb(4) != 0 && wr & square_bb(7) != 0))
            && (!c.has_right(CASTLE_WQ) || (wk & square_bb(4) != 0 && wr & square_bb(0) != 0)) && (
        !c.has_right(CASTLE_BK) || (bk & square_bb(60) != 0 && br & square_bb(63) != 0)) && (
        !c.has_right(CASTLE_BQ) || (bk & square_bb(60) != 0 && br & square_bb(56) != 0))
    }

    /// An en-passant target lies behind a pawn that has just made a double push.
    fn is_en_passant_sound(&self) -> (r: bool)
        ensures
            r == self.en_passant_sound(),
    {
        match self.en_passant {
            None => true,
            Some(e) => {
                if !is_single(e.0) {
                    return false;
                }
                let t = e.to_index();
                let all = self.all_occupancy();
                proof {
                    lemma_meets(all, t as int);
                }
                if all & e.0 != 0 {
                    return false;
                }
                match self.turn {
                    Color::White => {
                        if t / 8 != 5 {
                            return false;
                        }
                        let pawns = self.pieces(PieceType::Pawn, Color::Black);
                        proof {
                            lemma_meets(pawns, t - 8);
                            lemma_meets(all, t + 8);
                        }
                        pawns & square_bb(t - 8) != 0 && all & square_bb(t + 8) == 0
                    },
                    Color::Black => {
                        if t / 8 != 2 {
                            return false;
                        }
                        let pawns = self.pieces(PieceType::Pawn, Color::White);
                        proof {
                            lemma_meets(pawns, t + 8);
                            lemma_meets(all, t - 8);
                        }
                        pawns & square_bb(t + 8) != 0 && all & square_bb(t - 8) == 0
                    },
                }
            },
        }
    }

    /// Whether the position is one the move generator accepts.
    pub fn is_valid(&self) -> (r: bool)
        ensures
            r == self.valid(),
    {
        self.bitboard.is_consistent() && self.bitboard.is_disjoint() && is_single(
            self.pieces(PieceType::King, Color::White),
        ) && is_single(self.pieces(PieceType::King, Color::Black)) && pawns_inside(
            self.pieces(PieceType::Pawn, Color::White),
        ) && pawns_inside(self.pieces(PieceType::Pawn, Color::Black)) && self.is_castling_sound()
            && self.is_en_passant_sound()
    }
}

} // verus!
