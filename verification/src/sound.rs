//! Positions a game can reach, and why a legal move leads from one to another.

use vstd::prelude::*;
use crate::bitboard::{index_of, lemma_occupancy, lemma_occupant};
use crate::bits::{bit, lemma_ext, lemma_mem_bit, mem};
use crate::board::{Board, CASTLE_BK, CASTLE_BQ, CASTLE_WK, CASTLE_WQ, Color, lemma_single, PieceType};
use crate::legal::{attacked, hits_from};
use crate::magic::slide_hits;
use crate::movegen::lemma_kinds_apart;
use crate::moves::Move;
use crate::safety::{lemma_king_after, lemma_legal_is_pseudo, lemma_legal_move_is_safe, lemma_move_shape, lemma_moved_sets, lemma_occupied, lemma_position_after, lemma_rest_stays, lemma_stretch};
use crate::tables::{aligned_diagonal, between_sq, file_of, rank_of};
use crate::transition::placed_kind;

verus! {

impl Board {
    /// The position is one a game can be in: the move generator accepts it,
    /// the side that has just moved has not left its king in check, and a
    /// pawn that may be taken en passant shields no diagonal of the mover's
    /// king.
    pub open spec fn sound(self) -> bool {
        &&& self.valid()
        &&& !self.exposed()
        &&& self.en_passant is Some ==> self.ep_unshielded()
    }
}

/// Every piece set after a move, square by square.
proof fn lemma_sets_after(board: Board, m: Move, r: Board)
    requires
        board.valid(),
        board.pseudo(m),
        board.arrives(m, r),
    ensures
        r.bitboard.wf(),
        forall|j: int, x: int|
            0 <= j < 12 ==> #[trigger] mem(r.bitboard.pieces@[j], x) == board.holds_after(m, j, x),
{
    lemma_move_shape(board, m);
    lemma_moved_sets(board, m);
}

/// A move to a square where an opposing piece stands attacks that square.
proof fn lemma_capture_attacks(board: Board, m: Move)
    requires
        board.valid(),
        board.pseudo(m),
        mem(board.side(board.turn.other()), m.dst()),
    ensures
        hits_from(board.bitboard, board.turn, m.src(), board.bitboard.all, m.dst()),
{
    lemma_move_shape(board, m);
    lemma_occupied(board, m.dst());
    lemma_occupancy(board.bitboard, m.dst());
    let us = board.turn;
    let o = 6 * us.idx();
    assert(board.set_of(PieceType::Pawn, us) == board.bitboard.pieces@[o]);
    assert(board.set_of(PieceType::Knight, us) == board.bitboard.pieces@[o + 1]);
    assert(board.set_of(PieceType::Bishop, us) == board.bitboard.pieces@[o + 2]);
    assert(board.set_of(PieceType::Rook, us) == board.bitboard.pieces@[o + 3]);
    assert(board.set_of(PieceType::Queen, us) == board.bitboard.pieces@[o + 4]);
    assert(board.set_of(PieceType::King, us) == board.bitboard.pieces@[o + 5]);
}

/// No legal move from a sound position takes the king.
proof fn lemma_king_is_not_taken(board: Board, m: Move)
    requires
        board.sound(),
        board.pseudo(m),
    ensures
        !mem(board.set_of(PieceType::King, board.turn.other()), m.dst()),
        !mem(board.set_of(PieceType::King, board.turn.other()), m.dst() - board.forward()) || m.flag()
            != 5,
{
    let them = board.turn.other();
    let kings = board.set_of(PieceType::King, them);
    let kk = board.king_pos(them);
    vstd::std_specs::bits::axiom_u64_trailing_zeros(kings);
    lemma_mem_bit(kk, m.dst());
    lemma_move_shape(board, m);
    lemma_kinds_apart(board);
    if mem(kings, m.dst()) {
        lemma_occupied(board, m.dst());
        lemma_capture_attacks(board, m);
        assert(attacked(board.bitboard, board.turn, board.bitboard.all, kk));
    }
}

/// After a double push the pushed pawn shields no diagonal: a diagonal it
/// alone closed would have been open before the push.
proof fn lemma_push_shields_nothing(board: Board, m: Move, r: Board, e: int)
    requires
        board.sound(),
        board.pseudo(m),
        m.flag() == 1,
        board.arrives(m, r),
        r.enemy_slider(false, e),
        aligned_diagonal(r.own_king(), e),
        between_sq(r.own_king(), e, m.dst()),
    ensures
        exists|u: int| #[trigger] between_sq(r.own_king(), e, u) && u != m.dst() && mem(r.bitboard.all, u),
{
    let us = board.turn;
    let them = us.other();
    let s = m.src();
    let t = m.dst();
    let kk = board.king_pos(them);
    lemma_move_shape(board, m);
    lemma_sets_after(board, m, r);
    lemma_rest_stays(board, m, r);
    lemma_king_is_not_taken(board, m);
    let kings = board.set_of(PieceType::King, them);
    assert forall|x: int| 0 <= x < 64 implies mem(r.set_of(PieceType::King, them), x) == mem(kings, x) by {
        lemma_position_after(board, m, r, x);
    }
    lemma_ext(r.set_of(PieceType::King, them), kings);
    assert(r.own_king() == kk);
    if !exists|u: int| #[trigger] between_sq(kk, e, u) && u != t && mem(r.bitboard.all, u) {
        assert(0 <= e < 64);
        assert(e != t && e != s) by {
            lemma_stretch(kk, e, t);
            lemma_occupied(r, e);
            assert(mem(r.bitboard.all, e));
        }
        let o = 6 * us.idx();
        assert(mem(board.bitboard.pieces@[o + 2], e) || mem(board.bitboard.pieces@[o + 4], e));
        assert forall|u: int| #[trigger] between_sq(e, kk, u) implies !mem(board.bitboard.all, u) by {
            lemma_stretch(e, kk, u);
            if mem(board.bitboard.all, u) {
                if u == s {
                    lemma_one_per_file(kk, e, s, t);
                } else {
                    assert(board.occupied_after(m, u));
                    assert(mem(r.bitboard.all, u));
                    assert(between_sq(kk, e, u) && u != t && mem(r.bitboard.all, u));
                }
            }
        }
        lemma_stretch(kk, e, 0);
        assert(slide_hits(false, e, board.bitboard.all, kk));
        assert(hits_from(board.bitboard, us, e, board.bitboard.all, kk));
        assert(board.exposed());
    }
}

/// A diagonal holds one square of a file at most.
proof fn lemma_one_per_file(k: int, e: int, a: int, b: int)
    requires
        aligned_diagonal(k, e),
        between_sq(k, e, a),
        between_sq(k, e, b),
        file_of(a) == file_of(b),
    ensures
        a == b,
{
}

/// What becomes of the castling rights: a right that is held after a move
/// was held before it, the move did not touch the rook's home square, and
/// it was no move of that side's king.
proof fn lemma_rights_after(c0: u8, king_moved_white: bool, king_moved_black: bool, t0: bool, t7: bool, t56: bool, t63: bool) -> (c: u8)
    requires
        c0 < 16,
    ensures
        c == ({
            let c1 = if king_moved_white {
                c0 & !3u8
            } else if king_moved_black {
                c0 & !12u8
            } else {
                c0
            };
            let c2 = if t0 {
                c1 & !2u8
            } else {
                c1
            };
            let c3 = if t7 {
                c2 & !1u8
            } else {
                c2
            };
            let c4 = if t56 {
                c3 & !8u8
            } else {
                c3
            };
            if t63 {
                c4 & !4u8
            } else {
                c4
            }
        }),
        c < 16,
        c & 1 != 0 ==> c0 & 1 != 0 && !king_moved_white && !t7,
        c & 2 != 0 ==> c0 & 2 != 0 && !king_moved_white && !t0,
        c & 4 != 0 ==> c0 & 4 != 0 && !(king_moved_black && !king_moved_white) && !t63,
        c & 8 != 0 ==> c0 & 8 != 0 && !(king_moved_black && !king_moved_white) && !t56,
{
    let c1 = if king_moved_white {
        c0 & !3u8
    } else if king_moved_black {
        c0 & !12u8
    } else {
        c0
    };
    let c2 = if t0 {
        c1 & !2u8
    } else {
        c1
    };
    let c3 = if t7 {
        c2 & !1u8
    } else {
        c2
    };
    let c4 = if t56 {
        c3 & !8u8
    } else {
        c3
    };
    let c = if t63 {
        c4 & !4u8
    } else {
        c4
    };
    assert({
        &&& c < 16
        &&& (c & 1 != 0 ==> c0 & 1 != 0 && !king_moved_white && !t7)
        &&& (c & 2 != 0 ==> c0 & 2 != 0 && !king_moved_white && !t0)
        &&& (c & 4 != 0 ==> c0 & 4 != 0 && !(king_moved_black && !king_moved_white) && !t63)
        &&& (c & 8 != 0 ==> c0 & 8 != 0 && !(king_moved_black && !king_moved_white) && !t56)
    }) by (bit_vector)
        requires
            c0 < 16,
            c1 == (if king_moved_white {
                c0 & !3u8
            } else if king_moved_black {
                c0 & !12u8
            } else {
                c0
            }),
            c2 == (if t0 {
                c1 & !2u8
            } else {
                c1
            }),
            c3 == (if t7 {
                c2 & !1u8
            } else {
                c2
            }),
            c4 == (if t56 {
                c3 & !8u8
            } else {
                c3
            }),
            c == (if t63 {
                c4 & !4u8
            } else {
                c4
            }),
    ;
    c
}

/// A piece that a move neither moves nor takes stands where it stood.
proof fn lemma_untouched(board: Board, m: Move, r: Board, kind: PieceType, color: Color, x: int)
    requires
        board.sound(),
        board.pseudo(m),
        board.arrives(m, r),
        mem(board.set_of(kind, color), x),
        x != m.src(),
        x != m.dst(),
        kind != PieceType::Pawn,
        !(m.flag() == 2 || m.flag() == 3) || (x != board.rook_path(m.flag() as int).0),
    ensures
        mem(r.set_of(kind, color), x),
{
    lemma_move_shape(board, m);
    lemma_sets_after(board, m, r);
    lemma_kinds_apart(board);
    let j = index_of(kind, color);
    assert(mem(r.bitboard.pieces@[j], x) == board.holds_after(m, j, x));
    if m.flag() == 5 {
        assert(mem(board.set_of(PieceType::Pawn, board.turn.other()), m.dst() - board.forward()));
        lemma_occupant(board.bitboard, x);
    }
    if m.flag() == 2 || m.flag() == 3 {
        let (a, b) = board.rook_path(m.flag());
        assert(board.king_pseudo(m));
        lemma_occupied(board, x);
        assert(x != b);
    }
}

/// The castling rights stay sound.
proof fn lemma_castling_stays_sound(board: Board, m: Move, r: Board)
    requires
        board.sound(),
        board.pseudo(m),
        board.arrives(m, r),
    ensures
        r.castling_sound(),
{
    let s = m.src();
    let t = m.dst();
    let us = board.turn;
    lemma_move_shape(board, m);
    lemma_king_is_not_taken(board, m);
    lemma_kinds_apart(board);
    let king_moved = board.mover(m)->Some_0.0 == PieceType::King;
    let c = lemma_rights_after(
        board.castling.0,
        king_moved && us == Color::White,
        king_moved && us == Color::Black,
        s == 0 || t == 0,
        s == 7 || t == 7,
        s == 56 || t == 56,
        s == 63 || t == 63,
    );
    assert(r.castling.0 == c);
    let wk = board.set_of(PieceType::King, Color::White);
    let bk = board.set_of(PieceType::King, Color::Black);
    vstd::std_specs::bits::axiom_u64_trailing_zeros(wk);
    vstd::std_specs::bits::axiom_u64_trailing_zeros(bk);
    lemma_mem_bit(board.king_pos(Color::White), 4);
    lemma_mem_bit(board.king_pos(Color::Black), 60);
    lemma_mem_bit(board.king_pos(Color::White), s);
    lemma_mem_bit(board.king_pos(Color::Black), s);
    lemma_occupied(board, 4);
    lemma_occupied(board, 60);
    if r.castling.holds(CASTLE_WK) {
        assert(board.castling.holds(CASTLE_WK));
        assert(s != 4);
        assert(t != 4);
        lemma_untouched(board, m, r, PieceType::King, Color::White, 4);
        lemma_untouched(board, m, r, PieceType::Rook, Color::White, 7);
    }
    if r.castling.holds(CASTLE_WQ) {
        assert(board.castling.holds(CASTLE_WQ));
        assert(s != 4);
        assert(t != 4);
        lemma_untouched(board, m, r, PieceType::King, Color::White, 4);
        lemma_untouched(board, m, r, PieceType::Rook, Color::White, 0);
    }
    if r.castling.holds(CASTLE_BK) {
        assert(board.castling.holds(CASTLE_BK));
        assert(s != 60);
        assert(t != 60);
        lemma_untouched(board, m, r, PieceType::King, Color::Black, 60);
        lemma_untouched(board, m, r, PieceType::Rook, Color::Black, 63);
    }
    if r.castling.holds(CASTLE_BQ) {
        assert(board.castling.holds(CASTLE_BQ));
        assert(s != 60);
        assert(t != 60);
        lemma_untouched(board, m, r, PieceType::King, Color::Black, 60);
        lemma_untouched(board, m, r, PieceType::Rook, Color::Black, 56);
    }
}

/// Pawns stay off the first and the last rank.
proof fn lemma_pawns_stay_inside(board: Board, m: Move, r: Board, color: Color, x: int)
    requires
        board.sound(),
        board.pseudo(m),
        board.arrives(m, r),
        mem(r.set_of(PieceType::Pawn, color), x),
    ensures
        1 <= rank_of(x) <= 6,
{
    lemma_move_shape(board, m);
    lemma_sets_after(board, m, r);
    lemma_kinds_apart(board);
    let j = index_of(PieceType::Pawn, color);
    assert(mem(r.bitboard.pieces@[j], x) == board.holds_after(m, j, x));
    let piece = board.mover(m)->Some_0;
    if x == m.dst() {
        assert(index_of(placed_kind(piece.0, m.flag()), piece.1) == j);
        assert(piece.0 == PieceType::Pawn && m.flag() < 8);
        assert(board.pawn_pseudo(m));
        assert(mem(board.set_of(PieceType::Pawn, board.turn), m.src()));
    } else {
        assert(mem(board.set_of(PieceType::Pawn, color), x));
    }
}

/// After a double push the en-passant target is sound; after any other
/// move there is none.
proof fn lemma_en_passant_stays_sound(board: Board, m: Move, r: Board)
    requires
        board.sound(),
        board.pseudo(m),
        board.arrives(m, r),
    ensures
        r.en_passant_sound(),
{
    lemma_move_shape(board, m);
    lemma_sets_after(board, m, r);
    lemma_rest_stays(board, m, r);
    lemma_kinds_apart(board);
    if m.flag() == 1 {
        let s = m.src();
        let t = m.dst();
        let mid = s + board.forward();
        assert(board.pawn_pseudo(m));
        assert(mem(board.set_of(PieceType::Pawn, board.turn), s));
        assert(0 <= mid < 64);
        lemma_single(mid);
        let j = index_of(PieceType::Pawn, board.turn);
        assert(mem(r.bitboard.pieces@[j], t) == board.holds_after(m, j, t));
        assert(board.occupied_after(m, mid) == mem(r.bitboard.all, mid));
        assert(board.occupied_after(m, s) == mem(r.bitboard.all, s));
    }
}

/// A legal move leads from a sound position to a sound position.
pub proof fn lemma_move_keeps_sound(board: Board, m: Move, r: Board)
    requires
        board.sound(),
        board.legal(m),
        board.arrives(m, r),
    ensures
        r.sound(),
{
    let us = board.turn;
    let them = us.other();
    lemma_legal_is_pseudo(board, m);
    lemma_move_shape(board, m);
    lemma_sets_after(board, m, r);
    lemma_king_after(board, m, r);
    lemma_king_is_not_taken(board, m);
    // The opponent's king stands where it stood.
    let kings = board.set_of(PieceType::King, them);
    assert forall|x: int| 0 <= x < 64 implies mem(r.set_of(PieceType::King, them), x) == mem(kings, x) by {
        lemma_position_after(board, m, r, x);
        lemma_kinds_apart(board);
        if m.flag() == 5 {
            assert(mem(board.set_of(PieceType::Pawn, them), m.dst() - board.forward()));
        }
    }
    lemma_ext(r.set_of(PieceType::King, them), kings);
    assert forall|sq: int| #[trigger]
        mem(r.set_of(PieceType::Pawn, Color::White), sq) implies 1 <= rank_of(sq) <= 6 by {
        lemma_pawns_stay_inside(board, m, r, Color::White, sq);
    }
    assert forall|sq: int| #[trigger]
        mem(r.set_of(PieceType::Pawn, Color::Black), sq) implies 1 <= rank_of(sq) <= 6 by {
        lemma_pawns_stay_inside(board, m, r, Color::Black, sq);
    }
    lemma_castling_stays_sound(board, m, r);
    lemma_en_passant_stays_sound(board, m, r);
    assert(r.valid());
    lemma_legal_move_is_safe(board, m, r);
    if r.en_passant is Some {
        assert(m.flag() == 1);
        assert(r.ep_pos() - r.forward() == m.dst()) by {
            lemma_single(m.src() + board.forward());
        }
        assert forall|e: int|
            r.enemy_slider(false, e) && aligned_diagonal(r.own_king(), e) && #[trigger] between_sq(
                r.own_king(),
                e,
                r.ep_pos() - r.forward(),
            ) implies exists|u: int| #[trigger]
            between_sq(r.own_king(), e, u) && u != r.ep_pos() - r.forward() && mem(
                r.bitboard.all,
                u,
            ) by {
            lemma_push_shields_nothing(board, m, r, e);
        }
    }
}

/// The members of the piece sets of the initial position.
proof fn lemma_initial_members(x: int)
    requires
        0 <= x < 64,
    ensures
        mem(0xFF00, x) == (8 <= x < 16),
        mem(0x42, x) == (x == 1 || x == 6),
        mem(0x24, x) == (x == 2 || x == 5),
        mem(0x81, x) == (x == 0 || x == 7),
        mem(0x08, x) == (x == 3),
        mem(0x10, x) == (x == 4),
        mem(0xFF000000000000, x) == (48 <= x < 56),
        mem(0x4200000000000000, x) == (x == 57 || x == 62),
        mem(0x2400000000000000, x) == (x == 58 || x == 61),
        mem(0x8100000000000000, x) == (x == 56 || x == 63),
        mem(0x0800000000000000, x) == (x == 59),
        mem(0x1000000000000000, x) == (x == 60),
{
    let k = x as u64;
    assert({
        &&& ((0xFF00u64 >> k) & 1 == 1) == (8 <= k < 16)
        &&& ((0x42u64 >> k) & 1 == 1) == (k == 1 || k == 6)
        &&& ((0x24u64 >> k) & 1 == 1) == (k == 2 || k == 5)
        &&& ((0x81u64 >> k) & 1 == 1) == (k == 0 || k == 7)
        &&& ((0x08u64 >> k) & 1 == 1) == (k == 3)
        &&& ((0x10u64 >> k) & 1 == 1) == (k == 4)
        &&& ((0xFF000000000000u64 >> k) & 1 == 1) == (48 <= k < 56)
        &&& ((0x4200000000000000u64 >> k) & 1 == 1) == (k == 57 || k == 62)
        &&& ((0x2400000000000000u64 >> k) & 1 == 1) == (k == 58 || k == 61)
        &&& ((0x8100000000000000u64 >> k) & 1 == 1) == (k == 56 || k == 63)
        &&& ((0x0800000000000000u64 >> k) & 1 == 1) == (k == 59)
        &&& ((0x1000000000000000u64 >> k) & 1 == 1) == (k == 60)
    }) by (bit_vector)
        requires
            k < 64,
    ;
}

/// The initial position is sound.
pub proof fn lemma_initial_sound(board: Board)
    requires
        board.bitboard.pieces@ == crate::board::initial_sets(),
        board.bitboard.consistent(),
        board.turn == Color::White,
        board.castling.0 == 15,
        board.en_passant is None,
    ensures
        board.sound(),
{
    let p = board.bitboard.pieces@;
    assert forall|j: int, x: int| 0 <= j < 12 && #[trigger] mem(p[j], x) implies 0 <= x < 64 && (j
        == 0 ==> 8 <= x < 16) && (j == 1 ==> x == 1 || x == 6) && (j == 2 ==> x == 2 || x == 5) && (j
        == 3 ==> x == 0 || x == 7) && (j == 4 ==> x == 3) && (j == 5 ==> x == 4) && (j == 6 ==> 48
        <= x < 56) && (j == 7 ==> x == 57 || x == 62) && (j == 8 ==> x == 58 || x == 61) && (j == 9
        ==> x == 56 || x == 63) && (j == 10 ==> x == 59) && (j == 11 ==> x == 60) by {
        lemma_initial_members(x);
    }
    lemma_initial_members(0);
    lemma_initial_members(4);
    lemma_initial_members(7);
    lemma_initial_members(56);
    lemma_initial_members(60);
    lemma_initial_members(63);
    assert(board.bitboard.disjoint());
    let wk = board.set_of(PieceType::King, Color::White);
    let bk = board.set_of(PieceType::King, Color::Black);
    assert forall|x: int| 0 <= x < 64 implies mem(wk, x) == mem(bit(4), x) by {
        lemma_initial_members(x);
        lemma_mem_bit(4, x);
    }
    lemma_ext(wk, bit(4));
    lemma_single(4);
    assert forall|x: int| 0 <= x < 64 implies mem(bk, x) == mem(bit(60), x) by {
        lemma_initial_members(x);
        lemma_mem_bit(60, x);
    }
    lemma_ext(bk, bit(60));
    lemma_single(60);
    assert(15u8 & 1u8 != 0 && 15u8 & 2u8 != 0 && 15u8 & 4u8 != 0 && 15u8 & 8u8 != 0)
        by (bit_vector);
    assert(board.castling_sound());
    assert(board.valid());
    assert(!board.exposed()) by {
        if board.exposed() {
            let e = choose|e: int|
                hits_from(board.bitboard, Color::White, e, board.bitboard.all, 60);
            assert(false);
        }
    }
}

} // verus!
