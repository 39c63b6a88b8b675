//! A move that follows the rules of its piece and leaves the mover's king
//! out of check is a legal move.

use vstd::prelude::*;
use crate::bits::{bit, lemma_mem_and, lemma_mem_bit, lemma_mem_not, lemma_mem_or, mem};
use crate::board::{Board, Color, PieceType};
use crate::legal::{attacked, hits_from};
use crate::magic::slide_hits;
use crate::movegen::lemma_kinds_apart;
use crate::moves::Move;
use crate::safety::{lemma_ep_geometry, lemma_king_after, lemma_legal_is_pseudo, lemma_legal_move_is_safe, lemma_move_shape, lemma_no_gap, lemma_occupied, lemma_position_after, lemma_rest_stays, lemma_stretch};
use crate::tables::{aligned_straight, between_sq, king_step, knight_step, line_sq, pawn_step, rank_of};

verus! {

/// A knight's jump from a square between `k` and `p` leaves their line.
proof fn lemma_jump_leaves_line(k: int, p: int, s: int, t: int)
    requires
        between_sq(k, p, s),
        knight_step(s, t),
    ensures
        !line_sq(k, p, t),
{
}

/// Two squares that both have `t` between them and `k` lie on one ray from
/// `k`: one of them is between `k` and the other.
proof fn lemma_same_ray(k: int, a: int, b: int, t: int)
    requires
        between_sq(k, a, t),
        between_sq(k, b, t),
        a != b,
    ensures
        between_sq(k, a, b) || between_sq(k, b, a),
{
}

/// The square behind a pawn that attacks `k` is on no line with `k`.
proof fn lemma_behind_checking_pawn(c: Color, cap: int, k: int, x: int)
    requires
        pawn_step(c.other(), cap, k),
    ensures
        !between_sq(
            k,
            x,
            cap + (if c == Color::White {
                8int
            } else {
                -8int
            }),
        ),
{
}

/// Nothing stands between the king and a piece that gives check.
proof fn lemma_check_line_clear(board: Board, c: int, u: int)
    requires
        board.checker(c),
        between_sq(board.own_king(), c, u),
    ensures
        !mem(board.bitboard.all, u),
{
    let k = board.own_king();
    let them = board.turn.other();
    lemma_stretch(c, k, u);
    if pawn_step(them, c, k) || knight_step(c, k) || king_step(c, k) {
        lemma_no_gap(them, c, k, u);
    }
}

/// A piece that gave check before a move of a piece other than the king
/// still attacks the king after it, unless the move took the piece or
/// landed between it and the king.
proof fn lemma_still_attacks(board: Board, m: Move, r: Board, c: int)
    requires
        board.valid(),
        board.pseudo(m),
        !board.king_pseudo(m),
        board.arrives(m, r),
        board.checker(c),
        c != m.dst(),
        !(m.flag() == 5 && c == m.dst() - board.forward()),
        !between_sq(board.own_king(), c, m.dst()),
    ensures
        hits_from(r.bitboard, board.turn.other(), c, r.bitboard.all, board.own_king()),
{
    let k = board.own_king();
    let t = m.dst();
    lemma_move_shape(board, m);
    lemma_rest_stays(board, m, r);
    assert(0 <= c < 64);
    lemma_position_after(board, m, r, c);
    assert forall|st: bool| slide_hits(st, c, board.bitboard.all, k) implies slide_hits(
        st,
        c,
        r.bitboard.all,
        k,
    ) by {
        assert forall|u: int| #[trigger] between_sq(c, k, u) implies !mem(r.bitboard.all, u) by {
            lemma_stretch(c, k, u);
            if mem(r.bitboard.all, u) {
                assert(board.occupied_after(m, u));
            }
        }
    }
}

/// A slider that pinned the piece that moved attacks the king after a move
/// that left the line of the pin.
proof fn lemma_pin_attacks(board: Board, m: Move, r: Board, p: int)
    requires
        board.valid(),
        board.pseudo(m),
        !board.king_pseudo(m),
        board.arrives(m, r),
        board.pinner(m.src(), p),
        !line_sq(board.own_king(), p, m.dst()),
    ensures
        hits_from(r.bitboard, board.turn.other(), p, r.bitboard.all, board.own_king()),
{
    let k = board.own_king();
    let s = m.src();
    let t = m.dst();
    let them = board.turn.other();
    lemma_move_shape(board, m);
    lemma_rest_stays(board, m, r);
    lemma_stretch(k, p, s);
    lemma_stretch(k, p, t);
    assert(0 <= p < 64);
    lemma_position_after(board, m, r, p);
    lemma_kinds_apart(board);
    assert(line_sq(k, p, p));
    assert(p != t);
    if m.flag() == 5 {
        assert(mem(board.set_of(PieceType::Pawn, them), t - board.forward()));
        assert(p != t - board.forward());
    }
    let st = aligned_straight(k, p) && (mem(board.set_of(PieceType::Rook, them), p) || mem(
        board.set_of(PieceType::Queen, them),
        p,
    ));
    assert forall|u: int| #[trigger] between_sq(p, k, u) implies !mem(r.bitboard.all, u) by {
        lemma_stretch(p, k, u);
        if mem(r.bitboard.all, u) {
            assert(board.occupied_after(m, u));
        }
    }
    assert(slide_hits(st, p, r.bitboard.all, k));
}

/// A king that steps onto a square the opponent attacks, the king being
/// seen through, is attacked there after the move.
proof fn lemma_bad_king_step(board: Board, m: Move, r: Board)
    requires
        board.valid(),
        board.pseudo(m),
        board.king_pseudo(m),
        m.flag() != 2,
        m.flag() != 3,
        board.arrives(m, r),
        board.danger(m.dst()),
    ensures
        attacked(r.bitboard, board.turn.other(), r.bitboard.all, m.dst()),
{
    let k = board.own_king();
    let t = m.dst();
    let us = board.turn;
    let them = us.other();
    let kings = board.set_of(PieceType::King, us);
    let seen = board.bitboard.all & !kings;
    let e = choose|e: int| hits_from(board.bitboard, them, e, seen, t);
    lemma_move_shape(board, m);
    lemma_rest_stays(board, m, r);
    assert(0 <= e < 64);
    assert(e != t);
    lemma_position_after(board, m, r, e);
    assert forall|st: bool| slide_hits(st, e, seen, t) implies slide_hits(st, e, r.bitboard.all, t) by {
        assert forall|u: int| #[trigger] between_sq(e, t, u) implies !mem(r.bitboard.all, u) by {
            lemma_stretch(e, t, u);
            lemma_mem_and(board.bitboard.all, !kings, u);
            lemma_mem_not(kings, u);
            lemma_mem_bit(k, u);
            vstd::std_specs::bits::axiom_u64_trailing_zeros(kings);
            if mem(r.bitboard.all, u) {
                assert(board.occupied_after(m, u));
                assert(mem(seen, u));
            }
        }
    }
    assert(hits_from(r.bitboard, them, e, r.bitboard.all, t));
}

/// A square that takes one checker or shuts it off neither takes nor
/// shuts off another.
proof fn lemma_not_both_shut(board: Board, t: int, c0: int, c1: int)
    requires
        board.checker(c0),
        board.checker(c1),
        c0 != c1,
        mem(board.bitboard.all, c0),
        mem(board.bitboard.all, c1),
        c0 == t || between_sq(board.own_king(), c0, t),
    ensures
        c1 != t,
        !between_sq(board.own_king(), c1, t),
{
    let k = board.own_king();
    if c1 != t && !between_sq(k, c1, t) {
    } else if c0 == t {
        lemma_check_line_clear(board, c1, c0);
    } else if c1 == t {
        lemma_check_line_clear(board, c0, c1);
    } else {
        lemma_same_ray(k, c0, c1, t);
        if between_sq(k, c0, c1) {
            lemma_check_line_clear(board, c0, c1);
        } else {
            lemma_check_line_clear(board, c1, c0);
        }
    }
}

/// An en-passant capture that takes a checking pawn or shuts a checker off
/// neither takes nor shuts off another checker.
proof fn lemma_not_both_shut_ep(board: Board, t: int, c0: int, c1: int)
    requires
        board.checker(c0),
        board.checker(c1),
        c0 != c1,
        mem(board.bitboard.all, c0),
        mem(board.bitboard.all, c1),
        c0 == t - board.forward() || between_sq(board.own_king(), c0, t),
        board.checker(t - board.forward()) ==> pawn_step(
            board.turn.other(),
            t - board.forward(),
            board.own_king(),
        ),
    ensures
        c1 != t - board.forward(),
        !between_sq(board.own_king(), c1, t),
{
    let k = board.own_king();
    let us = board.turn;
    let cap = t - board.forward();
    if c1 != cap && !between_sq(k, c1, t) {
    } else if c0 == cap {
        lemma_behind_checking_pawn(us, cap, k, c1);
    } else if c1 == cap {
        lemma_behind_checking_pawn(us, cap, k, c0);
    } else {
        lemma_same_ray(k, c0, c1, t);
        if between_sq(k, c0, c1) {
            lemma_check_line_clear(board, c0, c1);
        } else {
            lemma_check_line_clear(board, c1, c0);
        }
    }
}

/// A move of a piece other than the king, en passant apart, that does not
/// answer the check leaves a checker attacking the king.
proof fn lemma_check_persists(board: Board, m: Move, r: Board) -> (c: int)
    requires
        board.valid(),
        board.pseudo(m),
        !board.king_pseudo(m),
        m.flag() != 5,
        board.arrives(m, r),
        !board.check_ok(m.dst()),
    ensures
        hits_from(r.bitboard, board.turn.other(), c, r.bitboard.all, board.own_king()),
{
    let k = board.own_king();
    let t = m.dst();
    let c0 = choose|c: int| board.checker(c);
    assert(board.checker(c0));
    lemma_occupied(board, c0);
    assert(mem(board.bitboard.all, c0));
    if c0 != t && !between_sq(k, c0, t) {
        lemma_still_attacks(board, m, r, c0);
        c0
    } else {
        let c1 = choose|c: int| board.checker(c) && c != c0;
        assert(board.checker(c1) && c1 != c0);
        lemma_occupied(board, c1);
        assert(mem(board.bitboard.all, c1));
        lemma_not_both_shut(board, t, c0, c1);
        lemma_still_attacks(board, m, r, c1);
        c1
    }
}

/// The pawn that may be taken en passant gives check as a pawn does, if it
/// gives check at all.
proof fn lemma_ep_pawn_checks(board: Board, m: Move)
    requires
        board.valid(),
        board.pseudo(m),
        m.flag() == 5,
    ensures
        mem(board.set_of(PieceType::Pawn, board.turn.other()), m.dst() - board.forward()),
        !mem(board.bitboard.all, m.dst()),
        board.checker(m.dst() - board.forward()) ==> pawn_step(
            board.turn.other(),
            m.dst() - board.forward(),
            board.own_king(),
        ),
{
    lemma_move_shape(board, m);
    lemma_kinds_apart(board);
}

/// An en-passant capture that neither lands between king and checker nor
/// takes the checker leaves a checker attacking the king.
proof fn lemma_check_persists_ep(board: Board, m: Move, r: Board) -> (c: int)
    requires
        board.valid(),
        board.pseudo(m),
        m.flag() == 5,
        board.arrives(m, r),
        !board.check_ok(m.dst()),
        !board.check_ok(m.dst() - board.forward()),
    ensures
        hits_from(r.bitboard, board.turn.other(), c, r.bitboard.all, board.own_king()),
{
    let k = board.own_king();
    let t = m.dst();
    let cap = t - board.forward();
    lemma_ep_pawn_checks(board, m);
    assert(!board.king_pseudo(m)) by {
        lemma_move_shape(board, m);
    }
    let c0 = choose|c: int| board.checker(c);
    assert(board.checker(c0));
    lemma_occupied(board, c0);
    assert(mem(board.bitboard.all, c0));
    if c0 != cap && !between_sq(k, c0, t) {
        lemma_still_attacks(board, m, r, c0);
        c0
    } else {
        let c1 = choose|c: int| board.checker(c) && c != c0;
        assert(board.checker(c1) && c1 != c0) by {
            if forall|x: int| board.checker(x) ==> x == c0 {
                assert(!(t == c0 || between_sq(k, c0, t)));
                assert(!(cap == c0 || between_sq(k, c0, cap)));
            }
        }
        lemma_occupied(board, c1);
        assert(mem(board.bitboard.all, c1));
        lemma_not_both_shut_ep(board, t, c0, c1);
        lemma_still_attacks(board, m, r, c1);
        c1
    }
}

/// An en-passant capture that opens the king's rank leaves the king
/// attacked along it.
proof fn lemma_opened_rank(board: Board, m: Move, r: Board) -> (c: int)
    requires
        board.valid(),
        board.pseudo(m),
        m.flag() == 5,
        board.arrives(m, r),
        board.ep_exposes(m.src(), m.dst()),
    ensures
        hits_from(r.bitboard, board.turn.other(), c, r.bitboard.all, board.own_king()),
{
    let k = board.own_king();
    let s = m.src();
    let t = m.dst();
    let us = board.turn;
    let them = us.other();
    let occ = board.bitboard.all;
    let cap = t - board.forward();
    let after = (occ & !bit(s) & !bit(cap)) | bit(t);
    lemma_move_shape(board, m);
    lemma_rest_stays(board, m, r);
    lemma_kinds_apart(board);
    lemma_ep_geometry(us, s, t);
    let c = choose|c: int|
        {
            &&& #[trigger] slide_hits(true, k, after, c)
            &&& rank_of(c) == rank_of(k)
            &&& (mem(board.set_of(PieceType::Rook, them), c) || mem(
                board.set_of(PieceType::Queen, them),
                c,
            ))
        };
    lemma_occupied(board, c);
    assert(mem(occ, c));
    assert(!mem(occ, t));
    assert(mem(board.set_of(PieceType::Pawn, them), cap));
    assert(c != t && c != cap);
    assert(0 <= c < 64);
    lemma_position_after(board, m, r, c);
    lemma_stretch(k, c, 0);
    assert forall|u: int| #[trigger] between_sq(c, k, u) implies !mem(r.bitboard.all, u) by {
        lemma_stretch(c, k, u);
        lemma_mem_or(occ & !bit(s) & !bit(cap), bit(t), u);
        lemma_mem_and(occ & !bit(s), !bit(cap), u);
        lemma_mem_and(occ, !bit(s), u);
        lemma_mem_not(bit(s), u);
        lemma_mem_not(bit(cap), u);
        lemma_mem_bit(s, u);
        lemma_mem_bit(cap, u);
        lemma_mem_bit(t, u);
        assert(mem(after, u) == board.occupied_after(m, u));
    }
    assert(slide_hits(true, c, r.bitboard.all, k));
    c
}

/// A move that follows the rules of its piece and is not legal leaves the
/// mover's king attacked.
proof fn lemma_illegal_is_exposed(board: Board, m: Move, r: Board)
    requires
        board.valid(),
        board.pseudo(m),
        board.arrives(m, r),
        !board.legal(m),
    ensures
        r.exposed(),
{
    let k = board.own_king();
    let s = m.src();
    let t = m.dst();
    let us = board.turn;
    let them = us.other();
    lemma_move_shape(board, m);
    lemma_king_after(board, m, r);
    lemma_kinds_apart(board);
    if board.king_pseudo(m) {
        assert(!board.king_legal(m));
        assert(m.flag() != 2 && m.flag() != 3);
        assert(board.danger(t));
        lemma_bad_king_step(board, m, r);
    } else {
        let pin_broken = exists|p: int| #[trigger] board.pinner(s, p) && !line_sq(k, p, t);
        if board.knight_pseudo(m) && board.pinned(s) {
            let p = choose|p: int| board.pinner(s, p);
            lemma_jump_leaves_line(k, p, s, t);
            lemma_pin_attacks(board, m, r, p);
        } else if pin_broken {
            let p = choose|p: int| #[trigger] board.pinner(s, p) && !line_sq(k, p, t);
            lemma_pin_attacks(board, m, r, p);
        } else if m.flag() == 5 {
            assert(board.pin_ok(s, t));
            assert(!board.pawn_legal(m));
            if board.ep_exposes(s, t) {
                let c = lemma_opened_rank(board, m, r);
            } else {
                let c = lemma_check_persists_ep(board, m, r);
            }
        } else {
            assert(board.pin_ok(s, t));
            assert(!board.check_ok(t)) by {
                if board.check_ok(t) {
                    if board.knight_pseudo(m) {
                        assert(board.knight_legal(m));
                    } else if board.pawn_pseudo(m) {
                        assert(0 <= t < 64);
                        assert(board.pawn_legal(m));
                    } else {
                        assert(board.legal(m));
                    }
                }
            }
            let c = lemma_check_persists(board, m, r);
        }
        assert(attacked(r.bitboard, them, r.bitboard.all, k));
    }
}

/// A move that follows the rules of its piece and leaves the mover's king
/// out of check is a legal move.
pub proof fn lemma_safe_move_is_legal(board: Board, m: Move, r: Board)
    requires
        board.valid(),
        board.pseudo(m),
        board.arrives(m, r),
        !r.exposed(),
    ensures
        board.legal(m),
{
    if !board.legal(m) {
        lemma_illegal_is_exposed(board, m, r);
    }
}

/// The legal moves are the moves that follow the rules of their piece and
/// leave the mover's king out of check. This is stated of the positions in
/// which the pawn that may be taken en passant shields no diagonal of the
/// mover's king.
pub proof fn lemma_legal_iff_safe(board: Board, m: Move, r: Board)
    requires
        board.valid(),
        board.en_passant is Some ==> board.ep_unshielded(),
        board.arrives(m, r),
    ensures
        board.legal(m) <==> board.pseudo(m) && !r.exposed(),
{
    if board.legal(m) {
        lemma_legal_is_pseudo(board, m);
        lemma_move_shape(board, m);
        lemma_legal_move_is_safe(board, m, r);
    }
    if board.pseudo(m) && !r.exposed() {
        lemma_safe_move_is_legal(board, m, r);
    }
}

} // verus!
