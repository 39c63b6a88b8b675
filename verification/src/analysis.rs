//! Per-position analysis before generation: the squares the opponent
//! attacks, the checkers, the check mask and the pin masks.

use vstd::prelude::*;
use crate::bitboard::{Bitboard, BitIter};
use crate::bits::{bit, lemma_drop_lowest, lemma_empty_iff, lemma_lowest, lemma_mem_and, lemma_mem_full, lemma_mem_or, lemma_mem_zero, mem};
use crate::board::{Board, Color, PieceType, Square};
use crate::legal::{attacked, hits_from};
use crate::magic::{bishop_attacks, rook_attacks, slide_hits};
use crate::tables::{aligned_diagonal, aligned_straight, between_sq, king_step, knight_step, line_sq, pawn_step, Tables};

verus! {

/// Steps and lines look the same from both ends.
pub proof fn lemma_symmetry(color: Color, s: int, t: int, u: int)
    ensures
        pawn_step(color, s, t) == pawn_step(color.other(), t, s),
        knight_step(s, t) == knight_step(t, s),
        king_step(s, t) == king_step(t, s),
        aligned_straight(s, t) == aligned_straight(t, s),
        aligned_diagonal(s, t) == aligned_diagonal(t, s),
        between_sq(s, t, u) == between_sq(t, s, u),
{
}

/// A slider on `s` attacks `t` exactly when one on `t` would attack `s`.
pub proof fn lemma_slide_symmetry(straight: bool, s: int, occ: u64, t: int)
    ensures
        slide_hits(straight, s, occ, t) == slide_hits(straight, t, occ, s),
{
    lemma_symmetry(Color::White, s, t, 0);
    assert forall|u: int| between_sq(s, t, u) == between_sq(t, s, u) by {
        lemma_symmetry(Color::White, s, t, u);
    }
}

/// The pieces of `by` that attack `sq`, lines being blocked as `occ` says:
/// for each kind, the attack set of that kind seen from `sq` is met with
/// the pieces of the kind (pawns look with the other colour's table).
pub fn attackers_of(tables: &Tables, b: &Bitboard, sq: usize, by: Color, occ: u64) -> (r: u64)
    requires
        tables.wf(),
        sq < 64,
    ensures
        forall|s: int| mem(r, s) == hits_from(*b, by, s, occ, sq as int),
{
    let pawns = b.piece_bb(PieceType::Pawn, by);
    let knights = b.piece_bb(PieceType::Knight, by);
    let bishops = b.piece_bb(PieceType::Bishop, by);
    let rooks = b.piece_bb(PieceType::Rook, by);
    let queens = b.piece_bb(PieceType::Queen, by);
    let king = b.piece_bb(PieceType::King, by);
    let pawn_rays = tables.pawn[by.opposite().index()][sq];
    let knight_rays = tables.knight[sq];
    let bishop_rays = bishop_attacks(&tables.magic, sq, occ);
    let rook_rays = rook_attacks(&tables.magic, sq, occ);
    let king_rays = tables.king[sq];
    let r = (pawn_rays & pawns) | (knight_rays & knights) | (bishop_rays & (bishops | queens)) | (
    rook_rays & (rooks | queens)) | (king_rays & king);
    proof {
        assert forall|s: int| mem(r, s) == hits_from(*b, by, s, occ, sq as int) by {
            broadcast use lemma_mem_or, lemma_mem_and;

            lemma_symmetry(by, s, sq as int, 0);
            lemma_slide_symmetry(false, s, occ, sq as int);
            lemma_slide_symmetry(true, s, occ, sq as int);
            assert(mem(pawn_rays, s) == pawn_step(by.other(), sq as int, s));
            assert(mem(knight_rays, s) == knight_step(sq as int, s));
            assert(mem(king_rays, s) == king_step(sq as int, s));
        }
    }
    r
}

/// Code of a way of attacking: 0 pawn, 1 knight, 2 diagonal slider,
/// 3 straight slider, 4 king.
pub open spec fn step_hits(code: int, color: Color, s: int, occ: u64, t: int) -> bool {
    if code == 0 {
        pawn_step(color, s, t)
    } else if code == 1 {
        knight_step(s, t)
    } else if code == 2 {
        slide_hits(false, s, occ, t)
    } else if code == 3 {
        slide_hits(true, s, occ, t)
    } else {
        king_step(s, t)
    }
}

/// The squares attacked from `sq` in the given way.
fn attacks_of(tables: &Tables, code: u8, color: Color, sq: usize, occ: u64) -> (r: u64)
    requires
        tables.wf(),
        sq < 64,
        code <= 4,
    ensures
        forall|t: int| mem(r, t) == step_hits(code as int, color, sq as int, occ, t),
{
    if code == 0 {
        tables.pawn[color.index()][sq]
    } else if code == 1 {
        tables.knight[sq]
    } else if code == 2 {
        bishop_attacks(&tables.magic, sq, occ)
    } else if code == 3 {
        rook_attacks(&tables.magic, sq, occ)
    } else {
        tables.king[sq]
    }
}

/// A member of `set` attacks `t` in the given way.
pub open spec fn set_hits(set: u64, code: int, color: Color, occ: u64, t: int) -> bool {
    exists|s: int| #[trigger] mem(set, s) && step_hits(code, color, s, occ, t)
}

/// The squares attacked in the given way from the members of `set`.
fn union_attacks(tables: &Tables, set: u64, code: u8, color: Color, occ: u64) -> (r: u64)
    requires
        tables.wf(),
        code <= 4,
    ensures
        forall|t: int| mem(r, t) == set_hits(set, code as int, color, occ, t),
{
    let mut acc = 0u64;
    let mut it = BitIter(set);
    proof {
        assert forall|t: int| !mem(acc, t) by {
            lemma_mem_zero(t);
        }
    }
    loop
        invariant
            tables.wf(),
            code <= 4,
            forall|s: int| mem(it.0, s) ==> mem(set, s),
            forall|t: int|
                mem(acc, t) == (exists|s: int| #[trigger]
                    mem(set, s) && !mem(it.0, s) && step_hits(code as int, color, s, occ, t)),
        ensures
            forall|t: int| mem(acc, t) == set_hits(set, code as int, color, occ, t),
        decreases it.0,
    {
        let ghost before = it.0;
        let ghost prev = acc;
        match it.next() {
            None => {
                proof {
                    lemma_empty_iff(0);
                    assert forall|t: int| mem(acc, t) == set_hits(set, code as int, color, occ, t) by {
                        if mem(acc, t) {
                            let s = choose|s: int| #[trigger]
                                mem(set, s) && !mem(before, s) && step_hits(
                                    code as int,
                                    color,
                                    s,
                                    occ,
                                    t,
                                );
                            assert(mem(set, s) && step_hits(code as int, color, s, occ, t));
                        }
                        if set_hits(set, code as int, color, occ, t) {
                            let s = choose|s: int| #[trigger]
                                mem(set, s) && step_hits(code as int, color, s, occ, t);
                            lemma_mem_zero(s);
                            assert(mem(set, s) && !mem(before, s) && step_hits(
                                code as int,
                                color,
                                s,
                                occ,
                                t,
                            ));
                        }
                    }
                }
                break ;
            },
            Some(sq) => {
                let a = attacks_of(tables, code, color, sq, occ);
                acc |= a;
                proof {
                    assert forall|t: int|
                        mem(acc, t) == (exists|s: int| #[trigger]
                            mem(set, s) && !mem(it.0, s) && step_hits(
                                code as int,
                                color,
                                s,
                                occ,
                                t,
                            )) by {
                        lemma_mem_or(prev, a, t);
                        if mem(prev, t) {
                            let s = choose|s: int| #[trigger]
                                mem(set, s) && !mem(before, s) && step_hits(
                                    code as int,
                                    color,
                                    s,
                                    occ,
                                    t,
                                );
                            assert(mem(set, s) && !mem(it.0, s) && step_hits(
                                code as int,
                                color,
                                s,
                                occ,
                                t,
                            ));
                        }
                        if mem(a, t) {
                            assert(mem(set, sq as int) && !mem(it.0, sq as int) && step_hits(
                                code as int,
                                color,
                                sq as int,
                                occ,
                                t,
                            ));
                        }
                        if exists|s: int| #[trigger]
                            mem(set, s) && !mem(it.0, s) && step_hits(code as int, color, s, occ, t) {
                            let s = choose|s: int| #[trigger]
                                mem(set, s) && !mem(it.0, s) && step_hits(
                                    code as int,
                                    color,
                                    s,
                                    occ,
                                    t,
                                );
                            if s != sq {
                                assert(mem(set, s) && !mem(before, s) && step_hits(
                                    code as int,
                                    color,
                                    s,
                                    occ,
                                    t,
                                ));
                            }
                        }
                    }
                }
            },
        }
    }
    acc
}

/// Every square attacked by a piece of `by`, lines being blocked as `occ` says.
pub fn attack_map(tables: &Tables, b: &Bitboard, by: Color, occ: u64) -> (r: u64)
    requires
        tables.wf(),
    ensures
        forall|t: int| mem(r, t) == attacked(*b, by, occ, t),
{
    let pawns = b.piece_bb(PieceType::Pawn, by);
    let knights = b.piece_bb(PieceType::Knight, by);
    let bishops = b.piece_bb(PieceType::Bishop, by);
    let rooks = b.piece_bb(PieceType::Rook, by);
    let queens = b.piece_bb(PieceType::Queen, by);
    let king = b.piece_bb(PieceType::King, by);
    let a0 = union_attacks(tables, pawns, 0, by, occ);
    let a1 = union_attacks(tables, knights, 1, by, occ);
    let a2 = union_attacks(tables, bishops | queens, 2, by, occ);
    let a3 = union_attacks(tables, rooks | queens, 3, by, occ);
    let a4 = union_attacks(tables, king, 4, by, occ);
    let r = a0 | a1 | a2 | a3 | a4;
    proof {
        assert forall|t: int| mem(r, t) == attacked(*b, by, occ, t) by {
            lemma_mem_or(a0 | a1 | a2 | a3, a4, t);
            lemma_mem_or(a0 | a1 | a2, a3, t);
            lemma_mem_or(a0 | a1, a2, t);
            lemma_mem_or(a0, a1, t);
            if set_hits(pawns, 0, by, occ, t) {
                let s = choose|s: int| #[trigger] mem(pawns, s) && step_hits(0, by, s, occ, t);
                assert(hits_from(*b, by, s, occ, t));
            }
            if set_hits(knights, 1, by, occ, t) {
                let s = choose|s: int| #[trigger] mem(knights, s) && step_hits(1, by, s, occ, t);
                assert(hits_from(*b, by, s, occ, t));
            }
            if set_hits(bishops | queens, 2, by, occ, t) {
                let s = choose|s: int| #[trigger]
                    mem(bishops | queens, s) && step_hits(2, by, s, occ, t);
                lemma_mem_or(bishops, queens, s);
                assert(hits_from(*b, by, s, occ, t));
            }
            if set_hits(rooks | queens, 3, by, occ, t) {
                let s = choose|s: int| #[trigger]
                    mem(rooks | queens, s) && step_hits(3, by, s, occ, t);
                lemma_mem_or(rooks, queens, s);
                assert(hits_from(*b, by, s, occ, t));
            }
            if set_hits(king, 4, by, occ, t) {
                let s = choose|s: int| #[trigger] mem(king, s) && step_hits(4, by, s, occ, t);
                assert(hits_from(*b, by, s, occ, t));
            }
            if attacked(*b, by, occ, t) {
                let s = choose|s: int| hits_from(*b, by, s, occ, t);
                lemma_mem_or(bishops, queens, s);
                lemma_mem_or(rooks, queens, s);
                if mem(pawns, s) && pawn_step(by, s, t) {
                    assert(mem(pawns, s) && step_hits(0, by, s, occ, t));
                } else if mem(knights, s) && knight_step(s, t) {
                    assert(mem(knights, s) && step_hits(1, by, s, occ, t));
                } else if (mem(bishops, s) || mem(queens, s)) && slide_hits(false, s, occ, t) {
                    assert(mem(bishops | queens, s) && step_hits(2, by, s, occ, t));
                } else if (mem(rooks, s) || mem(queens, s)) && slide_hits(true, s, occ, t) {
                    assert(mem(rooks | queens, s) && step_hits(3, by, s, occ, t));
                } else {
                    assert(mem(king, s) && step_hits(4, by, s, occ, t));
                }
            }
        }
    }
    r
}

/// A non-empty set has one member exactly when clearing its lowest member empties it.
pub proof fn lemma_single_member(bb: u64)
    requires
        bb != 0,
    ensures
        (bb & ((bb - 1) as u64) == 0) == (forall|u: int| mem(bb, u) ==> u == bb.trailing_zeros()),
{
    let rest = bb & ((bb - 1) as u64);
    lemma_lowest(bb);
    lemma_empty_iff(rest);
    assert forall|u: int| mem(rest, u) == (mem(bb, u) && u != bb.trailing_zeros()) by {
        lemma_drop_lowest(bb, u);
    }
    if rest != 0 {
        lemma_lowest(rest);
        assert(mem(bb, rest.trailing_zeros() as int));
    }
}

/// The squares a move of a piece other than the king may go to while the
/// king is attacked by the pieces in `checkers`: every square when there is
/// none; the checker and the squares between it and the king when there is
/// one; no square when there are more.
pub fn check_mask_of(tables: &Tables, board: &Board, king: usize, checkers: u64) -> (r: u64)
    requires
        tables.wf(),
        king < 64,
        king == board.own_king(),
        forall|s: int| mem(checkers, s) == board.checker(s),
    ensures
        forall|t: int| mem(r, t) == (0 <= t < 64 && board.check_ok(t)),
{
    if checkers == 0 {
        proof {
            lemma_empty_iff(checkers);
            assert forall|t: int| mem(0xFFFF_FFFF_FFFF_FFFFu64, t) == (0 <= t < 64 && board.check_ok(t)) by {
                lemma_mem_full(t);
                lemma_mem_zero(t);
                assert(!board.in_check()) by {
                    if board.in_check() {
                        let s = choose|s: int| board.checker(s);
                        lemma_mem_zero(s);
                    }
                }
            }
        }
        0xFFFF_FFFF_FFFF_FFFF
    } else if checkers & (checkers - 1) == 0 {
        let c = checkers.trailing_zeros() as usize;
        proof {
            lemma_lowest(checkers);
            lemma_single_member(checkers);
        }
        let r = tables.between[king][c] | checkers;
        proof {
            assert(board.checker(c as int));
            assert(board.in_check());
            assert forall|t: int| mem(r, t) == (0 <= t < 64 && board.check_ok(t)) by {
                lemma_mem_or(tables.between[king as int][c as int], checkers, t);
                assert(mem(tables.between@[king as int]@[c as int], t) == between_sq(
                    king as int,
                    c as int,
                    t,
                ));
                if board.check_ok(t) {
                    let c2 = choose|c2: int|
                        {
                            &&& #[trigger] board.checker(c2)
                            &&& forall|s: int| board.checker(s) ==> s == c2
                            &&& (t == c2 || between_sq(board.own_king(), c2, t))
                        };
                    assert(c2 == c);
                }
                if mem(r, t) {
                    assert(t == c || between_sq(board.own_king(), c as int, t));
                    assert(forall|s: int| board.checker(s) ==> s == c);
                }
            }
        }
        r
    } else {
        proof {
            lemma_lowest(checkers);
            lemma_single_member(checkers);
            let c1 = checkers.trailing_zeros() as int;
            let c3 = choose|u: int| mem(checkers, u) && u != c1;
            assert(board.checker(c1) && board.checker(c3));
            assert forall|t: int| mem(0u64, t) == (0 <= t < 64 && board.check_ok(t)) by {
                lemma_mem_zero(t);
                if board.check_ok(t) {
                    let c2 = choose|c2: int|
                        {
                            &&& #[trigger] board.checker(c2)
                            &&& forall|s: int| board.checker(s) ==> s == c2
                            &&& (t == c2 || between_sq(board.own_king(), c2, t))
                        };
                    assert(c1 == c2 && c3 == c2);
                }
            }
        }
        0
    }
}

impl Board {
    /// An opposing slider stands on `p`, on a line through the mover's king
    /// that it moves along.
    pub open spec fn sniper(self, p: int) -> bool {
        let k = self.own_king();
        let them = self.turn.other();
        ||| aligned_diagonal(k, p) && (mem(self.set_of(PieceType::Bishop, them), p) || mem(
            self.set_of(PieceType::Queen, them),
            p,
        ))
        ||| aligned_straight(k, p) && (mem(self.set_of(PieceType::Rook, them), p) || mem(
            self.set_of(PieceType::Queen, them),
            p,
        ))
    }

    /// As `pin_ok`, for the pinners outside `rest` alone.
    pub open spec fn pin_ok_but(self, rest: u64, sq: int, t: int) -> bool {
        forall|p: int| #[trigger] self.pinner(sq, p) && !mem(rest, p) ==> line_sq(self.own_king(), p, t)
    }

    /// As `pinned`, for the pinners outside `rest` alone.
    pub open spec fn pinned_but(self, rest: u64, sq: int) -> bool {
        exists|p: int| #[trigger] self.pinner(sq, p) && !mem(rest, p)
    }
}

/// With nothing on the board, a slider reaches every square of its lines.
proof fn lemma_open_lines(straight: bool, s: int, t: int)
    ensures
        slide_hits(straight, s, 0, t) == (if straight {
            aligned_straight(s, t)
        } else {
            aligned_diagonal(s, t)
        }),
{
    assert forall|u: int| #[trigger] between_sq(s, t, u) implies !mem(0u64, u) by {
        lemma_mem_zero(u);
    }
}

/// The opposing sliders on a line with the king that they move along:
/// those that an empty-board bishop or rook on the king's square would reach.
fn snipers_of(tables: &Tables, board: &Board, king: usize) -> (r: u64)
    requires
        tables.wf(),
        king < 64,
        king == board.own_king(),
    ensures
        forall|p: int| mem(r, p) == board.sniper(p),
{
    let them = board.turn.opposite();
    let bishops = board.pieces(PieceType::Bishop, them);
    let rooks = board.pieces(PieceType::Rook, them);
    let queens = board.pieces(PieceType::Queen, them);
    let diagonal = bishop_attacks(&tables.magic, king, 0);
    let straight = rook_attacks(&tables.magic, king, 0);
    let r = (diagonal & (bishops | queens)) | (straight & (rooks | queens));
    proof {
        assert forall|p: int| mem(r, p) == board.sniper(p) by {
            broadcast use lemma_mem_or, lemma_mem_and;

            lemma_open_lines(false, king as int, p);
            lemma_open_lines(true, king as int, p);
        }
    }
    r
}

/// What the slider on `p` pins: with `b` the occupied squares between it and
/// the king, the one member of `b` if it is the only one and the mover's.
proof fn lemma_pin_of(board: Board, p: int, b: u64, sq: int)
    requires
        board.bitboard.wf(),
        board.sniper(p),
        forall|u: int| mem(b, u) == (between_sq(board.own_king(), p, u) && mem(board.bitboard.all, u)),
    ensures
        board.pinner(sq, p) == (b != 0 && (b & ((b - 1) as u64)) == 0 && sq == b.trailing_zeros()
            && mem(board.side(board.turn), sq)),
{
    let own = board.side(board.turn);
    lemma_mem_or(board.bitboard.white, board.bitboard.black, sq);
    lemma_empty_iff(b);
    if b != 0 {
        lemma_lowest(b);
        lemma_single_member(b);
        let q = b.trailing_zeros() as int;
        if board.pinner(sq, p) {
            assert(mem(b, sq));
            assert forall|u: int| mem(b, u) implies u == q by {
                if u != sq {
                    assert(between_sq(board.own_king(), p, u));
                }
            }
        }
        if (b & ((b - 1) as u64)) == 0 && sq == q && mem(own, sq) {
            assert forall|u: int| #[trigger]
                between_sq(board.own_king(), p, u) && u != sq implies !mem(board.bitboard.all, u) by {
                if mem(board.bitboard.all, u) {
                    assert(mem(b, u));
                }
            }
        }
    } else {
        if board.pinner(sq, p) {
            assert(mem(b, sq));
        }
    }
}

/// The pin mask of every square, and the set of pinned squares. A piece is
/// pinned when it is the mover's and the only piece between the king and an
/// opposing slider on a line that slider moves along; its mask is that line.
/// Every other square has the full mask.
pub fn pins_of(tables: &Tables, board: &Board, king: usize) -> (r: ([u64; 64], u64))
    requires
        tables.wf(),
        board.bitboard.wf(),
        king < 64,
        king == board.own_king(),
    ensures
        forall|sq: int, t: int|
            0 <= sq < 64 ==> #[trigger] mem(r.0@[sq], t) == (0 <= t < 64 && board.pin_ok(sq, t)),
        forall|sq: int| mem(r.1, sq) == board.pinned(sq),
{
    let own = board.occupancy(board.turn);
    let occ = board.all_occupancy();
    let snipers = snipers_of(tables, board, king);
    let mut pins = [0xFFFF_FFFF_FFFF_FFFFu64;64];
    let mut pinned = 0u64;
    let mut it = BitIter(snipers);
    proof {
        assert forall|sq: int, t: int| 0 <= sq < 64 implies #[trigger] mem(pins@[sq], t) == (0 <= t
            < 64 && board.pin_ok_but(it.0, sq, t)) by {
            lemma_mem_full(t);
        }
        assert forall|sq: int| mem(pinned, sq) == board.pinned_but(it.0, sq) by {
            lemma_mem_zero(sq);
        }
    }
    loop
        invariant
            tables.wf(),
            board.bitboard.wf(),
            king < 64,
            king == board.own_king(),
            own == board.side(board.turn),
            occ == board.bitboard.all,
            forall|p: int| mem(it.0, p) ==> board.sniper(p),
            forall|sq: int, t: int|
                0 <= sq < 64 ==> #[trigger] mem(pins@[sq], t) == (0 <= t < 64 && board.pin_ok_but(
                    it.0,
                    sq,
                    t,
                )),
            forall|sq: int| mem(pinned, sq) == board.pinned_but(it.0, sq),
        ensures
            forall|sq: int, t: int|
                0 <= sq < 64 ==> #[trigger] mem(pins@[sq], t) == (0 <= t < 64 && board.pin_ok(sq, t)),
            forall|sq: int| mem(pinned, sq) == board.pinned(sq),
        decreases it.0,
    {
        let ghost rest = it.0;
        let ghost old_pins = pins;
        let ghost old_pinned = pinned;
        match it.next() {
            None => {
                proof {
                    assert forall|sq: int, t: int| 0 <= sq < 64 implies #[trigger] mem(pins@[sq], t)
                        == (0 <= t < 64 && board.pin_ok(sq, t)) by {
                        assert forall|p: int| !mem(0u64, p) by {
                            lemma_mem_zero(p);
                        }
                        assert(board.pin_ok_but(0, sq, t) == board.pin_ok(sq, t));
                    }
                    assert forall|sq: int| mem(pinned, sq) == board.pinned(sq) by {
                        assert forall|p: int| !mem(0u64, p) by {
                            lemma_mem_zero(p);
                        }
                        assert(board.pinned_but(0, sq) == board.pinned(sq));
                    }
                }
                break ;
            },
            Some(p) => {
                let b = tables.between[king][p] & occ;
                let line = tables.line[king][p];
                proof {
                    assert forall|u: int|
                        mem(b, u) == (between_sq(king as int, p as int, u) && mem(occ, u)) by {
                        lemma_mem_and(tables.between[king as int][p as int], occ, u);
                        assert(mem(tables.between@[king as int]@[p as int], u) == between_sq(
                            king as int,
                            p as int,
                            u,
                        ));
                    }
                    assert forall|sq: int| true implies board.pinner(sq, p as int) == (b != 0 && (b & ((
                    b - 1) as u64)) == 0 && sq == b.trailing_zeros() && mem(own, sq)) by {
                        lemma_pin_of(*board, p as int, b, sq);
                    }
                }
                if b != 0 && b & (b - 1) == 0 && b & own != 0 {
                    let sq0 = b.trailing_zeros() as usize;
                    proof {
                        lemma_lowest(b);
                        lemma_single_member(b);
                        assert(mem(own, sq0 as int)) by {
                            lemma_empty_iff(b & own);
                            let w = choose|w: int| 0 <= w < 64 && mem(b & own, w);
                            lemma_mem_and(b, own, w);
                        }
                        assert(board.pinner(sq0 as int, p as int));
                    }
                    let masked = pins[sq0] & line;
                    pins[sq0] = masked;
                    pinned |= b;
                    proof {
                        assert forall|sq: int, t: int| 0 <= sq < 64 implies #[trigger] mem(
                            pins@[sq],
                            t,
                        ) == (0 <= t < 64 && board.pin_ok_but(it.0, sq, t)) by {
                            lemma_mem_and(old_pins@[sq0 as int], line, t);
                            assert(mem(tables.line@[king as int]@[p as int], t) == line_sq(
                                king as int,
                                p as int,
                                t,
                            ));
                            assert(mem(old_pins@[sq], t) == (0 <= t < 64 && board.pin_ok_but(
                                rest,
                                sq,
                                t,
                            )));
                            lemma_pin_step(*board, rest, it.0, p as int, sq, t);
                        }
                        assert forall|sq: int| mem(pinned, sq) == board.pinned_but(it.0, sq) by {
                            lemma_mem_or(old_pinned, b, sq);
                            assert(mem(b, sq) == (sq == sq0));
                            lemma_pinned_step(*board, rest, it.0, p as int, sq);
                        }
                    }
                } else {
                    proof {
                        assert forall|sq: int| !board.pinner(sq, p as int) by {
                            if b != 0 && b & ((b - 1) as u64) == 0 {
                                lemma_lowest(b);
                                lemma_empty_iff(b & own);
                                lemma_mem_and(b, own, b.trailing_zeros() as int);
                            }
                        }
                        assert forall|sq: int, t: int| 0 <= sq < 64 implies #[trigger] mem(
                            pins@[sq],
                            t,
                        ) == (0 <= t < 64 && board.pin_ok_but(it.0, sq, t)) by {
                            assert(mem(old_pins@[sq], t) == (0 <= t < 64 && board.pin_ok_but(
                                rest,
                                sq,
                                t,
                            )));
                            lemma_pin_step(*board, rest, it.0, p as int, sq, t);
                        }
                        assert forall|sq: int| mem(pinned, sq) == board.pinned_but(it.0, sq) by {
                            lemma_pinned_step(*board, rest, it.0, p as int, sq);
                        }
                    }
                }
            },
        }
    }
    (pins, pinned)
}

/// Taking one more slider into account narrows the mask by that slider's line, where it pins.
proof fn lemma_pin_step(board: Board, rest: u64, next: u64, p: int, sq: int, t: int)
    requires
        forall|u: int| mem(next, u) == (mem(rest, u) && u != p),
        mem(rest, p),
    ensures
        board.pin_ok_but(next, sq, t) == (board.pin_ok_but(rest, sq, t) && (board.pinner(sq, p)
            ==> line_sq(board.own_king(), p, t))),
{
    if board.pin_ok_but(next, sq, t) {
        assert forall|q: int| #[trigger] board.pinner(sq, q) && !mem(rest, q) implies line_sq(
            board.own_king(),
            q,
            t,
        ) by {
            assert(!mem(next, q));
        }
        if board.pinner(sq, p) {
            assert(!mem(next, p));
        }
    }
    if board.pin_ok_but(rest, sq, t) && (board.pinner(sq, p) ==> line_sq(board.own_king(), p, t)) {
        assert forall|q: int| #[trigger] board.pinner(sq, q) && !mem(next, q) implies line_sq(
            board.own_king(),
            q,
            t,
        ) by {
            if q != p {
                assert(!mem(rest, q));
            }
        }
    }
}

/// Taking one more slider into account adds what that slider pins.
proof fn lemma_pinned_step(board: Board, rest: u64, next: u64, p: int, sq: int)
    requires
        forall|u: int| mem(next, u) == (mem(rest, u) && u != p),
        mem(rest, p),
    ensures
        board.pinned_but(next, sq) == (board.pinned_but(rest, sq) || board.pinner(sq, p)),
{
    if board.pinned_but(next, sq) {
        let q = choose|q: int| #[trigger] board.pinner(sq, q) && !mem(next, q);
        if q != p {
            assert(board.pinner(sq, q) && !mem(rest, q));
        }
    }
    if board.pinned_but(rest, sq) {
        let q = choose|q: int| #[trigger] board.pinner(sq, q) && !mem(rest, q);
        assert(board.pinner(sq, q) && !mem(next, q));
    }
    if board.pinner(sq, p) {
        assert(board.pinner(sq, p) && !mem(next, p));
    }
}

/// What generation needs to know of a position before it looks at any piece.
pub struct Analysis {
    /// Square of the mover's king.
    pub king: usize,
    /// Squares the opponent attacks, the mover's king taken off the board.
    pub opponent_attacks: u64,
    /// Opposing pieces that attack the mover's king.
    pub checkers: u64,
    /// Squares to which a piece other than the king may move.
    pub check_mask: u64,
    /// For every square, the squares a piece standing on it may move to
    /// without leaving a pin.
    pub pin_masks: [u64; 64],
    /// Squares of the pinned pieces.
    pub pinned: u64,
}

impl Analysis {
    /// The analysis is that of `board`.
    pub open spec fn wf(self, board: Board) -> bool {
        &&& self.king < 64
        &&& self.king == board.own_king()
        &&& board.set_of(PieceType::King, board.turn) == bit(self.king as int)
        &&& forall|t: int| mem(self.opponent_attacks, t) == board.danger(t)
        &&& forall|s: int| mem(self.checkers, s) == board.checker(s)
        &&& forall|t: int| mem(self.check_mask, t) == (0 <= t < 64 && board.check_ok(t))
        &&& forall|sq: int, t: int|
            0 <= sq < 64 ==> #[trigger] mem(self.pin_masks@[sq], t) == (0 <= t < 64 && board.pin_ok(
                sq,
                t,
            ))
        &&& forall|sq: int| mem(self.pinned, sq) == board.pinned(sq)
    }
}

/// Analyses a position in one pass.
pub fn analyse(tables: &Tables, board: &Board) -> (info: Analysis)
    requires
        tables.wf(),
        board.valid(),
    ensures
        info.wf(*board),
{
    let us = board.turn;
    let them = us.opposite();
    let king = board.king_square(us);
    let occ = board.all_occupancy();
    let king_bb = board.pieces(PieceType::King, us);
    let opponent_attacks = attack_map(tables, &board.bitboard, them, occ & !king_bb);
    let checkers = attackers_of(tables, &board.bitboard, king, them, occ);
    let check_mask = check_mask_of(tables, board, king, checkers);
    let (pin_masks, pinned) = pins_of(tables, board, king);
    Analysis { king, opponent_attacks, checkers, check_mask, pin_masks, pinned }
}

} // verus!
