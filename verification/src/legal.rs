//! What a legal move is: attacks, checks, pins, and the moves each piece has.

use vstd::prelude::*;
use crate::bitboard::Bitboard;
use crate::bits::{bit, mem};
use crate::board::{Board, CASTLE_BK, CASTLE_BQ, CASTLE_WK, CASTLE_WQ, Color, PieceType};
use crate::magic::slide_hits;
use crate::moves::Move;
use crate::tables::{aligned_diagonal, aligned_straight, between_sq, king_step, knight_step, line_sq, pawn_step, rank_of};

verus! {

/// A piece of `color` standing on `s` attacks `t`, lines being blocked as
/// `occ` says.
pub open spec fn hits_from(b: Bitboard, color: Color, s: int, occ: u64, t: int) -> bool {
    let p = b.pieces@;
    let o = 6 * color.idx();
    ||| mem(p[o], s) && pawn_step(color, s, t)
    ||| mem(p[o + 1], s) && knight_step(s, t)
    ||| (mem(p[o + 2], s) || mem(p[o + 4], s)) && slide_hits(false, s, occ, t)
    ||| (mem(p[o + 3], s) || mem(p[o + 4], s)) && slide_hits(true, s, occ, t)
    ||| mem(p[o + 5], s) && king_step(s, t)
}

/// Some piece of `color` attacks `t`, lines being blocked as `occ` says.
pub open spec fn attacked(b: Bitboard, color: Color, occ: u64, t: int) -> bool {
    exists|s: int| hits_from(b, color, s, occ, t)
}

impl Board {
    /// The king of the side to move.
    pub open spec fn own_king(self) -> int {
        self.king_pos(self.turn)
    }

    /// The square is attacked by the opponent once the mover's king is
    /// taken off the board, so that sliders see through it.
    pub open spec fn danger(self, t: int) -> bool {
        attacked(
            self.bitboard,
            self.turn.other(),
            self.bitboard.all & !self.set_of(PieceType::King, self.turn),
            t,
        )
    }

    /// An opposing piece stands on `s` and attacks the mover's king.
    pub open spec fn checker(self, s: int) -> bool {
        hits_from(self.bitboard, self.turn.other(), s, self.bitboard.all, self.own_king())
    }

    /// The mover's king is attacked.
    pub open spec fn in_check(self) -> bool {
        exists|s: int| self.checker(s)
    }

    /// A move of a piece other than the king to `t` answers every check:
    /// there is none; or there is one, and `t` takes the checker or lies
    /// between it and the king.
    pub open spec fn check_ok(self, t: int) -> bool {
        ||| !self.in_check()
        ||| exists|c: int|
            {
                &&& #[trigger] self.checker(c)
                &&& forall|s: int| self.checker(s) ==> s == c
                &&& (t == c || between_sq(self.own_king(), c, t))
            }
    }

    /// The opposing slider on `p` pins the mover's piece on `sq` to the king:
    /// king and slider share a line the slider moves along, and `sq` is the
    /// one occupied square between them.
    pub open spec fn pinner(self, sq: int, p: int) -> bool {
        let k = self.own_king();
        let them = self.turn.other();
        &&& mem(self.side(self.turn), sq)
        &&& between_sq(k, p, sq)
        &&& forall|u: int| #[trigger] between_sq(k, p, u) && u != sq ==> !mem(self.bitboard.all, u)
        &&& {
            ||| aligned_diagonal(k, p) && (mem(self.set_of(PieceType::Bishop, them), p) || mem(
                self.set_of(PieceType::Queen, them),
                p,
            ))
            ||| aligned_straight(k, p) && (mem(self.set_of(PieceType::Rook, them), p) || mem(
                self.set_of(PieceType::Queen, them),
                p,
            ))
        }
    }

    /// The piece on `sq` is pinned.
    pub open spec fn pinned(self, sq: int) -> bool {
        exists|p: int| self.pinner(sq, p)
    }

    /// A move from `sq` to `t` stays on the line of every pin of `sq`.
    pub open spec fn pin_ok(self, sq: int, t: int) -> bool {
        forall|p: int| #[trigger] self.pinner(sq, p) ==> line_sq(self.own_king(), p, t)
    }

    /// Index step of a pawn of the side to move: 8 for White, -8 for Black.
    pub open spec fn forward(self) -> int {
        match self.turn {
            Color::White => 8,
            Color::Black => -8,
        }
    }

    /// Rank from which the mover's pawns may push twice.
    pub open spec fn start_rank(self) -> int {
        match self.turn {
            Color::White => 1,
            Color::Black => 6,
        }
    }

    /// Rank on which the mover's pawns promote.
    pub open spec fn last_rank(self) -> int {
        match self.turn {
            Color::White => 7,
            Color::Black => 0,
        }
    }

    /// Home square of the mover's king.
    pub open spec fn home(self) -> int {
        match self.turn {
            Color::White => 4,
            Color::Black => 60,
        }
    }

    /// Flag of a plain move to `t`: capture when an opposing piece stands there.
    pub open spec fn plain_flag(self, t: int) -> int {
        if mem(self.side(self.turn.other()), t) {
            4
        } else {
            0
        }
    }

    /// The king may step to `t`.
    pub open spec fn king_move(self, t: int) -> bool {
        &&& king_step(self.own_king(), t)
        &&& !mem(self.side(self.turn), t)
        &&& !self.danger(t)
    }

    /// The mover holds the king-side (`true`) or queen-side castling right.
    pub open spec fn castle_right(self, king_side: bool) -> bool {
        match self.turn {
            Color::White => self.castling.holds(
                if king_side {
                    CASTLE_WK
                } else {
                    CASTLE_WQ
                },
            ),
            Color::Black => self.castling.holds(
                if king_side {
                    CASTLE_BK
                } else {
                    CASTLE_BQ
                },
            ),
        }
    }

    /// The mover may castle king side: the right is held, the king is not in
    /// check, the two squares between king and rook are free, and neither is
    /// attacked.
    pub open spec fn castle_ks(self) -> bool {
        let h = self.home();
        &&& self.castle_right(true)
        &&& !self.in_check()
        &&& !mem(self.bitboard.all, h + 1)
        &&& !mem(self.bitboard.all, h + 2)
        &&& !self.danger(h + 1)
        &&& !self.danger(h + 2)
    }

    /// The mover may castle queen side: the right is held, the king is not in
    /// check, the three squares between king and rook are free, and the two
    /// the king crosses are not attacked.
    pub open spec fn castle_qs(self) -> bool {
        let h = self.home();
        &&& self.castle_right(false)
        &&& !self.in_check()
        &&& !mem(self.bitboard.all, h - 1)
        &&& !mem(self.bitboard.all, h - 2)
        &&& !mem(self.bitboard.all, h - 3)
        &&& !self.danger(h - 1)
        &&& !self.danger(h - 2)
    }

    /// A knight on `s` may move to `t`.
    pub open spec fn knight_move(self, s: int, t: int) -> bool {
        &&& knight_step(s, t)
        &&& !self.pinned(s)
        &&& !mem(self.side(self.turn), t)
        &&& self.check_ok(t)
    }

    /// A slider on `s` may move to `t`, along files and ranks (`straight`)
    /// or along diagonals.
    pub open spec fn slider_move(self, straight: bool, s: int, t: int) -> bool {
        &&& slide_hits(straight, s, self.bitboard.all, t)
        &&& !mem(self.side(self.turn), t)
        &&& self.check_ok(t)
        &&& self.pin_ok(s, t)
    }

    /// A pawn on `s` may push one square to `t`.
    pub open spec fn pawn_push(self, s: int, t: int) -> bool {
        &&& 0 <= t < 64
        &&& t == s + self.forward()
        &&& !mem(self.bitboard.all, t)
        &&& self.check_ok(t)
        &&& self.pin_ok(s, t)
    }

    /// A pawn on `s` may push two squares to `t`.
    pub open spec fn pawn_double(self, s: int, t: int) -> bool {
        &&& 0 <= t < 64
        &&& rank_of(s) == self.start_rank()
        &&& t == s + 2 * self.forward()
        &&& !mem(self.bitboard.all, s + self.forward())
        &&& !mem(self.bitboard.all, t)
        &&& self.check_ok(t)
        &&& self.pin_ok(s, t)
    }

    /// A pawn on `s` may capture on `t`.
    pub open spec fn pawn_capture(self, s: int, t: int) -> bool {
        &&& pawn_step(self.turn, s, t)
        &&& mem(self.side(self.turn.other()), t)
        &&& self.check_ok(t)
        &&& self.pin_ok(s, t)
    }

    /// After an en-passant capture from `s` to `t`, with both pawns gone from
    /// their squares and the capturer standing on `t`, an opposing rook or
    /// queen attacks the mover's king along the king's rank.
    pub open spec fn ep_exposes(self, s: int, t: int) -> bool {
        let k = self.own_king();
        let them = self.turn.other();
        let after = (self.bitboard.all & !bit(s) & !bit(t - self.forward())) | bit(t);
        exists|r: int|
            {
                &&& #[trigger] slide_hits(true, k, after, r)
                &&& rank_of(r) == rank_of(k)
                &&& (mem(self.set_of(PieceType::Rook, them), r) || mem(
                    self.set_of(PieceType::Queen, them),
                    r,
                ))
            }
    }

    /// A pawn on `s` may capture en passant, landing on `t`: `t` is the
    /// en-passant target, the pawn attacks it, the move respects the pawn's
    /// pin, it answers a check by landing on `t` or by taking the checking
    /// pawn, and it does not open the king's rank.
    pub open spec fn pawn_ep(self, s: int, t: int) -> bool {
        &&& self.en_passant is Some
        &&& t == self.ep_pos()
        &&& pawn_step(self.turn, s, t)
        &&& self.pin_ok(s, t)
        &&& (self.check_ok(t) || self.check_ok(t - self.forward()))
        &&& !self.ep_exposes(s, t)
    }

    /// Flag of a pawn move to `t` that is not a double push or en passant:
    /// on the last rank one of the four promotions, with or without capture.
    pub open spec fn pawn_flag_ok(self, t: int, capture: bool, f: int) -> bool {
        let base: int = if capture {
            4
        } else {
            0
        };
        if rank_of(t) == self.last_rank() {
            8 + base <= f <= 11 + base
        } else {
            f == base
        }
    }

    /// `m` is a legal move of the king: a step, or a castling move from the
    /// home square.
    pub open spec fn king_legal(self, m: Move) -> bool {
        let s = m.src();
        let t = m.dst();
        let f = m.flag();
        &&& mem(self.set_of(PieceType::King, self.turn), s)
        &&& {
            ||| self.king_move(t) && f == self.plain_flag(t)
            ||| s == self.home() && t == s + 2 && f == 2 && self.castle_ks()
            ||| s == self.home() && t == s - 2 && f == 3 && self.castle_qs()
        }
    }

    /// `m` is a legal move of a knight.
    pub open spec fn knight_legal(self, m: Move) -> bool {
        &&& mem(self.set_of(PieceType::Knight, self.turn), m.src())
        &&& self.knight_move(m.src(), m.dst())
        &&& m.flag() == self.plain_flag(m.dst())
    }

    /// `m` is a legal move of a piece of `set` that slides along diagonals
    /// (`diagonal`), along files and ranks (`straight`), or both.
    pub open spec fn slider_legal(self, set: u64, diagonal: bool, straight: bool, m: Move) -> bool {
        &&& mem(set, m.src())
        &&& ((diagonal && self.slider_move(false, m.src(), m.dst())) || (straight
            && self.slider_move(true, m.src(), m.dst())))
        &&& m.flag() == self.plain_flag(m.dst())
    }

    /// `m` is a legal move of a pawn.
    pub open spec fn pawn_legal(self, m: Move) -> bool {
        let s = m.src();
        let t = m.dst();
        let f = m.flag();
        &&& mem(self.set_of(PieceType::Pawn, self.turn), s)
        &&& {
            ||| self.pawn_push(s, t) && self.pawn_flag_ok(t, false, f)
            ||| self.pawn_double(s, t) && f == 1
            ||| self.pawn_capture(s, t) && self.pawn_flag_ok(t, true, f)
            ||| self.pawn_ep(s, t) && f == 5
        }
    }

    /// `m` moves the king as a king moves: one step to a square that its own
    /// side does not hold, or a castling move as `king_legal` has it.
    pub open spec fn king_pseudo(self, m: Move) -> bool {
        let s = m.src();
        let t = m.dst();
        let f = m.flag();
        &&& mem(self.set_of(PieceType::King, self.turn), s)
        &&& {
            ||| king_step(self.own_king(), t) && !mem(self.side(self.turn), t) && f
                == self.plain_flag(t)
            ||| s == self.home() && t == s + 2 && f == 2 && self.castle_ks()
            ||| s == self.home() && t == s - 2 && f == 3 && self.castle_qs()
        }
    }

    /// `m` moves a knight as a knight moves.
    pub open spec fn knight_pseudo(self, m: Move) -> bool {
        &&& mem(self.set_of(PieceType::Knight, self.turn), m.src())
        &&& knight_step(m.src(), m.dst())
        &&& !mem(self.side(self.turn), m.dst())
        &&& m.flag() == self.plain_flag(m.dst())
    }

    /// `m` moves a piece of `set` as a slider moves.
    pub open spec fn slider_pseudo(self, set: u64, diagonal: bool, straight: bool, m: Move) -> bool {
        &&& mem(set, m.src())
        &&& ((diagonal && slide_hits(false, m.src(), self.bitboard.all, m.dst())) || (straight
            && slide_hits(true, m.src(), self.bitboard.all, m.dst())))
        &&& !mem(self.side(self.turn), m.dst())
        &&& m.flag() == self.plain_flag(m.dst())
    }

    /// `m` moves a pawn as a pawn moves: one square ahead to a free square;
    /// two from its starting rank over free squares; one square ahead and
    /// aside onto an opposing piece, or onto the en-passant target.
    pub open spec fn pawn_pseudo(self, m: Move) -> bool {
        let s = m.src();
        let t = m.dst();
        let f = m.flag();
        &&& mem(self.set_of(PieceType::Pawn, self.turn), s)
        &&& {
            ||| 0 <= t < 64 && t == s + self.forward() && !mem(self.bitboard.all, t)
                && self.pawn_flag_ok(t, false, f)
            ||| 0 <= t < 64 && rank_of(s) == self.start_rank() && t == s + 2 * self.forward()
                && !mem(self.bitboard.all, s + self.forward()) && !mem(self.bitboard.all, t) && f
                == 1
            ||| pawn_step(self.turn, s, t) && mem(self.side(self.turn.other()), t)
                && self.pawn_flag_ok(t, true, f)
            ||| self.en_passant is Some && t == self.ep_pos() && pawn_step(self.turn, s, t) && f
                == 5
        }
    }

    /// `m` moves a piece of the side to move as the rules of its kind
    /// allow, whatever becomes of the mover's king.
    pub open spec fn pseudo(self, m: Move) -> bool {
        let us = self.turn;
        ||| self.king_pseudo(m)
        ||| self.pawn_pseudo(m)
        ||| self.knight_pseudo(m)
        ||| self.slider_pseudo(self.set_of(PieceType::Bishop, us), true, false, m)
        ||| self.slider_pseudo(self.set_of(PieceType::Rook, us), false, true, m)
        ||| self.slider_pseudo(self.set_of(PieceType::Queen, us), true, true, m)
    }

    /// `m` is a legal move of the position.
    pub open spec fn legal(self, m: Move) -> bool {
        let us = self.turn;
        ||| self.king_legal(m)
        ||| self.pawn_legal(m)
        ||| self.knight_legal(m)
        ||| self.slider_legal(self.set_of(PieceType::Bishop, us), true, false, m)
        ||| self.slider_legal(self.set_of(PieceType::Rook, us), false, true, m)
        ||| self.slider_legal(self.set_of(PieceType::Queen, us), true, true, m)
    }
}

} // verus!
