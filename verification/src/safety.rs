//! A legal move leaves the mover's king out of check.

use vstd::prelude::*;
use crate::bitboard::{cleared, index_of, lemma_cleared, lemma_occupancy, lemma_occupant, lemma_placed, lemma_updates_disjoint, piece_of, placed, sets_disjoint};
use crate::bits::{bit, lemma_ext, lemma_mem_and, lemma_mem_bit, lemma_mem_not, lemma_mem_or, mem};
use crate::board::{Board, Color, lemma_single, PieceType, Square};
use crate::legal::{attacked, hits_from};
use crate::magic::{slide_hits};
use crate::movegen::lemma_kinds_apart;
use crate::moves::{lemma_pack_unpack, Move};
use crate::tables::{aligned_diagonal, aligned_straight, between_sq, dist, file_of, king_step, knight_step, line_sq, pawn_step, rank_of, scale, sign_of, steps};
use crate::transition::placed_kind;

verus! {

impl Board {
    /// Set `j` holds square `x` once `m` has been played.
    pub open spec fn holds_after(self, m: Move, j: int, x: int) -> bool {
        let s = m.src();
        let t = m.dst();
        let f = m.flag();
        let piece = self.mover(m)->Some_0;
        let base = if x == t {
            j == index_of(placed_kind(piece.0, f), piece.1)
        } else if x == s || (f == 5 && x == t - self.forward()) {
            false
        } else {
            mem(self.bitboard.pieces@[j], x)
        };
        if f == 2 || f == 3 {
            let (a, b) = self.rook_path(f);
            if x == b {
                j == index_of(PieceType::Rook, self.turn)
            } else if x == a {
                false
            } else {
                base
            }
        } else {
            base
        }
    }
}

/// What the piece sets hold after a move, square by square.
pub proof fn lemma_moved_sets(board: Board, m: Move)
    requires
        board.bitboard.disjoint(),
        board.applicable(m),
    ensures
        board.moved_sets(m).len() == 12,
        sets_disjoint(board.moved_sets(m)),
        forall|j: int, x: int|
            0 <= j < 12 ==> #[trigger] mem(board.moved_sets(m)[j], x) == board.holds_after(m, j, x),
{
    lemma_pack_unpack(0, 0, 0, m);
    let s = m.src();
    let t = m.dst();
    let f = m.flag();
    let piece = board.mover(m)->Some_0;
    let idx = index_of(placed_kind(piece.0, f), piece.1);
    let p0 = board.bitboard.pieces@;
    let p1 = cleared(p0, bit(s));
    lemma_updates_disjoint(p0, s, 0);
    assert forall|j: int, x: int| 0 <= j < 12 implies #[trigger] mem(p1[j], x) == (mem(p0[j], x) && x
        != s) by {
        lemma_cleared(p0, s, j, x);
    }
    let p2 = if f == 4 || f >= 12 {
        cleared(p1, bit(t))
    } else {
        p1
    };
    lemma_cleared(p0, s, 0, 0);
    lemma_updates_disjoint(p1, t, 0);
    assert forall|j: int, x: int| 0 <= j < 12 implies #[trigger] mem(p2[j], x) == (mem(p1[j], x) && !(
    (f == 4 || f >= 12) && x == t)) by {
        lemma_cleared(p1, t, j, x);
    }
    lemma_cleared(p1, t, 0, 0);
    let cap = t - board.forward();
    let p3 = if f == 5 {
        cleared(p2, bit(cap))
    } else {
        p2
    };
    if f == 5 {
        lemma_updates_disjoint(p2, cap, 0);
        lemma_cleared(p2, cap, 0, 0);
    }
    assert forall|j: int, x: int| 0 <= j < 12 implies #[trigger] mem(p3[j], x) == (mem(p2[j], x) && !(f
        == 5 && x == cap)) by {
        if f == 5 {
            lemma_cleared(p2, cap, j, x);
        }
    }
    let p4 = placed(p3, bit(t), idx);
    lemma_updates_disjoint(p3, t, idx);
    lemma_placed(p3, t, idx, 0, 0);
    assert forall|j: int, x: int| 0 <= j < 12 implies #[trigger] mem(p4[j], x) == (if x == t {
        j == idx
    } else {
        mem(p3[j], x)
    }) by {
        lemma_placed(p3, t, idx, j, x);
    }
    if f == 2 || f == 3 {
        let (a, b) = board.rook_path(f);
        let ri = index_of(PieceType::Rook, board.turn);
        let p5 = cleared(p4, bit(a));
        lemma_updates_disjoint(p4, a, 0);
        lemma_cleared(p4, a, 0, 0);
        let p6 = placed(p5, bit(b), ri);
        lemma_updates_disjoint(p5, b, ri);
        lemma_placed(p5, b, ri, 0, 0);
        assert forall|j: int, x: int| 0 <= j < 12 implies #[trigger] mem(p6[j], x) == board.holds_after(
            m,
            j,
            x,
        ) by {
            lemma_cleared(p4, a, j, x);
            lemma_placed(p5, b, ri, j, x);
        }
    } else {
        assert forall|j: int, x: int| 0 <= j < 12 implies #[trigger] mem(p4[j], x) == board.holds_after(
            m,
            j,
            x,
        ) by {
        }
    }
}

impl Board {
    /// Square `x` is occupied once `m` has been played.
    pub open spec fn occupied_after(self, m: Move, x: int) -> bool {
        let s = m.src();
        let t = m.dst();
        let f = m.flag();
        if f == 2 || f == 3 {
            let (a, b) = self.rook_path(f);
            x == t || x == b || (x != s && x != a && mem(self.bitboard.all, x))
        } else {
            x == t || (x != s && !(f == 5 && x == t - self.forward()) && mem(self.bitboard.all, x))
        }
    }
}

/// What a move is made of: the mover is a piece of the side to move, the
/// destination is not its own side's; only the king castles; only a king
/// move starts from the king's square.
pub proof fn lemma_move_shape(board: Board, m: Move)
    requires
        board.valid(),
        board.pseudo(m),
    ensures
        board.applicable(m),
        0 <= m.src() < 64,
        0 <= m.dst() < 64,
        m.src() != m.dst(),
        board.mover(m) is Some,
        board.mover(m)->Some_0.1 == board.turn,
        board.bitboard.occupant(m.src()) == board.mover(m),
        mem(board.side(board.turn), m.src()),
        !mem(board.side(board.turn), m.dst()),
        board.king_pseudo(m) <==> board.mover(m)->Some_0.0 == PieceType::King,
        board.king_pseudo(m) <==> m.src() == board.own_king(),
        board.pawn_pseudo(m) <==> board.mover(m)->Some_0.0 == PieceType::Pawn,
        board.knight_pseudo(m) <==> board.mover(m)->Some_0.0 == PieceType::Knight,
        m.flag() == 2 || m.flag() == 3 ==> board.king_pseudo(m),
        m.flag() == 5 ==> board.pawn_pseudo(m) && board.en_passant is Some && m.dst()
            == board.ep_pos() && pawn_step(board.turn, m.src(), m.dst()),
        m.flag() >= 8 ==> board.pawn_pseudo(m),
        0 <= board.own_king() < 64,
        mem(board.set_of(PieceType::King, board.turn), board.own_king()),
{
    lemma_pack_unpack(0, 0, 0, m);
    let s = m.src();
    let t = m.dst();
    let us = board.turn;
    lemma_occupant(board.bitboard, s);
    lemma_occupancy(board.bitboard, s);
    lemma_occupancy(board.bitboard, t);
    lemma_kinds_apart(board);
    let kings = board.set_of(PieceType::King, us);
    vstd::std_specs::bits::axiom_u64_trailing_zeros(kings);
    lemma_mem_bit(board.own_king(), s);
    lemma_mem_bit(board.own_king(), board.own_king());
    assert(forall|k: PieceType| #[trigger]
        mem(board.set_of(k, us), s) ==> board.bitboard.occupant(s) == Some(
            piece_of(index_of(k, us)),
        ));
    if board.pawn_pseudo(m) {
        if board.en_passant is Some && t == board.ep_pos() {
            assert(!mem(board.bitboard.all, t));
        }
    }
}

/// A legal move moves its piece as the rules of the piece's kind allow.
pub proof fn lemma_legal_is_pseudo(board: Board, m: Move)
    requires
        board.valid(),
        board.legal(m),
    ensures
        board.pseudo(m),
        board.king_legal(m) == board.king_pseudo(m),
        board.pawn_legal(m) == board.pawn_pseudo(m),
        board.knight_legal(m) == board.knight_pseudo(m),
        m.flag() == 5 ==> board.pawn_ep(m.src(), m.dst()),
{
    lemma_pack_unpack(0, 0, 0, m);
    lemma_kinds_apart(board);
    let kings = board.set_of(PieceType::King, board.turn);
    vstd::std_specs::bits::axiom_u64_trailing_zeros(kings);
    lemma_mem_bit(board.own_king(), m.src());
}

/// The position after a move, square by square: which squares are
/// occupied, where the opponent's pieces stand, and where the mover's king is.
pub proof fn lemma_position_after(board: Board, m: Move, r: Board, x: int)
    requires
        board.valid(),
        board.pseudo(m),
        board.arrives(m, r),
        0 <= x < 64,
    ensures
        r.bitboard.wf(),
        mem(r.bitboard.all, x) == board.occupied_after(m, x),
        forall|j: int|
            6 * board.turn.other().idx() <= j < 6 * board.turn.other().idx() + 6 ==> (#[trigger] mem(
                r.bitboard.pieces@[j],
                x,
            ) == (mem(board.bitboard.pieces@[j], x) && x != m.dst() && !(m.flag() == 5 && x
                == m.dst() - board.forward()))),
        mem(r.set_of(PieceType::King, board.turn), x) == (if board.king_pseudo(m) {
            x == m.dst()
        } else {
            x == board.own_king()
        }),
{
    lemma_move_shape(board, m);
    lemma_moved_sets(board, m);
    let s = m.src();
    let t = m.dst();
    let f = m.flag();
    let us = board.turn;
    let them = us.other();
    let piece = board.mover(m)->Some_0;
    let idx = index_of(placed_kind(piece.0, f), piece.1);
    lemma_occupant(r.bitboard, x);
    lemma_occupancy(r.bitboard, x);
    lemma_occupant(board.bitboard, x);
    lemma_occupancy(board.bitboard, x);
    lemma_occupant(board.bitboard, s);
    lemma_occupancy(board.bitboard, s);
    lemma_mem_bit(board.own_king(), x);
    vstd::std_specs::bits::axiom_u64_trailing_zeros(board.set_of(PieceType::King, us));
    assert forall|j: int| 0 <= j < 12 implies #[trigger] mem(r.bitboard.pieces@[j], x) == board.holds_after(
        m,
        j,
        x,
    ) by {
    }
    assert(0 <= idx < 12);
    if f == 2 || f == 3 {
        let (a, b) = board.rook_path(f);
        assert(board.castle_ks() || board.castle_qs());
        assert(s == board.home());
        lemma_occupant(board.bitboard, a);
        lemma_occupancy(board.bitboard, a);
        lemma_occupant(board.bitboard, b);
        lemma_occupancy(board.bitboard, b);
        lemma_occupant(board.bitboard, t);
        lemma_occupancy(board.bitboard, t);
        assert(mem(board.set_of(PieceType::Rook, us), a));
    }
    if x == t {
        assert(mem(r.bitboard.pieces@[idx], x));
    }
    if mem(board.bitboard.all, x) {
        let p = board.bitboard.occupant(x)->Some_0;
        let j = index_of(p.0, p.1);
        assert(piece_of(j) == p);
        assert(mem(board.bitboard.pieces@[j], x));
    }
}

/// On the line through `k` and `e`, a square other than the two ends and
/// outside the stretch between them has `k` or `e` between it and any
/// square of the stretch.
pub proof fn lemma_beyond(k: int, e: int, s: int, t: int)
    requires
        between_sq(k, e, s),
        line_sq(k, e, t),
        t != k,
        t != e,
        !between_sq(k, e, t),
    ensures
        between_sq(s, t, e) || between_sq(s, t, k),
        aligned_straight(s, t) == aligned_straight(k, e),
        aligned_diagonal(s, t) == aligned_diagonal(k, e),
{
}

/// On the line through `k` and `e`, a neighbour of a square between them is
/// between them too, or is one of the two.
pub proof fn lemma_neighbour(k: int, e: int, s: int, t: int)
    requires
        between_sq(k, e, s),
        line_sq(k, e, t),
        king_step(s, t),
    ensures
        t == k || t == e || between_sq(k, e, t),
{
}

/// A square of the line through `k` and `e` that lies two ranks from a
/// square between them, on the same file: the line is that file.
pub proof fn lemma_two_ahead(k: int, e: int, s: int, t: int)
    requires
        between_sq(k, e, s),
        line_sq(k, e, t),
        t == s + 16 || t == s - 16,
    ensures
        line_sq(k, e, (s + t) / 2),
        king_step(s, (s + t) / 2),
        king_step((s + t) / 2, t),
{
    let df = sign_of(file_of(e) - file_of(k));
    let dr = sign_of(rank_of(e) - rank_of(k));
    let mid = (s + t) / 2;
    assert(0 <= t < 64 && 0 <= s < 64);
    assert(file_of(t) == file_of(s));
    assert(rank_of(t) == rank_of(s) + 2 || rank_of(t) == rank_of(s) - 2);
    assert(mid == s + 8 || mid == s - 8);
    assert(file_of(mid) == file_of(s));
    assert(rank_of(mid) == rank_of(s) + 1 || rank_of(mid) == rank_of(s) - 1);
    assert(file_of(s) - file_of(k) == scale(steps(k, s), df));
    assert(rank_of(s) - rank_of(k) == scale(steps(k, s), dr));
    if df != 0 {
        assert(steps(k, s) == dist(file_of(k), file_of(s)));
        assert(steps(k, t) >= dist(file_of(k), file_of(t)));
        assert(false);
    }
    assert(file_of(k) == file_of(s));
    assert(dr != 0);
}

/// Squares a pawn, knight or king step apart have nothing between them.
pub proof fn lemma_no_gap(c: Color, e: int, k: int, t: int)
    requires
        pawn_step(c, e, k) || knight_step(e, k) || king_step(e, k),
    ensures
        !between_sq(k, e, t),
        !between_sq(e, k, t),
{
}

/// No line to a castling king's destination runs through the rook's corner.
pub proof fn lemma_corner(e: int)
    ensures
        !between_sq(e, 6, 7),
        !between_sq(e, 2, 0),
        !between_sq(e, 62, 63),
        !between_sq(e, 58, 56),
        !between_sq(e, 5, 7),
        !between_sq(e, 3, 0),
        !between_sq(e, 61, 63),
        !between_sq(e, 59, 56),
{
}

/// A stretch between two squares looks the same from both ends, and lies
/// on the line through them.
pub proof fn lemma_stretch(a: int, b: int, u: int)
    ensures
        between_sq(a, b, u) == between_sq(b, a, u),
        between_sq(a, b, u) ==> line_sq(a, b, u) && u != a && u != b && 0 <= u < 64,
        aligned_straight(a, b) == aligned_straight(b, a),
        aligned_diagonal(a, b) == aligned_diagonal(b, a),
{
}

impl Board {
    /// An opposing piece on `e` that slides along files and ranks
    /// (`straight`) or along diagonals.
    pub open spec fn enemy_slider(self, straight: bool, e: int) -> bool {
        let them = self.turn.other();
        if straight {
            mem(self.set_of(PieceType::Rook, them), e) || mem(self.set_of(PieceType::Queen, them), e)
        } else {
            mem(self.set_of(PieceType::Bishop, them), e) || mem(
                self.set_of(PieceType::Queen, them),
                e,
            )
        }
    }
}

/// A square in one of the piece sets is in its colour's union and in the
/// overall union.
pub proof fn lemma_occupied(board: Board, x: int)
    requires
        board.bitboard.wf(),
    ensures
        forall|j: int|
            0 <= j < 12 && #[trigger] mem(board.bitboard.pieces@[j], x) ==> mem(board.bitboard.all, x)
                && mem(
                board.side(
                    if j < 6 {
                        Color::White
                    } else {
                        Color::Black
                    },
                ),
                x,
            ),
{
    if 0 <= x < 64 {
        lemma_occupant(board.bitboard, x);
        lemma_occupancy(board.bitboard, x);
    }
}

/// Which squares are occupied after a move.
pub proof fn lemma_rest_stays(board: Board, m: Move, r: Board)
    requires
        board.valid(),
        board.pseudo(m),
        board.arrives(m, r),
    ensures
        forall|x: int| 0 <= x < 64 ==> #[trigger] mem(r.bitboard.all, x) == board.occupied_after(m, x),
        forall|x: int| !(0 <= x < 64) ==> !mem(r.bitboard.all, x) && !mem(board.bitboard.all, x),
{
    assert forall|x: int| 0 <= x < 64 implies #[trigger] mem(r.bitboard.all, x) == board.occupied_after(
        m,
        x,
    ) by {
        lemma_position_after(board, m, r, x);
    }
}

/// A pinned piece that moves legally lands between its king and the
/// pinning slider, or takes the slider.
pub proof fn lemma_pinned_move(board: Board, m: Move, e: int)
    requires
        board.valid(),
        board.legal(m),
        !board.king_legal(m),
        m.flag() != 5,
        board.pinner(m.src(), e),
    ensures
        between_sq(board.own_king(), e, m.dst()) || m.dst() == e,
{
    let k = board.own_king();
    let s = m.src();
    let t = m.dst();
    let us = board.turn;
    let occ = board.bitboard.all;
    lemma_legal_is_pseudo(board, m);
    lemma_move_shape(board, m);
    lemma_occupied(board, k);
    lemma_occupied(board, e);
    assert(mem(occ, k) && mem(board.side(us), k));
    assert(mem(occ, e));
    assert(board.pinned(s));
    assert(!board.knight_legal(m));
    assert(board.pin_ok(s, t));
    assert(line_sq(k, e, t));
    assert(t != k);
    if board.pawn_legal(m) {
        if board.pawn_double(s, t) && m.flag() == 1 {
            let mid = (s + t) / 2;
            lemma_two_ahead(k, e, s, t);
            lemma_neighbour(k, e, s, mid);
            assert(mid == s + board.forward());
            lemma_neighbour(k, e, mid, t);
        } else {
            lemma_neighbour(k, e, s, t);
        }
    } else {
        if !between_sq(k, e, t) && t != e {
            lemma_beyond(k, e, s, t);
            let sm = if board.slider_move(false, s, t) {
                false
            } else {
                true
            };
            assert(slide_hits(sm, s, occ, t));
            assert(false);
        }
    }
}

/// A legal move of a piece other than the king answers a check: it lands
/// between the king and the checker, or takes the checker.
pub proof fn lemma_answers_check(board: Board, m: Move, e: int)
    requires
        board.valid(),
        board.legal(m),
        !board.king_legal(m),
        m.flag() != 5,
        board.checker(e),
    ensures
        between_sq(board.own_king(), e, m.dst()) || m.dst() == e,
{
    let t = m.dst();
    let k = board.own_king();
    assert(board.in_check());
    assert(board.check_ok(t));
    let c = choose|c: int|
        {
            &&& #[trigger] board.checker(c)
            &&& forall|x: int| board.checker(x) ==> x == c
            &&& (t == c || between_sq(k, c, t))
        };
    assert(c == e);
}

/// After a legal move of a piece other than the king, en passant apart,
/// no opposing piece attacks the mover's king.
pub proof fn lemma_piece_move_safe(board: Board, m: Move, r: Board, e: int)
    requires
        board.valid(),
        board.legal(m),
        !board.king_legal(m),
        m.flag() != 5,
        board.arrives(m, r),
    ensures
        !hits_from(r.bitboard, board.turn.other(), e, r.bitboard.all, board.own_king()),
{
    let k = board.own_king();
    let s = m.src();
    let t = m.dst();
    let us = board.turn;
    let them = us.other();
    let occ = board.bitboard.all;
    let occ2 = r.bitboard.all;
    if hits_from(r.bitboard, them, e, occ2, k) {
        lemma_legal_is_pseudo(board, m);
        lemma_move_shape(board, m);
        lemma_rest_stays(board, m, r);
        assert(0 <= e < 64);
        lemma_position_after(board, m, r, e);
        assert(e != t);
        let o = 6 * them.idx();
        let leaper = (mem(board.bitboard.pieces@[o], e) && pawn_step(them, e, k)) || (mem(
            board.bitboard.pieces@[o + 1],
            e,
        ) && knight_step(e, k)) || (mem(board.bitboard.pieces@[o + 5], e) && king_step(e, k));
        let diagonal = board.enemy_slider(false, e) && slide_hits(false, e, occ2, k);
        let straight = board.enemy_slider(true, e) && slide_hits(true, e, occ2, k);
        assert(leaper || diagonal || straight);
        assert(mem(occ2, t));
        if !board.checker(e) {
            let st = straight;
            assert(board.enemy_slider(st, e) && slide_hits(st, e, occ2, k));
            lemma_uncovered_on_line(board, st, e, occ2, s);
            lemma_pinned_move(board, m, e);
        } else {
            lemma_answers_check(board, m, e);
        }
        assert(between_sq(k, e, t));
        lemma_stretch(e, k, t);
        if leaper {
            lemma_no_gap(them, e, k, t);
        }
        assert(false);
    }
}

/// After a legal move of the king, castling included, no opposing piece
/// attacks the square the king has moved to.
pub proof fn lemma_king_move_safe(board: Board, m: Move, r: Board, e: int)
    requires
        board.valid(),
        board.legal(m),
        board.king_legal(m),
        board.arrives(m, r),
    ensures
        !hits_from(r.bitboard, board.turn.other(), e, r.bitboard.all, m.dst()),
{
    let k = board.own_king();
    let s = m.src();
    let t = m.dst();
    let f = m.flag();
    let us = board.turn;
    let them = us.other();
    let occ = board.bitboard.all;
    let occ2 = r.bitboard.all;
    let seen = occ & !board.set_of(PieceType::King, us);
    if hits_from(r.bitboard, them, e, occ2, t) {
        lemma_legal_is_pseudo(board, m);
        lemma_move_shape(board, m);
        lemma_rest_stays(board, m, r);
        assert(0 <= e < 64);
        lemma_position_after(board, m, r, e);
        assert(s == k);
        assert(!board.danger(t));
        // The same piece attacked the square before, the king being seen through.
        assert forall|st: bool| slide_hits(st, e, occ2, t) implies slide_hits(st, e, seen, t) by {
            assert forall|u: int| #[trigger] between_sq(e, t, u) implies !mem(seen, u) by {
                lemma_stretch(e, t, u);
                lemma_mem_and(occ, !board.set_of(PieceType::King, us), u);
                lemma_mem_not(board.set_of(PieceType::King, us), u);
                lemma_mem_bit(k, u);
                vstd::std_specs::bits::axiom_u64_trailing_zeros(board.set_of(PieceType::King, us));
                if mem(seen, u) {
                    assert(mem(occ, u) && u != k);
                    if f == 2 || f == 3 {
                        lemma_corner(e);
                        assert(board.castle_ks() || board.castle_qs());
                    }
                    assert(board.occupied_after(m, u));
                    assert(mem(occ2, u));
                }
            }
        }
        assert(hits_from(board.bitboard, them, e, seen, t));
        assert(attacked(board.bitboard, them, seen, t));
        assert(false);
    }
}

impl Board {
    /// The pawn that has just made a double push does not stand alone
    /// between the mover's king and an opposing bishop or queen on a
    /// diagonal of the king.
    pub open spec fn ep_unshielded(self) -> bool {
        let k = self.own_king();
        let cap = self.ep_pos() - self.forward();
        forall|e: int|
            self.enemy_slider(false, e) && aligned_diagonal(k, e) && #[trigger] between_sq(k, e, cap)
                ==> exists|u: int| #[trigger]
                between_sq(k, e, u) && u != cap && mem(self.bitboard.all, u)
    }
}

/// Two squares side by side on a rank are both between `k` and `e` only
/// when `k` and `e` stand on that rank.
pub proof fn lemma_side_by_side(k: int, e: int, a: int, b: int)
    requires
        between_sq(k, e, a),
        between_sq(k, e, b),
        a != b,
        rank_of(a) == rank_of(b),
    ensures
        rank_of(k) == rank_of(e),
        aligned_straight(k, e),
{
}

/// On a file, the square next to a square between `k` and `e` is on their line.
pub proof fn lemma_file_line(k: int, e: int, c: int, t: int)
    requires
        between_sq(k, e, c),
        aligned_straight(k, e),
        rank_of(k) != rank_of(e),
        0 <= t < 64,
        t == c + 8 || t == c - 8,
    ensures
        line_sq(k, e, t),
        king_step(c, t),
{
}

/// A pawn's capture step is a king's step, and the pawn taken en passant
/// stands beside the capturing pawn.
pub proof fn lemma_ep_geometry(c: Color, s: int, t: int)
    requires
        pawn_step(c, s, t),
    ensures
        king_step(s, t),
        rank_of(
            t - (if c == Color::White {
                8int
            } else {
                -8int
            }),
        ) == rank_of(s),
        t - (if c == Color::White {
            8int
        } else {
            -8int
        }) != s,
        0 <= t - (if c == Color::White {
            8int
        } else {
            -8int
        }) < 64,
{
}

/// After a legal en-passant capture from a position in which the taken pawn
/// shields no diagonal, no opposing piece attacks the mover's king.
pub proof fn lemma_ep_safe(board: Board, m: Move, r: Board, e: int)
    requires
        board.valid(),
        board.legal(m),
        m.flag() == 5,
        board.ep_unshielded(),
        board.arrives(m, r),
    ensures
        !hits_from(r.bitboard, board.turn.other(), e, r.bitboard.all, board.own_king()),
{
    let k = board.own_king();
    let s = m.src();
    let t = m.dst();
    let us = board.turn;
    let them = us.other();
    let occ = board.bitboard.all;
    let occ2 = r.bitboard.all;
    let cap = t - board.forward();
    if hits_from(r.bitboard, them, e, occ2, k) {
        lemma_legal_is_pseudo(board, m);
        lemma_move_shape(board, m);
        lemma_rest_stays(board, m, r);
        assert(0 <= e < 64);
        lemma_position_after(board, m, r, e);
        assert(e != t && e != cap);
        assert(board.pawn_ep(s, t));
        assert(t == board.ep_pos());
        lemma_ep_geometry(us, s, t);
        lemma_stretch(k, e, t);
        lemma_stretch(k, e, cap);
        lemma_stretch(k, e, s);
        lemma_occupied(board, k);
        lemma_occupied(board, e);
        lemma_occupied(board, cap);
        assert(mem(occ, k) && mem(board.side(us), k));
        assert(mem(occ, e));
        assert(mem(occ, cap));
        assert(!mem(occ, t));
        assert(mem(occ2, t));
        let o = 6 * them.idx();
        let leaper = (mem(board.bitboard.pieces@[o], e) && pawn_step(them, e, k)) || (mem(
            board.bitboard.pieces@[o + 1],
            e,
        ) && knight_step(e, k)) || (mem(board.bitboard.pieces@[o + 5], e) && king_step(e, k));
        let diagonal = board.enemy_slider(false, e) && slide_hits(false, e, occ2, k);
        let straight = board.enemy_slider(true, e) && slide_hits(true, e, occ2, k);
        assert(leaper || diagonal || straight);
        if board.checker(e) {
            assert(board.in_check());
            let x = if board.check_ok(t) {
                t
            } else {
                cap
            };
            assert(board.check_ok(x));
            let c = choose|c: int|
                {
                    &&& #[trigger] board.checker(c)
                    &&& forall|y: int| board.checker(y) ==> y == c
                    &&& (x == c || between_sq(k, c, x))
                };
            assert(c == e);
            assert(between_sq(k, e, x));
            lemma_stretch(e, k, x);
            if leaper {
                lemma_no_gap(them, e, k, x);
            } else if x == cap {
                // The taken pawn stood in the way: the slider gave no check.
                assert(false);
            }
            assert(false);
        } else {
            let st = straight;
            assert(board.enemy_slider(st, e) && slide_hits(st, e, occ2, k));
            assert(!slide_hits(st, e, occ, k));
            if between_sq(k, e, cap) {
                if st {
                    if rank_of(k) == rank_of(e) {
                        // Along the king's rank: the generator's own test.
                        let after = (occ & !bit(s) & !bit(cap)) | bit(t);
                        assert forall|u: int| #[trigger] between_sq(k, e, u) implies !mem(after, u) by {
                            lemma_stretch(e, k, u);
                            lemma_mem_or(occ & !bit(s) & !bit(cap), bit(t), u);
                            lemma_mem_and(occ & !bit(s), !bit(cap), u);
                            lemma_mem_and(occ, !bit(s), u);
                            lemma_mem_not(bit(s), u);
                            lemma_mem_not(bit(cap), u);
                            lemma_mem_bit(s, u);
                            lemma_mem_bit(cap, u);
                            lemma_mem_bit(t, u);
                            assert(mem(after, u) == board.occupied_after(m, u));
                        }
                        assert(slide_hits(true, k, after, e));
                        assert(board.ep_exposes(s, t));
                        assert(false);
                    } else {
                        lemma_file_line(k, e, cap, t);
                        lemma_neighbour(k, e, cap, t);
                        lemma_stretch(e, k, t);
                        assert(false);
                    }
                } else {
                    let u = choose|u: int| #[trigger]
                        between_sq(k, e, u) && u != cap && mem(occ, u);
                    lemma_stretch(e, k, u);
                    if u != s {
                        assert(board.occupied_after(m, u));
                        assert(mem(occ2, u));
                        assert(false);
                    }
                    lemma_side_by_side(k, e, s, cap);
                    assert(false);
                }
            } else {
                // Only the capturing pawn stood in the way: it was pinned.
                assert forall|y: int| y != s && mem(occ, y) && between_sq(e, k, y) implies mem(
                    occ2,
                    y,
                ) by {
                    lemma_stretch(e, k, y);
                    assert(y != cap);
                    assert(board.occupied_after(m, y));
                }
                lemma_uncovered_on_line(board, st, e, occ2, s);
                assert(board.pin_ok(s, t));
                assert(line_sq(k, e, t));
                lemma_neighbour(k, e, s, t);
                lemma_stretch(e, k, t);
                assert(false);
            }
        }
    }
}

/// A slider that attacks the king after a move, and did not before, was
/// pinning the piece on `s`, if every other piece between the two stayed.
pub proof fn lemma_uncovered_on_line(board: Board, straight: bool, e: int, occ2: u64, s: int)
    requires
        board.enemy_slider(straight, e),
        slide_hits(straight, e, occ2, board.own_king()),
        !slide_hits(straight, e, board.bitboard.all, board.own_king()),
        mem(board.side(board.turn), s),
        forall|x: int|
            x != s && mem(board.bitboard.all, x) && #[trigger] between_sq(e, board.own_king(), x)
                ==> mem(occ2, x),
    ensures
        board.pinner(s, e),
{
    let k = board.own_king();
    lemma_stretch(e, k, 0);
    let u0 = choose|u: int| #[trigger] between_sq(e, k, u) && mem(board.bitboard.all, u);
    assert(between_sq(e, k, u0) && mem(board.bitboard.all, u0));
    assert(u0 == s) by {
        if u0 != s {
            assert(mem(occ2, u0));
        }
    }
    lemma_stretch(e, k, s);
    assert forall|u: int| #[trigger] between_sq(k, e, u) && u != s implies !mem(
        board.bitboard.all,
        u,
    ) by {
        lemma_stretch(e, k, u);
        if mem(board.bitboard.all, u) {
            assert(between_sq(e, k, u));
            assert(mem(occ2, u));
        }
    }
}

impl Board {
    /// The side that is not to move has its king attacked: the position
    /// could only come from a move that left the mover's king in check.
    pub open spec fn exposed(self) -> bool {
        attacked(
            self.bitboard,
            self.turn,
            self.bitboard.all,
            self.king_pos(self.turn.other()),
        )
    }

    /// `m` is a move by the rules of chess: it moves a piece of the side to
    /// move as the rules of its kind allow, and after it the mover's king
    /// is not attacked.
    pub open spec fn lawful(self, m: Move) -> bool {
        self.pseudo(m) && !self.after(m).exposed()
    }
}

/// Where the mover's king stands after a move.
pub proof fn lemma_king_after(board: Board, m: Move, r: Board)
    requires
        board.valid(),
        board.pseudo(m),
        board.arrives(m, r),
    ensures
        r.turn == board.turn.other(),
        r.king_pos(board.turn) == (if board.king_pseudo(m) {
            m.dst()
        } else {
            board.own_king()
        }),
        Square(r.set_of(PieceType::King, board.turn)).single(),
{
    lemma_move_shape(board, m);
    let k2 = if board.king_pseudo(m) {
        m.dst()
    } else {
        board.own_king()
    };
    let kings = r.set_of(PieceType::King, board.turn);
    assert forall|x: int| 0 <= x < 64 implies mem(kings, x) == mem(bit(k2), x) by {
        lemma_position_after(board, m, r, x);
        lemma_mem_bit(k2, x);
    }
    lemma_ext(kings, bit(k2));
    lemma_single(k2);
}

/// Legal means not in check after the move: once a legal move has been
/// played, no piece of the opponent attacks the king of the side that
/// moved. For an en-passant capture this is stated of the positions in
/// which the pawn to be taken shields no diagonal of the mover's king.
pub proof fn lemma_legal_move_is_safe(board: Board, m: Move, r: Board)
    requires
        board.valid(),
        board.legal(m),
        board.arrives(m, r),
        m.flag() == 5 ==> board.ep_unshielded(),
    ensures
        !r.exposed(),
{
    lemma_legal_is_pseudo(board, m);
    lemma_king_after(board, m, r);
    lemma_legal_is_pseudo(board, m);
    lemma_move_shape(board, m);
    let them = board.turn.other();
    let k2 = r.king_pos(board.turn);
    if r.exposed() {
        let e = choose|e: int| hits_from(r.bitboard, them, e, r.bitboard.all, k2);
        if board.king_legal(m) {
            lemma_king_move_safe(board, m, r, e);
        } else if m.flag() == 5 {
            lemma_ep_safe(board, m, r, e);
        } else {
            lemma_piece_move_safe(board, m, r, e);
        }
    }
}

} // verus!
