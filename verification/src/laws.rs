//! Laws that relate several parts of the crate.

use vstd::prelude::*;
use crate::bitboard::{Bitboard, cleared, index_of, lemma_occupancy, placed};
use crate::bits::mem;
use crate::board::{Board, Piece, PieceType, Square};
use crate::movegen::lemma_kinds_apart;
use crate::moves::Move;
use crate::tables::between_sq;
use crate::uci::{first_match, lemma_find_named, lemma_uci_unique};
use crate::moves::uci_text;
use crate::complete::lemma_legal_iff_safe;
use crate::safety::{lemma_legal_is_pseudo, lemma_move_shape};
use crate::sound::lemma_move_keeps_sound;
use crate::transition::lemma_after;

verus! {

/// One change to the pieces of a board.
pub enum Edit {
    /// `set_piece` with this square and piece.
    Put(Square, Piece),
    /// `remove_piece` with this square.
    Clear(Square),
}

/// `b` is what `set_piece` or `remove_piece` makes of `a`.
pub open spec fn edited(a: Bitboard, e: Edit, b: Bitboard) -> bool {
    match e {
        Edit::Put(sq, piece) => {
            &&& b.pieces@ == placed(a.pieces@, sq.0, index_of(piece.0, piece.1))
            &&& b.consistent()
        },
        Edit::Clear(sq) => {
            &&& b.pieces@ == cleared(a.pieces@, sq.0)
            &&& a.piece_at(sq.0) is Some || a.consistent() ==> b.consistent()
            &&& a.piece_at(sq.0) is None ==> b == a
        },
    }
}

/// After any sequence of puts and clears on a board whose unions were
/// consistent, the unions are those of the piece sets: `boards` holds the
/// board before the first change and after each one.
pub proof fn lemma_edits_keep_unions(boards: Seq<Bitboard>, edits: Seq<Edit>, n: int)
    requires
        boards.len() == edits.len() + 1,
        boards[0].consistent(),
        forall|i: int| 0 <= i < edits.len() ==> edited(#[trigger] boards[i], edits[i], boards[i + 1]),
        0 <= n < boards.len(),
    ensures
        boards[n].consistent(),
    decreases n,
{
    if n > 0 {
        lemma_edits_keep_unions(boards, edits, n - 1);
        assert(edited(boards[n - 1], edits[n - 1], boards[n]));
    }
}

/// The text of a legal move, looked up in a list that holds the legal moves
/// of the position, finds that move.
pub proof fn lemma_uci_round_trip(board: Board, list: Seq<Move>, m: Move)
    requires
        board.valid(),
        forall|x: Move| #[trigger] list.contains(x) <==> board.legal(x),
        board.legal(m),
    ensures
        first_match(list, uci_text(m), 0) == Some(m),
{
    lemma_find_named(board, list, uci_text(m), 0);
    let found = choose|x: Move| board.legal(x) && uci_text(x) == uci_text(m);
    lemma_uci_unique(board, found, m);
}

impl Board {
    /// The side to move is in check and has no move by the rules of chess.
    pub open spec fn checkmated(self) -> bool {
        self.in_check() && forall|m: Move| !self.lawful(m)
    }

    /// The side to move is not in check and has no move by the rules of chess.
    pub open spec fn stalemated(self) -> bool {
        !self.in_check() && forall|m: Move| !self.lawful(m)
    }
}

/// The legal moves are the moves by the rules of chess: those that move a
/// piece as its kind allows and leave the mover's king out of check.
pub proof fn lemma_legal_iff_lawful(board: Board, m: Move)
    requires
        board.valid(),
        board.en_passant is Some ==> board.ep_unshielded(),
    ensures
        board.legal(m) <==> board.lawful(m),
{
    if board.legal(m) {
        lemma_legal_is_pseudo(board, m);
    }
    if board.pseudo(m) {
        lemma_move_shape(board, m);
        lemma_after(board, m);
        lemma_legal_iff_safe(board, m, board.after(m));
    }
}

/// Legal means not in check after the move: in the position that a legal
/// move leads to, the side that has moved does not have its king attacked,
/// and the position is sound again.
pub proof fn lemma_legal_move_keeps_king_safe(board: Board, m: Move)
    requires
        board.sound(),
        board.legal(m),
    ensures
        !board.after(m).exposed(),
        board.after(m).sound(),
{
    lemma_legal_is_pseudo(board, m);
    lemma_move_shape(board, m);
    lemma_after(board, m);
    lemma_move_keeps_sound(board, m, board.after(m));
}

/// A list that holds the legal moves of a position is empty exactly when
/// the side to move is checkmated or stalemated; which of the two, the
/// attack on its king decides.
pub proof fn lemma_empty_iff_terminal(board: Board, list: Seq<Move>)
    requires
        board.valid(),
        board.en_passant is Some ==> board.ep_unshielded(),
        forall|m: Move| #[trigger] list.contains(m) <==> board.legal(m),
    ensures
        list.len() == 0 <==> board.checkmated() || board.stalemated(),
        board.checkmated() ==> crate::legal::attacked(
            board.bitboard,
            board.turn.other(),
            board.bitboard.all,
            board.own_king(),
        ),
        board.stalemated() ==> !crate::legal::attacked(
            board.bitboard,
            board.turn.other(),
            board.bitboard.all,
            board.own_king(),
        ),
{
    if list.len() > 0 {
        assert(list.contains(list[0]));
        lemma_legal_iff_lawful(board, list[0]);
    }
    if list.len() == 0 {
        assert forall|m: Move| !board.lawful(m) by {
            lemma_legal_iff_lawful(board, m);
            if board.legal(m) {
                assert(list.contains(m));
            }
        }
    }
    let them = board.turn.other();
    if board.in_check() {
        let s = choose|s: int| board.checker(s);
        assert(crate::legal::hits_from(board.bitboard, them, s, board.bitboard.all, board.own_king()));
    }
    if crate::legal::attacked(board.bitboard, them, board.bitboard.all, board.own_king()) {
        let s = choose|s: int|
            crate::legal::hits_from(board.bitboard, them, s, board.bitboard.all, board.own_king());
        assert(board.checker(s));
    }
}

/// A pinned knight cannot move: when a knight of the side to move is the
/// only piece between its king and an opposing slider, on a line that
/// slider moves along, no legal move starts from the knight's square.
pub proof fn lemma_pinned_knight_stays(board: Board, knight: int, slider: int, m: Move)
    requires
        board.bitboard.wf(),
        mem(board.set_of(PieceType::Knight, board.turn), knight),
        board.sniper(slider),
        between_sq(board.own_king(), slider, knight),
        forall|u: int| #[trigger]
            between_sq(board.own_king(), slider, u) && u != knight ==> !mem(board.bitboard.all, u),
        board.legal(m),
    ensures
        m.src() != knight,
{
    lemma_kinds_apart(board);
    lemma_occupancy(board.bitboard, knight);
    crate::bitboard::lemma_occupant(board.bitboard, knight);
    assert(mem(board.side(board.turn), knight));
    assert(board.pinner(knight, slider));
    assert(board.pinned(knight));
}

} // verus!
