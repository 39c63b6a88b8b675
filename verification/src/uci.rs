//! Matching move text against the legal moves of a position, and the
//! position that an engine session holds.

use vstd::prelude::*;
use crate::analysis::attackers_of;
use crate::bitboard::{Bitboard, index_of, lemma_occupancy, lemma_occupant, piece_of, union6};
use crate::fen::{Layout, lemma_layout_determines, parse_fen};
use crate::transition::{array_of, lemma_array_of};
use crate::bits::{lemma_empty_iff, mem};
use crate::board::{Board, CastlingRights, Color, PieceType};
use crate::error::Error;
use crate::legal::attacked;
use crate::movegen::generate_moves;
use crate::moves::{lemma_pack_unpack, lemma_uci_text_parts, Move, MoveList, promo_text, uci_text, write_uci};
use crate::tables::Tables;
use crate::text::{chars_of, string_of};

verus! {

/// The first move of `list`, from position `from` on, whose text is `text`.
pub open spec fn first_match(list: Seq<Move>, text: Seq<char>, from: int) -> Option<Move>
    decreases list.len() - from,
{
    if from < 0 || from >= list.len() {
        None
    } else if uci_text(list[from]) == text {
        Some(list[from])
    } else {
        first_match(list, text, from + 1)
    }
}

/// Whether two character sequences are the same.
fn same_chars(a: &Vec<char>, b: &Vec<char>) -> (r: bool)
    ensures
        r == (a@ == b@),
{
    if a.len() != b.len() {
        return false;
    }
    let mut i: usize = 0;
    while i < a.len()
        invariant
            i <= a.len(),
            a.len() == b.len(),
            forall|j: int| 0 <= j < i ==> a@[j] == b@[j],
        decreases a.len() - i,
    {
        if a[i] != b[i] {
            return false;
        }
        i += 1;
    }
    assert(a@ =~= b@);
    true
}

/// The first move of `list` whose text is `text`.
pub fn find_move(list: &MoveList, text: &str) -> (r: Option<Move>)
    ensures
        r == first_match(list@, text@, 0),
{
    let wanted = chars_of(text);
    let mut i: usize = 0;
    while i < list.len()
        invariant
            i <= list@.len(),
            wanted@ == text@,
            first_match(list@, text@, 0) == first_match(list@, text@, i as int),
        decreases list@.len() - i,
    {
        let mv = list.get(i);
        let mut have: Vec<char> = Vec::new();
        write_uci(&mut have, mv);
        assert(have@ =~= uci_text(mv));
        if same_chars(&have, &wanted) {
            return Some(mv);
        }
        i += 1;
    }
    None
}

/// Whether a piece of `by_color` attacks the square `sq`.
pub fn is_square_attacked(tables: &Tables, board: &Board, sq: usize, by_color: Color) -> (r: bool)
    requires
        tables.wf(),
        sq < 64,
    ensures
        r == attacked(board.bitboard, by_color, board.bitboard.all, sq as int),
{
    let attackers = attackers_of(tables, &board.bitboard, sq, by_color, board.all_occupancy());
    proof {
        lemma_empty_iff(attackers);
        if attacked(board.bitboard, by_color, board.bitboard.all, sq as int) {
            let s = choose|s: int|
                crate::legal::hits_from(board.bitboard, by_color, s, board.bitboard.all, sq as int);
            assert(mem(attackers, s));
        }
        if attackers != 0 {
            let s = choose|s: int| 0 <= s < 64 && mem(attackers, s);
            assert(crate::legal::hits_from(
                board.bitboard,
                by_color,
                s,
                board.bitboard.all,
                sq as int,
            ));
        }
    }
    attackers != 0
}

/// Two legal moves of one position with the same text are the same move.
pub proof fn lemma_uci_unique(board: Board, a: Move, b: Move)
    requires
        board.valid(),
        board.legal(a),
        board.legal(b),
        uci_text(a) == uci_text(b),
    ensures
        a == b,
{
    lemma_uci_text_parts(a, b);
    lemma_pack_unpack(0, 0, 0, a);
    lemma_pack_unpack(0, 0, 0, b);
    let s = a.src();
    let t = a.dst();
    let us = board.turn;
    lemma_occupant(board.bitboard, s);
    lemma_occupancy(board.bitboard, t);
    assert(forall|k: PieceType| #[trigger]
        mem(board.set_of(k, us), s) ==> board.bitboard.occupant(s) == Some(
            piece_of(index_of(k, us)),
        ));
    assert(promo_text(a.flag()).len() == promo_text(b.flag()).len());
    if promo_text(a.flag()).len() > 0 {
        assert(promo_text(a.flag())[0] == promo_text(b.flag())[0]);
    }
    crate::movegen::lemma_kinds_apart(board);
    vstd::std_specs::bits::axiom_u64_trailing_zeros(board.set_of(PieceType::King, us));
    crate::bits::lemma_mem_bit(board.own_king(), s);
    let queens = board.set_of(PieceType::Queen, us);
    let rooks = board.set_of(PieceType::Rook, us);
    let bishops = board.set_of(PieceType::Bishop, us);
    if board.king_legal(a) {
        assert(board.king_legal(b));
        assert(s == board.own_king());
    } else if board.pawn_legal(a) {
        assert(board.pawn_legal(b));
        if board.pawn_ep(s, t) {
            assert(!mem(board.bitboard.all, t));
            assert(!board.pawn_capture(s, t));
        }
    } else if board.knight_legal(a) {
        assert(board.knight_legal(b));
    } else if board.slider_legal(bishops, true, false, a) {
        assert(board.slider_legal(bishops, true, false, b));
    } else if board.slider_legal(rooks, false, true, a) {
        assert(board.slider_legal(rooks, false, true, b));
    } else {
        assert(board.slider_legal(queens, true, true, a));
        assert(board.slider_legal(queens, true, true, b));
    }
    assert(a.flag() == b.flag());
}

/// The legal move of the position that `text` names, if there is one.
pub open spec fn move_named(board: Board, text: Seq<char>) -> Option<Move> {
    if exists|m: Move| board.legal(m) && uci_text(m) == text {
        Some(choose|m: Move| board.legal(m) && uci_text(m) == text)
    } else {
        None
    }
}

/// In a list that holds the legal moves of a position, looking up a text
/// finds the legal move the text names, and finds none when it names none.
pub proof fn lemma_find_named(board: Board, list: Seq<Move>, text: Seq<char>, from: int)
    requires
        board.valid(),
        forall|m: Move| #[trigger] list.contains(m) <==> board.legal(m),
        0 <= from <= list.len(),
        forall|i: int| 0 <= i < from ==> uci_text(#[trigger] list[i]) != text,
    ensures
        first_match(list, text, from) == move_named(board, text),
    decreases list.len() - from,
{
    if from >= list.len() {
        if exists|m: Move| board.legal(m) && uci_text(m) == text {
            let m = choose|m: Move| board.legal(m) && uci_text(m) == text;
            assert(list.contains(m));
            let i = choose|i: int| 0 <= i < list.len() && list[i] == m;
            assert(uci_text(list[i]) != text);
        }
    } else if uci_text(list[from]) == text {
        assert(list.contains(list[from]));
        let m = choose|m: Move| board.legal(m) && uci_text(m) == text;
        lemma_uci_unique(board, m, list[from]);
    } else {
        lemma_find_named(board, list, text, from + 1);
    }
}

/// The initial position.
pub open spec fn start_position() -> Board {
    let sets = crate::board::initial_sets();
    let white = union6(sets, 0);
    let black = union6(sets, 6);
    Board {
        bitboard: Bitboard {
            pieces: array_of(sets, vstd::array::spec_array_fill_for_copy_type(0u64)),
            white,
            black,
            all: white | black,
        },
        turn: Color::White,
        en_passant: None,
        castling: CastlingRights(15),
        halfmove: 0,
        fullmove: 1,
    }
}

/// The position that a text with the fields `layout` stands for.
pub open spec fn position_of(layout: Layout) -> Board {
    choose|b: Board| b.layout() == layout && b.printable()
}

/// A position can be played from: the generator accepts it, and the move
/// counters have room for one more move.
pub open spec fn can_play(b: Board) -> bool {
    b.valid() && b.halfmove < 65535 && b.fullmove < 0xFFFF_FFFF_FFFF_FFFF
}

/// What playing the move that `text` names makes of a position; `None`
/// where the position cannot be played from or the text names no legal move.
pub open spec fn played(b: Board, text: Seq<char>) -> Option<Board> {
    if can_play(b) && move_named(b, text) is Some {
        Some(b.after(move_named(b, text)->Some_0))
    } else {
        None
    }
}

/// Playing the moves that the words from `from` on name, one after the
/// other: the position reached, and the place of the first word that could
/// not be played, which is past the last word when all could.
pub open spec fn played_all(b: Board, words: Seq<Seq<char>>, from: int) -> (Board, int)
    decreases words.len() - from,
{
    if from < 0 || from >= words.len() {
        (b, from)
    } else {
        match played(b, words[from]) {
            Some(next) => played_all(next, words, from + 1),
            None => (b, from),
        }
    }
}

/// The place of the first word `moves` at `from` or after it; the number of
/// words when there is none.
pub open spec fn moves_at(words: Seq<Seq<char>>, from: int) -> int
    decreases words.len() - from,
{
    if from < 0 || from >= words.len() {
        words.len() as int
    } else if words[from] == "moves"@ {
        from
    } else {
        moves_at(words, from + 1)
    }
}

/// The words from `from` up to `to`, with single spaces between them.
pub open spec fn join_words(words: Seq<Seq<char>>, from: int, to: int) -> Seq<char>
    decreases to - from,
{
    if from >= to {
        Seq::empty()
    } else if from + 1 == to {
        words[from]
    } else {
        join_words(words, from, to - 1) + seq![' '] + words[to - 1]
    }
}

/// The texts of the words of a command.
pub open spec fn words_of(args: Seq<&str>) -> Seq<Seq<char>> {
    Seq::new(args.len(), |i: int| args[i]@)
}

/// How a `position` command ends.
pub enum Verdict {
    /// The position was set and every move played.
    Done,
    /// The position text was rejected.
    BadText(Error),
    /// The word at this place names no legal move.
    BadMove(int),
}

/// What a `position` command makes of the position `b0`: `startpos` sets
/// the initial position, `fen` the position of the text that follows, up to
/// the word `moves`; the words after `moves` are played as moves; any other
/// command leaves the position as it is.
pub open spec fn positioned(b0: Board, w: Seq<Seq<char>>) -> (Board, Verdict) {
    if w.len() == 0 {
        (b0, Verdict::Done)
    } else if w[0] == "startpos"@ {
        let from = if w.len() > 1 && w[1] == "moves"@ {
            2
        } else {
            w.len() as int
        };
        finished(played_all(start_position(), w, from), w.len() as int)
    } else if w[0] == "fen"@ {
        let stop = moves_at(w, 1);
        match parse_fen(join_words(w, 1, stop)) {
            Err(e) => (b0, Verdict::BadText(e)),
            Ok(layout) => finished(played_all(position_of(layout), w, stop + 1), w.len() as int),
        }
    } else {
        (b0, Verdict::Done)
    }
}

/// The verdict on a run of moves.
pub open spec fn finished(end: (Board, int), len: int) -> (Board, Verdict) {
    (
        end.0,
        if end.1 >= len {
            Verdict::Done
        } else {
            Verdict::BadMove(end.1)
        },
    )
}

/// Whether two texts are the same.
fn same_text(a: &str, b: &str) -> (r: bool)
    ensures
        r == (a@ == b@),
{
    let x = chars_of(a);
    let y = chars_of(b);
    same_chars(&x, &y)
}

/// The words from `from` up to `to`, with single spaces between them.
fn join(args: &[&str], from: usize, to: usize) -> (out: Vec<char>)
    requires
        from <= to <= args@.len(),
    ensures
        out@ == join_words(words_of(args@), from as int, to as int),
{
    let mut out: Vec<char> = Vec::new();
    let mut i = from;
    let ghost w = words_of(args@);
    while i < to
        invariant
            from <= i <= to <= args@.len(),
            w == words_of(args@),
            out@ == join_words(w, from as int, i as int),
        decreases to - i,
    {
        let ghost before = out@;
        if i > from {
            out.push(' ');
        }
        crate::display::write_text(&mut out, args[i]);
        proof {
            assert(w[i as int] == args@[i as int]@);
            if i > from {
                assert(out@ =~= before + seq![' '] + w[i as int]);
            } else {
                assert(out@ =~= w[i as int]);
            }
        }
        i += 1;
    }
    out
}

/// The initial position is `start_position`.
proof fn lemma_start_position(b: Board)
    requires
        b.bitboard.pieces@ == crate::board::initial_sets(),
        b.bitboard.consistent(),
        b.turn == Color::White,
        b.castling.0 == 15,
        b.en_passant is None,
        b.halfmove == 0,
        b.fullmove == 1,
    ensures
        b == start_position(),
{
    let s = start_position();
    lemma_array_of(
        crate::board::initial_sets(),
        vstd::array::spec_array_fill_for_copy_type(0u64),
    );
    assert(b.bitboard.pieces =~= s.bitboard.pieces);
    assert(b.bitboard == s.bitboard);
}

/// The position an engine session holds.
pub struct UciEngine {
    pub board: Board,
}

impl UciEngine {
    /// A session at the initial position.
    pub fn new() -> (r: UciEngine)
        ensures
            r.board == start_position(),
            r.board.sound(),
    {
        let board = Board::default();
        proof {
            lemma_start_position(board);
        }
        UciEngine { board }
    }

    /// Back to the initial position.
    pub fn uci_new_game(&mut self)
        ensures
            final(self).board == start_position(),
    {
        self.board = Board::default();
        proof {
            lemma_start_position(self.board);
        }
    }

    /// Plays the legal move that `move_str` names. Where the text names no
    /// legal move, or the position cannot be played from, the position
    /// stays as it is and the text comes back in the error.
    pub fn apply_move(&mut self, tables: &Tables, move_str: &str) -> (r: Result<(), Error>)
        requires
            tables.wf(),
        ensures
            match played(old(self).board, move_str@) {
                Some(next) => r is Ok && final(self).board == next,
                None => r is Err && final(self).board == old(self).board && r->Err_0 is InvalidMove
                    && r->Err_0->InvalidMove_0@ == move_str@,
            },
    {
        if self.board.is_valid() && self.board.halfmove < 65535 && self.board.fullmove
            < 0xFFFF_FFFF_FFFF_FFFF {
            let moves = generate_moves(tables, &self.board);
            proof {
                lemma_find_named(self.board, moves@, move_str@, 0);
            }
            match find_move(&moves, move_str) {
                Some(mv) => {
                    proof {
                        crate::safety::lemma_legal_is_pseudo(self.board, mv);
                        crate::safety::lemma_move_shape(self.board, mv);
                    }
                    self.board = self.board.make_move(mv);
                    return Ok(());
                },
                None => {},
            }
        }
        let chars = chars_of(move_str);
        Err(Error::InvalidMove(string_of(&chars)))
    }

    /// Plays the moves that the words from `from` on name, one after the
    /// other, and stops at the first that cannot be played.
    pub fn play_moves(&mut self, tables: &Tables, args: &[&str], from: usize) -> (r: Result<
        (),
        Error,
    >)
        requires
            tables.wf(),
        ensures
            final(self).board == played_all(old(self).board, words_of(args@), from as int).0,
            finished(
                played_all(old(self).board, words_of(args@), from as int),
                args@.len() as int,
            ).1 matches Verdict::BadMove(i) ==> r is Err && r->Err_0 is InvalidMove
                && r->Err_0->InvalidMove_0@ == words_of(args@)[i],
            finished(
                played_all(old(self).board, words_of(args@), from as int),
                args@.len() as int,
            ).1 is Done ==> r is Ok,
    {
        let ghost w = words_of(args@);
        let mut i = from;
        while i < args.len()
            invariant
                tables.wf(),
                w == words_of(args@),
                from <= i,
                played_all(old(self).board, w, from as int) == played_all(self.board, w, i as int),
            decreases args@.len() - i,
        {
            assert(w[i as int] == args@[i as int]@);
            match self.apply_move(tables, args[i]) {
                Ok(()) => {},
                Err(e) => {
                    return Err(e);
                },
            }
            i += 1;
        }
        Ok(())
    }

    /// Carries out a `position` command, given its words after `position`.
    pub fn uci_position(&mut self, tables: &Tables, args: &[&str]) -> (r: Result<(), Error>)
        requires
            tables.wf(),
        ensures
            final(self).board == positioned(old(self).board, words_of(args@)).0,
            match positioned(old(self).board, words_of(args@)).1 {
                Verdict::Done => r is Ok,
                Verdict::BadText(e) => r == Err::<(), Error>(e),
                Verdict::BadMove(i) => r is Err && r->Err_0 is InvalidMove && r->Err_0->InvalidMove_0@
                    == words_of(args@)[i],
            },
    {
        let ghost w = words_of(args@);
        if args.len() == 0 {
            return Ok(());
        }
        assert(w[0] == args@[0]@);
        if same_text(args[0], "startpos") {
            self.board = Board::default();
            proof {
                lemma_start_position(self.board);
            }
            let mut from = args.len();
            if args.len() > 1 {
                assert(w[1] == args@[1]@);
                if same_text(args[1], "moves") {
                    from = 2;
                }
            }
            self.play_moves(tables, args, from)
        } else if same_text(args[0], "fen") {
            let mut stop: usize = 1;
            while stop < args.len() && !same_text(args[stop], "moves")
                invariant
                    1 <= stop <= args@.len(),
                    w == words_of(args@),
                    moves_at(w, 1) == moves_at(w, stop as int),
                decreases args@.len() - stop,
            {
                assert(w[stop as int] == args@[stop as int]@);
                stop += 1;
            }
            proof {
                if stop < args@.len() {
                    assert(w[stop as int] == args@[stop as int]@);
                }
            }
            let text = join(args, 1, stop);
            match Board::from_fen_chars(&text) {
                Err(e) => Err(e),
                Ok(b) => {
                    proof {
                        let layout = parse_fen(text@)->Ok_0;
                        lemma_layout_determines(b, position_of(layout));
                    }
                    self.board = b;
                    if stop < args.len() {
                        self.play_moves(tables, args, stop + 1)
                    } else {
                        Ok(())
                    }
                },
            }
        } else {
            Ok(())
        }
    }
}

impl Default for UciEngine {
    fn default() -> (r: UciEngine)
        ensures
            r.board == start_position(),
    {
        UciEngine::new()
    }
}

} // verus!
