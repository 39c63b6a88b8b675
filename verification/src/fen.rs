//! Reading and writing positions as six-field text: piece placement, side
//! to move, castling rights, en-passant target, half-move clock and
//! full-move number.

use vstd::prelude::*;
use crate::bitboard::{Bitboard, index_of, lemma_occupant, lemma_placed, lemma_updates_disjoint, piece_of, placed, sets_disjoint};
use crate::bits::{bit, lemma_ext, lemma_mem_zero, mem};
use crate::board::{Board, CastlingRights, Color, lemma_single, lemma_square_name_round_trip, name_ok, named_index, Piece, Square, square_from_chars, square_name, write_square_name};
use crate::error::Error;
use crate::tables::{file_of, rank_of};
use crate::text::{chars_of, decimal_text, digit_char, lemma_decimal_round_trip, parse_decimal, read_decimal, string_of, write_decimal};

verus! {

/// A character that separates fields.
pub open spec fn is_space(c: char) -> bool {
    c == ' ' || c == '\t' || c == '\n' || c == '\r'
}

/// The first position at or after `i` that holds no separator.
pub open spec fn skip_spaces(s: Seq<char>, i: int) -> int
    decreases s.len() - i,
{
    if 0 <= i < s.len() && is_space(s[i]) {
        skip_spaces(s, i + 1)
    } else {
        i
    }
}

/// The first position at or after `i` that holds a separator, or the end.
pub open spec fn token_end(s: Seq<char>, i: int) -> int
    decreases s.len() - i,
{
    if 0 <= i < s.len() && !is_space(s[i]) {
        token_end(s, i + 1)
    } else {
        i
    }
}

/// Scanning never leaves the text and never goes back.
proof fn lemma_scan_bounds(s: Seq<char>, i: int)
    requires
        0 <= i <= s.len(),
    ensures
        i <= skip_spaces(s, i) <= s.len(),
        i <= token_end(s, i) <= s.len(),
    decreases s.len() - i,
{
    if i < s.len() {
        lemma_scan_bounds(s, i + 1);
    }
}

/// Whether the character separates fields.
fn is_separator(c: char) -> (r: bool)
    ensures
        r == is_space(c),
{
    c == ' ' || c == '\t' || c == '\n' || c == '\r'
}

/// The next field at or after `i`: where it starts and where it stops. The
/// two are equal, and are the end of the text, when there is no further field.
fn next_field(chars: &Vec<char>, i: usize) -> (r: (usize, usize))
    requires
        i <= chars@.len(),
    ensures
        r.0 == skip_spaces(chars@, i as int),
        r.1 == token_end(chars@, r.0 as int),
        i <= r.0 <= r.1 <= chars@.len(),
{
    let mut a = i;
    proof {
        lemma_scan_bounds(chars@, i as int);
    }
    while a < chars.len() && is_separator(chars[a])
        invariant
            i <= a <= chars@.len(),
            skip_spaces(chars@, a as int) == skip_spaces(chars@, i as int),
        decreases chars@.len() - a,
    {
        a += 1;
    }
    let mut b = a;
    while b < chars.len() && !is_separator(chars[b])
        invariant
            a <= b <= chars@.len(),
            token_end(chars@, b as int) == token_end(chars@, a as int),
        decreases chars@.len() - b,
    {
        b += 1;
    }
    (a, b)
}

/// What the side field stands for.
pub open spec fn parse_side(tok: Seq<char>) -> Option<Color> {
    if tok =~= seq!['w'] {
        Some(Color::White)
    } else if tok =~= seq!['b'] {
        Some(Color::Black)
    } else {
        None
    }
}

/// Reads the side field in `chars[start..end]`.
fn read_side(chars: &Vec<char>, start: usize, end: usize) -> (r: Option<Color>)
    requires
        start <= end <= chars@.len(),
    ensures
        r == parse_side(chars@.subrange(start as int, end as int)),
{
    let ghost tok = chars@.subrange(start as int, end as int);
    if end - start != 1 {
        return None;
    }
    assert(tok[0] == chars@[start as int]);
    if chars[start] == 'w' {
        assert(tok =~= seq!['w']);
        Some(Color::White)
    } else if chars[start] == 'b' {
        assert(tok =~= seq!['b']);
        Some(Color::Black)
    } else {
        assert(seq!['w'][0] == 'w' && seq!['b'][0] == 'b');
        None
    }
}

/// The right a castling letter stands for: 0 for `-`, -1 for a character
/// that may not stand in the field.
pub open spec fn right_of(c: char) -> int {
    if c == 'K' {
        1
    } else if c == 'Q' {
        2
    } else if c == 'k' {
        4
    } else if c == 'q' {
        8
    } else if c == '-' {
        0
    } else {
        -1
    }
}

/// Every character of the castling field is one of `KQkq-`.
pub open spec fn castling_ok(tok: Seq<char>) -> bool {
    forall|i: int| 0 <= i < tok.len() ==> right_of(#[trigger] tok[i]) >= 0
}

/// The right with flag `flag` is named in the castling field.
pub open spec fn names_right(tok: Seq<char>, flag: int) -> bool {
    exists|i: int| 0 <= i < tok.len() && right_of(#[trigger] tok[i]) == flag
}

/// The rights a castling field names.
pub open spec fn rights_of(tok: Seq<char>) -> int {
    (if names_right(tok, 1) {
        1int
    } else {
        0
    }) + (if names_right(tok, 2) {
        2int
    } else {
        0
    }) + (if names_right(tok, 4) {
        4int
    } else {
        0
    }) + (if names_right(tok, 8) {
        8int
    } else {
        0
    })
}

/// What the castling field stands for.
pub open spec fn parse_castling(tok: Seq<char>) -> Option<int> {
    if castling_ok(tok) {
        Some(rights_of(tok))
    } else {
        None
    }
}

/// Reads the castling field in `chars[start..end]`.
fn read_castling(chars: &Vec<char>, start: usize, end: usize) -> (r: Option<u8>)
    requires
        start <= end <= chars@.len(),
    ensures
        match parse_castling(chars@.subrange(start as int, end as int)) {
            Some(v) => r == Some(v as u8) && 0 <= v < 16,
            None => r is None,
        },
{
    let ghost tok = chars@.subrange(start as int, end as int);
    let mut wk = false;
    let mut wq = false;
    let mut bk = false;
    let mut bq = false;
    let mut i = start;
    while i < end
        invariant
            start <= i <= end <= chars@.len(),
            tok == chars@.subrange(start as int, end as int),
            castling_ok(tok.subrange(0, i - start)),
            wk == names_right(tok.subrange(0, i - start), 1),
            wq == names_right(tok.subrange(0, i - start), 2),
            bk == names_right(tok.subrange(0, i - start), 4),
            bq == names_right(tok.subrange(0, i - start), 8),
        decreases end - i,
    {
        let c = chars[i];
        let ghost pre = tok.subrange(0, i - start);
        let ghost cur = tok.subrange(0, i - start + 1);
        proof {
            assert(cur[i - start] == c);
            assert forall|j: int| 0 <= j < pre.len() implies cur[j] == pre[j] by {
            }
        }
        if c == 'K' {
            wk = true;
        } else if c == 'Q' {
            wq = true;
        } else if c == 'k' {
            bk = true;
        } else if c == 'q' {
            bq = true;
        } else if c == '-' {
        } else {
            assert(!castling_ok(tok)) by {
                assert(tok[i - start] == c);
            }
            return None;
        }
        proof {
            lemma_names_step(pre, cur, c, 1);
            lemma_names_step(pre, cur, c, 2);
            lemma_names_step(pre, cur, c, 4);
            lemma_names_step(pre, cur, c, 8);
            assert(castling_ok(cur)) by {
                assert forall|j: int| 0 <= j < cur.len() implies right_of(#[trigger] cur[j]) >= 0 by {
                    if j < pre.len() {
                        assert(cur[j] == pre[j]);
                    }
                }
            }
        }
        i += 1;
    }
    assert(tok.subrange(0, end - start) =~= tok);
    let mut rights: u8 = 0;
    if wk {
        rights += 1;
    }
    if wq {
        rights += 2;
    }
    if bk {
        rights += 4;
    }
    if bq {
        rights += 8;
    }
    Some(rights)
}

/// A text with one more character names a right if the shorter text does
/// or the new character stands for it.
proof fn lemma_names_step(pre: Seq<char>, cur: Seq<char>, c: char, flag: int)
    requires
        cur.len() == pre.len() + 1,
        forall|j: int| 0 <= j < pre.len() ==> cur[j] == pre[j],
        cur[pre.len() as int] == c,
    ensures
        names_right(cur, flag) == (names_right(pre, flag) || right_of(c) == flag),
{
    if names_right(pre, flag) {
        let i = choose|i: int| 0 <= i < pre.len() && right_of(#[trigger] pre[i]) == flag;
        assert(right_of(cur[i]) == flag);
    }
    if right_of(c) == flag {
        assert(right_of(cur[pre.len() as int]) == flag);
    }
    if names_right(cur, flag) {
        let i = choose|i: int| 0 <= i < cur.len() && right_of(#[trigger] cur[i]) == flag;
        if i < pre.len() {
            assert(right_of(pre[i]) == flag);
        }
    }
}

/// What the en-passant field stands for: no square for `-`, the named
/// square for a square name; `None` for any other text.
pub open spec fn parse_en_passant(tok: Seq<char>) -> Option<Option<int>> {
    if tok =~= seq!['-'] {
        Some(None)
    } else if name_ok(tok) {
        Some(Some(named_index(tok)))
    } else {
        None
    }
}

/// Reads the en-passant field in `chars[start..end]`.
fn read_en_passant(chars: &Vec<char>, start: usize, end: usize) -> (r: Option<Option<Square>>)
    requires
        start <= end <= chars@.len(),
    ensures
        match parse_en_passant(chars@.subrange(start as int, end as int)) {
            Some(Some(idx)) => r == Some(Some(Square(bit(idx)))) && 0 <= idx < 64,
            Some(None) => r == Some(None::<Square>),
            None => r is None,
        },
{
    let ghost tok = chars@.subrange(start as int, end as int);
    if end - start == 1 && chars[start] == '-' {
        assert(tok[0] == '-');
        assert(tok =~= seq!['-']);
        return Some(None);
    }
    proof {
        if tok =~= seq!['-'] {
            assert(tok.len() == 1 && tok[0] == seq!['-'][0]);
            assert(chars@[start as int] == tok[0]);
        }
    }
    match square_from_chars(chars, start, end) {
        Some(sq) => Some(Some(sq)),
        None => None,
    }
}

/// Twelve empty sets.
pub open spec fn no_pieces() -> Seq<u64> {
    Seq::new(12, |i: int| 0u64)
}

/// Where reading the placement field stands: the sets filled so far, the
/// rank being read and the file the next character refers to; `None` once
/// the field has been found malformed.
pub type Cursor = Option<(Seq<u64>, int, int)>;

/// Reading one character of the placement field: `/` ends a full rank and
/// starts the next one below; a digit `1..8` skips that many files, without
/// leaving the rank; a piece letter places the piece and moves one file on.
pub open spec fn placement_step(st: Cursor, c: char) -> Cursor {
    match st {
        None => None,
        Some((sets, rank, file)) => {
            if c == '/' {
                if file == 8 && rank > 0 {
                    Some((sets, rank - 1, 0))
                } else {
                    None
                }
            } else if '1' <= c <= '8' {
                if file + (c as int - 48) <= 8 {
                    Some((sets, rank, file + (c as int - 48)))
                } else {
                    None
                }
            } else {
                match Piece::of_char(c) {
                    Some(p) => if file < 8 {
                        Some((placed(sets, bit(file + 8 * rank), index_of(p.0, p.1)), rank, file + 1))
                    } else {
                        None
                    },
                    None => None,
                }
            }
        },
    }
}

/// Reading the characters of `tok` one after the other, from `st` on.
pub open spec fn placement_run(tok: Seq<char>, st: Cursor) -> Cursor
    decreases tok.len(),
{
    if tok.len() == 0 {
        st
    } else {
        placement_step(placement_run(tok.drop_last(), st), tok.last())
    }
}

/// What the placement field stands for: eight ranks of eight files each,
/// from the eighth rank down.
pub open spec fn parse_placement(tok: Seq<char>) -> Option<Seq<u64>> {
    match placement_run(tok, Some((no_pieces(), 7, 0))) {
        Some((sets, rank, file)) => if rank == 0 && file == 8 {
            Some(sets)
        } else {
            None
        },
        None => None,
    }
}

/// Once the field is malformed it stays so.
proof fn lemma_run_none(tok: Seq<char>)
    ensures
        placement_run(tok, None) is None,
    decreases tok.len(),
{
    if tok.len() > 0 {
        lemma_run_none(tok.drop_last());
    }
}

/// Reading a text is reading its first part, then the rest.
proof fn lemma_run_split(a: Seq<char>, b: Seq<char>, st: Cursor)
    ensures
        placement_run(a + b, st) == placement_run(b, placement_run(a, st)),
    decreases b.len(),
{
    if b.len() == 0 {
        assert(a + b =~= a);
    } else {
        lemma_run_split(a, b.drop_last(), st);
        assert((a + b).drop_last() =~= a + b.drop_last());
        assert((a + b).last() == b.last());
    }
}

/// Reading a single character is one step.
proof fn lemma_run_one(c: char, st: Cursor)
    ensures
        placement_run(seq![c], st) == placement_step(st, c),
{
    let one = seq![c];
    assert(one.drop_last() =~= Seq::<char>::empty());
    assert(one.last() == c);
    assert(placement_run(one.drop_last(), st) == st);
}

/// A malformed first part makes the whole field malformed.
proof fn lemma_run_prefix_none(tok: Seq<char>, k: int, st: Cursor)
    requires
        0 <= k <= tok.len(),
        placement_run(tok.subrange(0, k), st) is None,
    ensures
        placement_run(tok, st) is None,
{
    assert(tok =~= tok.subrange(0, k) + tok.subrange(k, tok.len() as int));
    lemma_run_split(tok.subrange(0, k), tok.subrange(k, tok.len() as int), st);
    lemma_run_none(tok.subrange(k, tok.len() as int));
}

/// Reads the placement field in `chars[start..end]` into the piece sets of `board`.
fn read_placement(board: &mut Board, chars: &Vec<char>, start: usize, end: usize) -> (ok: bool)
    requires
        start <= end <= chars@.len(),
        old(board).bitboard.pieces@ == no_pieces(),
        old(board).bitboard.consistent(),
    ensures
        match parse_placement(chars@.subrange(start as int, end as int)) {
            Some(sets) => ok && final(board).bitboard.pieces@ == sets,
            None => !ok,
        },
        final(board).bitboard.consistent(),
        final(board).bitboard.disjoint(),
        final(board).turn == old(board).turn,
        final(board).en_passant == old(board).en_passant,
        final(board).castling == old(board).castling,
        final(board).halfmove == old(board).halfmove,
        final(board).fullmove == old(board).fullmove,
{
    let ghost tok = chars@.subrange(start as int, end as int);
    let ghost init: Cursor = Some((no_pieces(), 7, 0));
    proof {
        assert forall|i: int, j: int, sq: int| 0 <= i < j < 12 && #[trigger] mem(
            no_pieces()[i],
            sq,
        ) implies !#[trigger] mem(no_pieces()[j], sq) by {
            lemma_mem_zero(sq);
        }
    }
    let mut rank: u8 = 7;
    let mut file: u8 = 0;
    let mut i = start;
    assert(tok.subrange(0, 0) =~= Seq::<char>::empty());
    while i < end
        invariant
            start <= i <= end <= chars@.len(),
            tok == chars@.subrange(start as int, end as int),
            init == Some((no_pieces(), 7int, 0int)),
            rank <= 7,
            file <= 8,
            placement_run(tok.subrange(0, i - start), init) == Some(
                (board.bitboard.pieces@, rank as int, file as int),
            ),
            board.bitboard.consistent(),
            board.bitboard.disjoint(),
            board.turn == old(board).turn,
            board.en_passant == old(board).en_passant,
            board.castling == old(board).castling,
            board.halfmove == old(board).halfmove,
            board.fullmove == old(board).fullmove,
        decreases end - i,
    {
        let c = chars[i];
        let ghost pre = tok.subrange(0, i - start);
        let ghost cur = tok.subrange(0, i - start + 1);
        proof {
            assert(cur.drop_last() =~= pre);
            assert(cur.last() == c);
        }
        let mut bad = false;
        if c == '/' {
            if file == 8 && rank > 0 {
                rank -= 1;
                file = 0;
            } else {
                bad = true;
            }
        } else if c >= '1' && c <= '8' {
            let d = (c as u32 - '0' as u32) as u8;
            if file + d <= 8 {
                file += d;
            } else {
                bad = true;
            }
        } else {
            match Piece::from_char(c) {
                Some(piece) => {
                    if file < 8 {
                        match Square::from(file, rank) {
                            Ok(sq) => {
                                proof {
                                    lemma_updates_disjoint(
                                        board.bitboard.pieces@,
                                        file + rank * 8,
                                        index_of(piece.0, piece.1),
                                    );
                                }
                                board.set_piece(sq, piece);
                                file += 1;
                            },
                            Err(_) => {
                                bad = true;
                            },
                        }
                    } else {
                        bad = true;
                    }
                },
                None => {
                    bad = true;
                },
            }
        }
        if bad {
            proof {
                assert(placement_run(cur, init) is None);
                lemma_run_prefix_none(tok, i - start + 1, init);
            }
            return false;
        }
        i += 1;
    }
    assert(tok.subrange(0, end - start) =~= tok);
    rank == 0 && file == 8
}

/// What a position text holds, field by field.
pub ghost struct Layout {
    pub sets: Seq<u64>,
    pub turn: Color,
    pub castling: int,
    pub en_passant: Option<int>,
    pub halfmove: int,
    pub fullmove: int,
}

impl Board {
    /// The fields a position text has for this position.
    pub open spec fn layout(self) -> Layout {
        Layout {
            sets: self.bitboard.pieces@,
            turn: self.turn,
            castling: self.castling.0 as int,
            en_passant: match self.en_passant {
                Some(e) => Some(e.pos()),
                None => None,
            },
            halfmove: self.halfmove as int,
            fullmove: self.fullmove as int,
        }
    }
}

/// Where the `n`-th field starts (`n` from 0), scanning from the start of the text.
pub open spec fn field_start(s: Seq<char>, n: nat) -> int
    decreases n,
{
    if n == 0 {
        skip_spaces(s, 0)
    } else {
        skip_spaces(s, token_end(s, field_start(s, (n - 1) as nat)))
    }
}

/// Where the `n`-th field stops.
pub open spec fn field_stop(s: Seq<char>, n: nat) -> int {
    token_end(s, field_start(s, n))
}

/// The `n`-th field.
pub open spec fn field(s: Seq<char>, n: nat) -> Seq<char> {
    s.subrange(field_start(s, n), field_stop(s, n))
}

/// What a position text stands for. The text must have exactly six fields
/// between separators; the fields are then read in order, and the first
/// that is malformed decides the error. The half-move clock is at most
/// 65535; the full-move number is at least 1.
pub open spec fn parse_fen(s: Seq<char>) -> Result<Layout, Error> {
    if field_start(s, 5) >= s.len() || field_start(s, 6) < s.len() {
        Err(Error::InvalidFen)
    } else if parse_placement(field(s, 0)) is None {
        Err(Error::InvalidPlacement)
    } else if parse_side(field(s, 1)) is None {
        Err(Error::InvalidSide)
    } else if parse_castling(field(s, 2)) is None {
        Err(Error::InvalidCastling)
    } else if parse_en_passant(field(s, 3)) is None {
        Err(Error::InvalidEnPassant)
    } else if parse_decimal(field(s, 4), 65535) is None {
        Err(Error::InvalidCounter)
    } else if parse_decimal(field(s, 5), 0xFFFF_FFFF_FFFF_FFFF) is None || parse_decimal(
        field(s, 5),
        0xFFFF_FFFF_FFFF_FFFF,
    )->Some_0 == 0 {
        Err(Error::InvalidCounter)
    } else {
        Ok(
            Layout {
                sets: parse_placement(field(s, 0))->Some_0,
                turn: parse_side(field(s, 1))->Some_0,
                castling: parse_castling(field(s, 2))->Some_0,
                en_passant: parse_en_passant(field(s, 3))->Some_0,
                halfmove: parse_decimal(field(s, 4), 65535)->Some_0,
                fullmove: parse_decimal(field(s, 5), 0xFFFF_FFFF_FFFF_FFFF)->Some_0,
            },
        )
    }
}

impl Board {
    /// Reads a position from its six-field text.
    pub fn from_fen(fen: &str) -> (r: Result<Board, Error>)
        ensures
            match parse_fen(fen@) {
                Ok(layout) => r is Ok && r->Ok_0.layout() == layout && r->Ok_0.bitboard.consistent(),
                Err(e) => r == Err::<Board, Error>(e),
            },
            r is Ok ==> r->Ok_0.printable(),
    {
        let chars = chars_of(fen);
        Board::from_fen_chars(&chars)
    }

    /// Reads a position from the characters of its six-field text.
    pub fn from_fen_chars(chars: &Vec<char>) -> (r: Result<Board, Error>)
        ensures
            match parse_fen(chars@) {
                Ok(layout) => r is Ok && r->Ok_0.layout() == layout && r->Ok_0.bitboard.consistent(),
                Err(e) => r == Err::<Board, Error>(e),
            },
            r is Ok ==> r->Ok_0.printable(),
    {
        let n = chars.len();
        let (a0, b0) = next_field(chars, 0);
        let (a1, b1) = next_field(chars, b0);
        let (a2, b2) = next_field(chars, b1);
        let (a3, b3) = next_field(chars, b2);
        let (a4, b4) = next_field(chars, b3);
        let (a5, b5) = next_field(chars, b4);
        let (a6, b6) = next_field(chars, b5);
        proof {
            reveal_with_fuel(field_start, 8);
            assert(a0 == field_start(chars@, 0) && b0 == field_stop(chars@, 0));
            assert(a1 == field_start(chars@, 1) && b1 == field_stop(chars@, 1));
            assert(a2 == field_start(chars@, 2) && b2 == field_stop(chars@, 2));
            assert(a3 == field_start(chars@, 3) && b3 == field_stop(chars@, 3));
            assert(a4 == field_start(chars@, 4) && b4 == field_stop(chars@, 4));
            assert(a5 == field_start(chars@, 5) && b5 == field_stop(chars@, 5));
            assert(a6 == field_start(chars@, 6));
        }
        if a5 >= n || a6 < n {
            return Err(Error::InvalidFen);
        }
        let mut board = Board {
            bitboard: Bitboard::new(),
            turn: Color::White,
            en_passant: None,
            castling: CastlingRights(0),
            halfmove: 0,
            fullmove: 1,
        };
        if !read_placement(&mut board, chars, a0, b0) {
            return Err(Error::InvalidPlacement);
        }
        let turn = match read_side(chars, a1, b1) {
            Some(c) => c,
            None => {
                return Err(Error::InvalidSide);
            },
        };
        let castling = match read_castling(chars, a2, b2) {
            Some(c) => c,
            None => {
                return Err(Error::InvalidCastling);
            },
        };
        let en_passant = match read_en_passant(chars, a3, b3) {
            Some(e) => e,
            None => {
                return Err(Error::InvalidEnPassant);
            },
        };
        let halfmove = match read_decimal(chars, a4, b4, 65535) {
            Some(v) => v as u16,
            None => {
                return Err(Error::InvalidCounter);
            },
        };
        let fullmove = match read_decimal(chars, a5, b5, 0xFFFF_FFFF_FFFF_FFFF) {
            Some(v) => v,
            None => {
                return Err(Error::InvalidCounter);
            },
        };
        if fullmove == 0 {
            return Err(Error::InvalidCounter);
        }
        board.turn = turn;
        board.castling = CastlingRights(castling);
        board.en_passant = en_passant;
        board.halfmove = halfmove;
        board.fullmove = fullmove;
        proof {
            match en_passant {
                Some(e) => {
                    let idx = named_index(field(chars@, 3));
                    lemma_single(idx);
                },
                None => {},
            }
        }
        Ok(board)
    }
}

/// The digit that stands for a run of empty squares; nothing for no run.
pub open spec fn flush(run: int) -> Seq<char> {
    if run > 0 {
        seq![digit_char(run)]
    } else {
        Seq::empty()
    }
}

/// The text of the squares of `rank` from `file` on, with `run` empty
/// squares before them not yet written.
pub open spec fn rank_text(b: Bitboard, rank: int, file: int, run: int) -> Seq<char>
    decreases 8 - file,
{
    if file >= 8 {
        flush(run)
    } else {
        match b.occupant(file + 8 * rank) {
            Some(p) => flush(run) + seq![p.letter()] + rank_text(b, rank, file + 1, 0),
            None => rank_text(b, rank, file + 1, run + 1),
        }
    }
}

/// The text of the ranks from the eighth down to `rank`, with `/` between them.
pub open spec fn ranks_text(b: Bitboard, rank: int) -> Seq<char>
    decreases 7 - rank,
{
    if rank >= 7 {
        rank_text(b, 7, 0, 0)
    } else {
        ranks_text(b, rank + 1) + seq!['/'] + rank_text(b, rank, 0, 0)
    }
}

/// The placement field of a position.
pub open spec fn placement_text(b: Bitboard) -> Seq<char> {
    ranks_text(b, 0)
}

/// The side field: `w` or `b`.
pub open spec fn side_text(c: Color) -> Seq<char> {
    match c {
        Color::White => seq!['w'],
        Color::Black => seq!['b'],
    }
}

/// The castling field: the letters of the rights held, in the order
/// `KQkq`, or `-` when none is held.
pub open spec fn castling_text(c: int) -> Seq<char> {
    if c == 0 {
        seq!['-']
    } else {
        (if c % 2 == 1 {
            seq!['K']
        } else {
            Seq::empty()
        }) + (if (c / 2) % 2 == 1 {
            seq!['Q']
        } else {
            Seq::empty()
        }) + (if (c / 4) % 2 == 1 {
            seq!['k']
        } else {
            Seq::empty()
        }) + (if (c / 8) % 2 == 1 {
            seq!['q']
        } else {
            Seq::empty()
        })
    }
}

/// The en-passant field: the name of the target square, or `-`.
pub open spec fn en_passant_text(e: Option<Square>) -> Seq<char> {
    match e {
        Some(sq) => square_name(sq.pos()),
        None => seq!['-'],
    }
}

/// The six-field text of a position.
pub open spec fn fen_text(b: Board) -> Seq<char> {
    placement_text(b.bitboard) + seq![' '] + side_text(b.turn) + seq![' '] + castling_text(
        b.castling.0 as int,
    ) + seq![' '] + en_passant_text(b.en_passant) + seq![' '] + decimal_text(b.halfmove as int)
        + seq![' '] + decimal_text(b.fullmove as int)
}

/// Appends the text of one rank.
fn write_rank(out: &mut Vec<char>, b: &Bitboard, rank: usize)
    requires
        rank < 8,
    ensures
        final(out)@ == old(out)@ + rank_text(*b, rank as int, 0, 0),
{
    let mut file: usize = 0;
    let mut run: u8 = 0;
    let ghost goal = old(out)@ + rank_text(*b, rank as int, 0, 0);
    while file < 8
        invariant
            rank < 8,
            file <= 8,
            run <= file,
            out@ + rank_text(*b, rank as int, file as int, run as int) == goal,
        decreases 8 - file,
    {
        let sq = Square::from_index(file + 8 * rank);
        let ghost before = out@;
        match b.get_piece(&sq) {
            Some(p) => {
                if run > 0 {
                    out.push((48u8 + run) as char);
                }
                out.push(p.to_char());
                proof {
                    assert(out@ =~= before + flush(run as int) + seq![p.letter()]);
                    assert(out@ + rank_text(*b, rank as int, file + 1, 0) =~= before + rank_text(
                        *b,
                        rank as int,
                        file as int,
                        run as int,
                    ));
                }
                run = 0;
            },
            None => {
                run += 1;
            },
        }
        file += 1;
    }
    let ghost before = out@;
    if run > 0 {
        out.push((48u8 + run) as char);
    }
    assert(out@ =~= before + flush(run as int));
}

/// Appends the placement field.
fn write_placement(out: &mut Vec<char>, b: &Bitboard)
    ensures
        final(out)@ == old(out)@ + placement_text(*b),
{
    write_rank(out, b, 7);
    let mut rank: usize = 7;
    while rank > 0
        invariant
            rank <= 7,
            out@ == old(out)@ + ranks_text(*b, rank as int),
        decreases rank,
    {
        let ghost before = out@;
        out.push('/');
        rank -= 1;
        write_rank(out, b, rank);
        assert(out@ =~= old(out)@ + ranks_text(*b, rank as int)) by {
            assert(out@ =~= before + seq!['/'] + rank_text(*b, rank as int, 0, 0));
        }
    }
}

/// Appends the castling field.
fn write_castling(out: &mut Vec<char>, c: u8)
    ensures
        final(out)@ == old(out)@ + castling_text(c as int),
{
    if c == 0 {
        out.push('-');
    } else {
        if c % 2 == 1 {
            out.push('K');
        }
        if (c / 2) % 2 == 1 {
            out.push('Q');
        }
        if (c / 4) % 2 == 1 {
            out.push('k');
        }
        if (c / 8) % 2 == 1 {
            out.push('q');
        }
    }
    assert(out@ =~= old(out)@ + castling_text(c as int));
}

/// Appends the en-passant field.
fn write_en_passant(out: &mut Vec<char>, e: Option<Square>)
    ensures
        final(out)@ == old(out)@ + en_passant_text(e),
{
    match e {
        Some(sq) => {
            write_square_name(out, sq.to_index());
        },
        None => {
            out.push('-');
            assert(out@ =~= old(out)@ + seq!['-']);
        },
    }
}

/// Appends the side field and the separators around it.
fn write_side(out: &mut Vec<char>, turn: Color)
    ensures
        final(out)@ == old(out)@ + seq![' '] + side_text(turn) + seq![' '],
{
    out.push(' ');
    match turn {
        Color::White => out.push('w'),
        Color::Black => out.push('b'),
    }
    out.push(' ');
    assert(out@ =~= old(out)@ + seq![' '] + side_text(turn) + seq![' ']);
}

/// Appends a separator.
fn write_space(out: &mut Vec<char>)
    ensures
        final(out)@ == old(out)@ + seq![' '],
{
    out.push(' ');
    assert(out@ =~= old(out)@ + seq![' ']);
}

impl Board {
    /// The six-field text of the position.
    pub fn to_fen(&self) -> (r: String)
        ensures
            r@ == fen_text(*self),
    {
        let mut out: Vec<char> = Vec::new();
        write_placement(&mut out, &self.bitboard);
        assert(out@ =~= placement_text(self.bitboard));
        write_side(&mut out, self.turn);
        write_castling(&mut out, self.castling.0);
        write_space(&mut out);
        write_en_passant(&mut out, self.en_passant);
        write_space(&mut out);
        write_decimal(&mut out, self.halfmove as u64);
        write_space(&mut out);
        write_decimal(&mut out, self.fullmove);
        string_of(&out)
    }
}

/// `sets` holds the pieces of `b` that stand on the ranks above `rank` and
/// on the files of `rank` before `file`, and nothing else.
pub open spec fn filled(sets: Seq<u64>, b: Bitboard, rank: int, file: int) -> bool {
    &&& sets.len() == 12
    &&& sets_disjoint(sets)
    &&& forall|j: int, t: int|
        0 <= j < 12 ==> #[trigger] mem(sets[j], t) == (mem(b.pieces@[j], t) && (rank_of(t) > rank || (
        rank_of(t) == rank && file_of(t) < file)))
}

/// A letter is neither `/` nor a digit, and reads back as its piece.
proof fn lemma_letter(p: Piece)
    ensures
        Piece::of_char(p.letter()) == Some(p),
        p.letter() != '/',
        !('1' <= p.letter() <= '8'),
        !is_space(p.letter()),
{
}

/// Reading the text of the rest of a rank fills in the rest of the rank.
proof fn lemma_read_rank(b: Bitboard, sets: Seq<u64>, rank: int, file: int, run: int)
    requires
        b.disjoint(),
        0 <= rank < 8,
        0 <= run <= file <= 8,
        filled(sets, b, rank, file),
    ensures
        ({
            let r = placement_run(rank_text(b, rank, file, run), Some((sets, rank, file - run)));
            r is Some && r->Some_0.1 == rank && r->Some_0.2 == 8 && filled(r->Some_0.0, b, rank, 8)
        }),
    decreases 8 - file,
{
    let st: Cursor = Some((sets, rank, file - run));
    let digit = seq![digit_char(run)];
    if run > 0 {
        lemma_run_one(digit_char(run), st);
        assert(placement_run(digit, st) == Some((sets, rank, file)));
    }
    assert(placement_run(flush(run), st) == Some((sets, rank, file)));
    if file < 8 {
        let q = file + 8 * rank;
        lemma_occupant(b, q);
        match b.occupant(q) {
            Some(p) => {
                lemma_letter(p);
                let idx = index_of(p.0, p.1);
                let next = placed(sets, bit(q), idx);
                let one = seq![p.letter()];
                let rest = rank_text(b, rank, file + 1, 0);
                lemma_run_split(flush(run) + one, rest, st);
                lemma_run_split(flush(run), one, st);
                lemma_run_one(p.letter(), Some((sets, rank, file)));
                assert(placement_run(flush(run) + one, st) == Some((next, rank, file + 1)));
                lemma_updates_disjoint(sets, q, idx);
                assert(piece_of(idx) == p);
                assert(filled(next, b, rank, file + 1)) by {
                    assert forall|j: int, t: int| 0 <= j < 12 implies #[trigger] mem(next[j], t) == (
                    mem(b.pieces@[j], t) && (rank_of(t) > rank || (rank_of(t) == rank && file_of(t)
                        < file + 1))) by {
                        lemma_placed(sets, q, idx, j, t);
                        if t == q {
                            assert(mem(b.pieces@[j], q) <==> b.occupant(q) == Some(piece_of(j)));
                            assert(mem(b.pieces@[idx], q));
                            if j != idx {
                                assert(piece_of(j) != piece_of(idx));
                            }
                        }
                    }
                }
                lemma_read_rank(b, next, rank, file + 1, 0);
            },
            None => {
                assert(filled(sets, b, rank, file + 1)) by {
                    assert forall|j: int, t: int| 0 <= j < 12 implies #[trigger] mem(sets[j], t) == (
                    mem(b.pieces@[j], t) && (rank_of(t) > rank || (rank_of(t) == rank && file_of(t)
                        < file + 1))) by {
                        if t == q {
                            assert(!mem(b.pieces@[j], q));
                        }
                    }
                }
                lemma_read_rank(b, sets, rank, file + 1, run + 1);
            },
        }
    }
}

/// Reading the text of the upper ranks fills in the upper ranks.
proof fn lemma_read_ranks(b: Bitboard, rank: int)
    requires
        b.disjoint(),
        0 <= rank <= 7,
    ensures
        ({
            let r = placement_run(ranks_text(b, rank), Some((no_pieces(), 7, 0)));
            r is Some && r->Some_0.1 == rank && r->Some_0.2 == 8 && filled(r->Some_0.0, b, rank, 8)
        }),
    decreases 7 - rank,
{
    let init: Cursor = Some((no_pieces(), 7, 0));
    if rank == 7 {
        assert(filled(no_pieces(), b, 7, 0)) by {
            assert forall|j: int, t: int| 0 <= j < 12 implies #[trigger] mem(no_pieces()[j], t) == (
            mem(b.pieces@[j], t) && (rank_of(t) > 7 || (rank_of(t) == 7 && file_of(t) < 0))) by {
                lemma_mem_zero(t);
            }
            assert forall|i: int, j: int, sq: int| 0 <= i < j < 12 && #[trigger] mem(
                no_pieces()[i],
                sq,
            ) implies !#[trigger] mem(no_pieces()[j], sq) by {
                lemma_mem_zero(sq);
            }
        }
        lemma_read_rank(b, no_pieces(), 7, 0, 0);
    } else {
        lemma_read_ranks(b, rank + 1);
        let upper = ranks_text(b, rank + 1);
        let st1 = placement_run(upper, init);
        let sets1 = st1->Some_0.0;
        let slash = seq!['/'];
        let lower = rank_text(b, rank, 0, 0);
        lemma_run_split(upper + slash, lower, init);
        lemma_run_split(upper, slash, init);
        lemma_run_one('/', st1);
        assert(placement_run(upper + slash, init) == Some((sets1, rank, 0int)));
        assert(filled(sets1, b, rank, 0)) by {
            assert forall|j: int, t: int| 0 <= j < 12 implies #[trigger] mem(sets1[j], t) == (mem(
                b.pieces@[j],
                t,
            ) && (rank_of(t) > rank || (rank_of(t) == rank && file_of(t) < 0))) by {
            }
        }
        lemma_read_rank(b, sets1, rank, 0, 0);
    }
}

/// The placement field reads back as the piece sets it was written from.
pub proof fn lemma_placement_round_trip(b: Bitboard)
    requires
        b.disjoint(),
    ensures
        parse_placement(placement_text(b)) == Some(b.pieces@),
{
    lemma_read_ranks(b, 0);
    let r = placement_run(ranks_text(b, 0), Some((no_pieces(), 7, 0)));
    let sets = r->Some_0.0;
    assert forall|j: int| 0 <= j < 12 implies sets[j] == b.pieces@[j] by {
        assert forall|t: int| 0 <= t < 64 implies mem(sets[j], t) == mem(b.pieces@[j], t) by {
        }
        lemma_ext(sets[j], b.pieces@[j]);
    }
    assert(sets =~= b.pieces@);
}

/// The castling field reads back as the rights it was written from.
pub proof fn lemma_castling_round_trip(c: int)
    requires
        0 <= c < 16,
    ensures
        parse_castling(castling_text(c)) == Some(c),
        castling_text(c).len() > 0,
        forall|i: int| 0 <= i < castling_text(c).len() ==> !is_space(#[trigger] castling_text(c)[i]),
{
    let tok = castling_text(c);
    if c == 0 {
        assert(right_of(tok[0]) == 0);
    }
    if c == 1 {
        assert(tok =~= seq!['K']);
        assert(right_of(tok[0]) == 1);
    }
    if c == 2 {
        assert(tok =~= seq!['Q']);
        assert(right_of(tok[0]) == 2);
    }
    if c == 3 {
        assert(tok =~= seq!['K', 'Q']);
        assert(right_of(tok[0]) == 1);
        assert(right_of(tok[1]) == 2);
    }
    if c == 4 {
        assert(tok =~= seq!['k']);
        assert(right_of(tok[0]) == 4);
    }
    if c == 5 {
        assert(tok =~= seq!['K', 'k']);
        assert(right_of(tok[0]) == 1);
        assert(right_of(tok[1]) == 4);
    }
    if c == 6 {
        assert(tok =~= seq!['Q', 'k']);
        assert(right_of(tok[0]) == 2);
        assert(right_of(tok[1]) == 4);
    }
    if c == 7 {
        assert(tok =~= seq!['K', 'Q', 'k']);
        assert(right_of(tok[0]) == 1);
        assert(right_of(tok[1]) == 2);
        assert(right_of(tok[2]) == 4);
    }
    if c == 8 {
        assert(tok =~= seq!['q']);
        assert(right_of(tok[0]) == 8);
    }
    if c == 9 {
        assert(tok =~= seq!['K', 'q']);
        assert(right_of(tok[0]) == 1);
        assert(right_of(tok[1]) == 8);
    }
    if c == 10 {
        assert(tok =~= seq!['Q', 'q']);
        assert(right_of(tok[0]) == 2);
        assert(right_of(tok[1]) == 8);
    }
    if c == 11 {
        assert(tok =~= seq!['K', 'Q', 'q']);
        assert(right_of(tok[0]) == 1);
        assert(right_of(tok[1]) == 2);
        assert(right_of(tok[2]) == 8);
    }
    if c == 12 {
        assert(tok =~= seq!['k', 'q']);
        assert(right_of(tok[0]) == 4);
        assert(right_of(tok[1]) == 8);
    }
    if c == 13 {
        assert(tok =~= seq!['K', 'k', 'q']);
        assert(right_of(tok[0]) == 1);
        assert(right_of(tok[1]) == 4);
        assert(right_of(tok[2]) == 8);
    }
    if c == 14 {
        assert(tok =~= seq!['Q', 'k', 'q']);
        assert(right_of(tok[0]) == 2);
        assert(right_of(tok[1]) == 4);
        assert(right_of(tok[2]) == 8);
    }
    if c == 15 {
        assert(tok =~= seq!['K', 'Q', 'k', 'q']);
        assert(right_of(tok[0]) == 1);
        assert(right_of(tok[1]) == 2);
        assert(right_of(tok[2]) == 4);
        assert(right_of(tok[3]) == 8);
    }
}

impl Board {
    /// What holds of every position that was read from text: no square is
    /// in two piece sets with the unions consistent, the castling rights are
    /// four flags, an en-passant target is one square, and the full-move
    /// number is at least 1.
    pub open spec fn printable(self) -> bool {
        &&& self.bitboard.wf()
        &&& self.castling.0 < 16
        &&& self.en_passant is Some ==> self.en_passant->Some_0.single()
        &&& self.fullmove >= 1
    }
}

/// A field that reads as a placement has no separator in it, and is not empty.
proof fn lemma_placement_chars(tok: Seq<char>, st: Cursor)
    requires
        placement_run(tok, st) is Some,
    ensures
        forall|i: int| 0 <= i < tok.len() ==> !is_space(#[trigger] tok[i]),
    decreases tok.len(),
{
    if tok.len() > 0 {
        lemma_placement_chars(tok.drop_last(), st);
        assert forall|i: int| 0 <= i < tok.len() implies !is_space(#[trigger] tok[i]) by {
            if i < tok.len() - 1 {
                assert(tok[i] == tok.drop_last()[i]);
            }
        }
    }
}

/// A token followed by a separator, or by the end of the text, is one field.
proof fn lemma_scan_token(s: Seq<char>, a: int, b: int)
    requires
        0 <= a <= b <= s.len(),
        a < s.len(),
        forall|i: int| a <= i < b ==> !is_space(#[trigger] s[i]),
        b == s.len() || is_space(s[b]),
    ensures
        a < b ==> skip_spaces(s, a) == a,
        token_end(s, a) == b,
    decreases b - a,
{
    if a < b {
        if a + 1 < s.len() {
            lemma_scan_token(s, a + 1, b);
        } else {
            assert(token_end(s, a + 1) == a + 1);
        }
    }
}

/// A token that can stand as a field: not empty, and without separators.
pub open spec fn clean(tok: Seq<char>) -> bool {
    tok.len() > 0 && forall|i: int| 0 <= i < tok.len() ==> !is_space(#[trigger] tok[i])
}

/// Scanning the text `pre + suf` from a position inside `suf` is scanning `suf`.
proof fn lemma_scan_shift(pre: Seq<char>, suf: Seq<char>, i: int)
    requires
        0 <= i <= suf.len(),
    ensures
        skip_spaces(pre + suf, pre.len() + i) == pre.len() + skip_spaces(suf, i),
        token_end(pre + suf, pre.len() + i) == pre.len() + token_end(suf, i),
    decreases suf.len() - i,
{
    if i < suf.len() {
        assert((pre + suf)[pre.len() + i] == suf[i]);
        lemma_scan_shift(pre, suf, i + 1);
    }
}

/// A text that starts with a token and goes on with a separator has that
/// token as its first field.
proof fn lemma_first_field(tok: Seq<char>, rest: Seq<char>)
    requires
        clean(tok),
        rest.len() == 0 || is_space(rest[0]),
    ensures
        skip_spaces(tok + rest, 0) == 0,
        token_end(tok + rest, 0) == tok.len(),
{
    let s = tok + rest;
    assert forall|i: int| 0 <= i < tok.len() implies !is_space(#[trigger] s[i]) by {
        assert(s[i] == tok[i]);
    }
    if rest.len() > 0 {
        assert(s[tok.len() as int] == rest[0]);
    }
    lemma_scan_token(s, 0, tok.len() as int);
}

/// The fields of `tok + " " + rest`, where `rest` starts with a field, are
/// `tok` and then those of `rest`, moved by the length of `tok` and one.
proof fn lemma_join_fields(tok: Seq<char>, rest: Seq<char>, n: nat)
    requires
        clean(tok),
        rest.len() > 0,
        !is_space(rest[0]),
    ensures
        field_start(tok + seq![' '] + rest, 0) == 0,
        field_stop(tok + seq![' '] + rest, 0) == tok.len(),
        field_start(tok + seq![' '] + rest, n + 1) == tok.len() + 1 + field_start(rest, n),
        field_stop(tok + seq![' '] + rest, n + 1) == tok.len() + 1 + field_stop(rest, n),
        0 <= field_start(rest, n) <= field_stop(rest, n) <= rest.len(),
    decreases n,
{
    let sp = seq![' '];
    let text = tok + sp + rest;
    let tail = sp + rest;
    assert(text =~= tok + tail);
    assert(tail[0] == ' ');
    lemma_first_field(tok, tail);
    lemma_scan_bounds(rest, 0);
    // Past the token, scanning goes on in `rest`.
    let pre = tok + sp;
    assert(text =~= pre + rest);
    assert(text[tok.len() as int] == ' ');
    if n == 0 {
        lemma_scan_shift(pre, rest, 0);
        assert(skip_spaces(rest, 0) == 0);
        assert(skip_spaces(text, tok.len() as int) == skip_spaces(text, (tok.len() + 1) as int));
        lemma_scan_bounds(rest, skip_spaces(rest, 0));
        lemma_scan_shift(pre, rest, field_start(rest, 0));
    } else {
        lemma_join_fields(tok, rest, (n - 1) as nat);
        let prev = field_start(rest, (n - 1) as nat);
        lemma_scan_bounds(rest, prev);
        let stop = token_end(rest, prev);
        lemma_scan_shift(pre, rest, prev);
        lemma_scan_bounds(rest, stop);
        lemma_scan_shift(pre, rest, stop);
        lemma_scan_bounds(rest, skip_spaces(rest, stop));
        lemma_scan_shift(pre, rest, field_start(rest, n));
    }
}

/// A single token is its own and only field.
proof fn lemma_one_field(tok: Seq<char>)
    requires
        clean(tok),
    ensures
        field_start(tok, 0) == 0,
        field_stop(tok, 0) == tok.len(),
        field_start(tok, 1) == tok.len(),
{
    assert(tok + Seq::<char>::empty() =~= tok);
    lemma_first_field(tok, Seq::<char>::empty());
}

/// Six tokens joined by single separators are the six fields of the text.
proof fn lemma_six_fields(
    t0: Seq<char>,
    t1: Seq<char>,
    t2: Seq<char>,
    t3: Seq<char>,
    t4: Seq<char>,
    t5: Seq<char>,
)
    requires
        clean(t0),
        clean(t1),
        clean(t2),
        clean(t3),
        clean(t4),
        clean(t5),
    ensures
        ({
            let sp = seq![' '];
            let text = t0 + sp + t1 + sp + t2 + sp + t3 + sp + t4 + sp + t5;
            &&& field(text, 0) == t0
            &&& field(text, 1) == t1
            &&& field(text, 2) == t2
            &&& field(text, 3) == t3
            &&& field(text, 4) == t4
            &&& field(text, 5) == t5
            &&& field_start(text, 5) < text.len()
            &&& field_start(text, 6) >= text.len()
        }),
{
    let sp = seq![' '];
    let r4 = t4 + sp + t5;
    let r3 = t3 + sp + r4;
    let r2 = t2 + sp + r3;
    let r1 = t1 + sp + r2;
    let r0 = t0 + sp + r1;
    let text = t0 + sp + t1 + sp + t2 + sp + t3 + sp + t4 + sp + t5;
    assert(text =~= r0);
    lemma_one_field(t5);
    lemma_join_fields(t4, t5, 0);
    lemma_join_fields(t4, t5, 1);
    assert(r4[0] == t4[0]);
    lemma_join_fields(t3, r4, 0);
    lemma_join_fields(t3, r4, 1);
    lemma_join_fields(t3, r4, 2);
    assert(r3[0] == t3[0]);
    lemma_join_fields(t2, r3, 0);
    lemma_join_fields(t2, r3, 1);
    lemma_join_fields(t2, r3, 2);
    lemma_join_fields(t2, r3, 3);
    assert(r2[0] == t2[0]);
    lemma_join_fields(t1, r2, 0);
    lemma_join_fields(t1, r2, 1);
    lemma_join_fields(t1, r2, 2);
    lemma_join_fields(t1, r2, 3);
    lemma_join_fields(t1, r2, 4);
    assert(r1[0] == t1[0]);
    lemma_join_fields(t0, r1, 0);
    lemma_join_fields(t0, r1, 1);
    lemma_join_fields(t0, r1, 2);
    lemma_join_fields(t0, r1, 3);
    lemma_join_fields(t0, r1, 4);
    lemma_join_fields(t0, r1, 5);
    assert(field(r4, 0) =~= t4);
    assert(field(r4, 1) =~= t5);
    assert(field(r3, 0) =~= t3);
    assert(field(r3, 1) =~= field(r4, 0));
    assert(field(r3, 2) =~= field(r4, 1));
    assert(field(r2, 0) =~= t2);
    assert(field(r2, 1) =~= field(r3, 0));
    assert(field(r2, 2) =~= field(r3, 1));
    assert(field(r2, 3) =~= field(r3, 2));
    assert(field(r1, 0) =~= t1);
    assert(field(r1, 1) =~= field(r2, 0));
    assert(field(r1, 2) =~= field(r2, 1));
    assert(field(r1, 3) =~= field(r2, 2));
    assert(field(r1, 4) =~= field(r2, 3));
    assert(field(r0, 0) =~= t0);
    assert(field(r0, 1) =~= field(r1, 0));
    assert(field(r0, 2) =~= field(r1, 1));
    assert(field(r0, 3) =~= field(r1, 2));
    assert(field(r0, 4) =~= field(r1, 3));
    assert(field(r0, 5) =~= field(r1, 4));
}

/// The six fields written for a position can each stand as a field.
proof fn lemma_fields_clean(b: Board)
    requires
        b.printable(),
    ensures
        clean(placement_text(b.bitboard)),
        clean(side_text(b.turn)),
        clean(castling_text(b.castling.0 as int)),
        clean(en_passant_text(b.en_passant)),
        clean(decimal_text(b.halfmove as int)),
        clean(decimal_text(b.fullmove as int)),
{
    let t0 = placement_text(b.bitboard);
    let t4 = decimal_text(b.halfmove as int);
    let t5 = decimal_text(b.fullmove as int);
    lemma_placement_round_trip(b.bitboard);
    lemma_placement_chars(t0, Some((no_pieces(), 7, 0)));
    assert(t0.len() > 0) by {
        if t0.len() == 0 {
            assert(placement_run(t0, Some((no_pieces(), 7, 0))) == Some((no_pieces(), 7int, 0int)));
        }
    }
    lemma_castling_round_trip(b.castling.0 as int);
    lemma_decimal_round_trip(b.halfmove as int);
    lemma_decimal_round_trip(b.fullmove as int);
    assert forall|i: int| 0 <= i < t4.len() implies !is_space(#[trigger] t4[i]) by {
        assert(crate::text::digit_value(t4[i]) >= 0);
    }
    assert forall|i: int| 0 <= i < t5.len() implies !is_space(#[trigger] t5[i]) by {
        assert(crate::text::digit_value(t5[i]) >= 0);
    }
    match b.en_passant {
        Some(e) => {
            vstd::std_specs::bits::axiom_u64_trailing_zeros(e.0);
            lemma_square_name_round_trip(e.pos());
        },
        None => {},
    }
}

/// Writing a position and reading the text gives the position back.
pub proof fn lemma_fen_round_trip(b: Board)
    requires
        b.printable(),
    ensures
        parse_fen(fen_text(b)) == Ok::<Layout, Error>(b.layout()),
{
    let t0 = placement_text(b.bitboard);
    let t1 = side_text(b.turn);
    let t2 = castling_text(b.castling.0 as int);
    let t3 = en_passant_text(b.en_passant);
    let t4 = decimal_text(b.halfmove as int);
    let t5 = decimal_text(b.fullmove as int);
    let text = fen_text(b);
    lemma_fields_clean(b);
    lemma_six_fields(t0, t1, t2, t3, t4, t5);
    lemma_placement_round_trip(b.bitboard);
    lemma_castling_round_trip(b.castling.0 as int);
    lemma_decimal_round_trip(b.halfmove as int);
    lemma_decimal_round_trip(b.fullmove as int);
    assert(parse_side(t1) == Some(b.turn)) by {
        assert(seq!['w'][0] != seq!['b'][0]);
    }
    assert(parse_en_passant(t3) == Some(b.layout().en_passant)) by {
        match b.en_passant {
            Some(e) => {
                vstd::std_specs::bits::axiom_u64_trailing_zeros(e.0);
                lemma_square_name_round_trip(e.pos());
                assert(t3.len() == 2);
                assert(seq!['-'].len() == 1);
            },
            None => {},
        }
    }
}

/// A position with consistent unions is determined by the fields of its text.
pub proof fn lemma_layout_determines(a: Board, b: Board)
    requires
        a.printable(),
        b.printable(),
        a.layout() == b.layout(),
    ensures
        a == b,
{
    assert(a.bitboard.pieces@ == b.bitboard.pieces@);
    assert(a.bitboard.pieces =~= b.bitboard.pieces);
    assert(a.bitboard == b.bitboard);
    assert(a.en_passant == b.en_passant) by {
        if a.en_passant is Some {
            assert(b.en_passant is Some);
        }
    }
}

} // verus!
