//! Pieces, squares and the full game state.

use vstd::prelude::*;
use crate::bitboard::{Bitboard, cleared, index_of, placed};
use crate::bits::{bit, lemma_lowest, lemma_mem_bit, lemma_mem_zero, mem, square_bb};
use crate::tables::rank_of;
use crate::text::{chars_of, string_of};
use crate::error::Error;

verus! {

/// The six kinds of piece.
#[derive(Debug, Clone, Copy, PartialEq, Eq, Structural)]
pub enum PieceType {
    Pawn,
    Knight,
    Bishop,
    Rook,
    Queen,
    King,
}

/// The two sides.
#[derive(Debug, Clone, Copy, PartialEq, Eq, Structural)]
pub enum Color {
    White,
    Black,
}

impl Color {
    /// The other side.
    pub open spec fn other(self) -> Color {
        match self {
            Color::White => Color::Black,
            Color::Black => Color::White,
        }
    }

    /// 0 for White, 1 for Black.
    pub open spec fn idx(self) -> int {
        match self {
            Color::White => 0,
            Color::Black => 1,
        }
    }

    /// The other side.
    #[verifier::when_used_as_spec(other)]
    pub fn opposite(self) -> (r: Color)
        ensures
            r == self.other(),
    {
        match self {
            Color::White => Color::Black,
            Color::Black => Color::White,
        }
    }

    /// 0 for White, 1 for Black.
    pub fn index(self) -> (r: usize)
        ensures
            r == self.idx(),
    {
        match self {
            Color::White => 0,
            Color::Black => 1,
        }
    }
}

/// A piece: its kind and its colour.
#[derive(Debug, Clone, Copy, PartialEq, Eq, Structural)]
pub struct Piece(pub PieceType, pub Color);

impl Piece {
    /// The piece a placement letter stands for: upper case is White, lower case Black.
    pub open spec fn of_char(c: char) -> Option<Piece> {
        if c == 'p' {
            Some(Piece(PieceType::Pawn, Color::Black))
        } else if c == 'n' {
            Some(Piece(PieceType::Knight, Color::Black))
        } else if c == 'b' {
            Some(Piece(PieceType::Bishop, Color::Black))
        } else if c == 'r' {
            Some(Piece(PieceType::Rook, Color::Black))
        } else if c == 'q' {
            Some(Piece(PieceType::Queen, Color::Black))
        } else if c == 'k' {
            Some(Piece(PieceType::King, Color::Black))
        } else if c == 'P' {
            Some(Piece(PieceType::Pawn, Color::White))
        } else if c == 'N' {
            Some(Piece(PieceType::Knight, Color::White))
        } else if c == 'B' {
            Some(Piece(PieceType::Bishop, Color::White))
        } else if c == 'R' {
            Some(Piece(PieceType::Rook, Color::White))
        } else if c == 'Q' {
            Some(Piece(PieceType::Queen, Color::White))
        } else if c == 'K' {
            Some(Piece(PieceType::King, Color::White))
        } else {
            None
        }
    }

    /// The placement letter of a piece.
    pub open spec fn letter(self) -> char {
        match self {
            Piece(PieceType::Pawn, Color::Black) => 'p',
            Piece(PieceType::Knight, Color::Black) => 'n',
            Piece(PieceType::Bishop, Color::Black) => 'b',
            Piece(PieceType::Rook, Color::Black) => 'r',
            Piece(PieceType::Queen, Color::Black) => 'q',
            Piece(PieceType::King, Color::Black) => 'k',
            Piece(PieceType::Pawn, Color::White) => 'P',
            Piece(PieceType::Knight, Color::White) => 'N',
            Piece(PieceType::Bishop, Color::White) => 'B',
            Piece(PieceType::Rook, Color::White) => 'R',
            Piece(PieceType::Queen, Color::White) => 'Q',
            Piece(PieceType::King, Color::White) => 'K',
        }
    }

    /// The piece a placement letter stands for.
    pub fn from_char(c: char) -> (r: Option<Piece>)
        ensures
            r == Piece::of_char(c),
    {
        match c {
            'p' => Some(Piece(PieceType::Pawn, Color::Black)),
            'n' => Some(Piece(PieceType::Knight, Color::Black)),
            'b' => Some(Piece(PieceType::Bishop, Color::Black)),
            'r' => Some(Piece(PieceType::Rook, Color::Black)),
            'q' => Some(Piece(PieceType::Queen, Color::Black)),
            'k' => Some(Piece(PieceType::King, Color::Black)),
            'P' => Some(Piece(PieceType::Pawn, Color::White)),
            'N' => Some(Piece(PieceType::Knight, Color::White)),
            'B' => Some(Piece(PieceType::Bishop, Color::White)),
            'R' => Some(Piece(PieceType::Rook, Color::White)),
            'Q' => Some(Piece(PieceType::Queen, Color::White)),
            'K' => Some(Piece(PieceType::King, Color::White)),
            _ => None,
        }
    }

    /// The placement letter of the piece.
    pub fn to_char(self) -> (r: char)
        ensures
            r == self.letter(),
            Piece::of_char(r) == Some(self),
    {
        match self {
            Piece(PieceType::Pawn, Color::Black) => 'p',
            Piece(PieceType::Knight, Color::Black) => 'n',
            Piece(PieceType::Bishop, Color::Black) => 'b',
            Piece(PieceType::Rook, Color::Black) => 'r',
            Piece(PieceType::Queen, Color::Black) => 'q',
            Piece(PieceType::King, Color::Black) => 'k',
            Piece(PieceType::Pawn, Color::White) => 'P',
            Piece(PieceType::Knight, Color::White) => 'N',
            Piece(PieceType::Bishop, Color::White) => 'B',
            Piece(PieceType::Rook, Color::White) => 'R',
            Piece(PieceType::Queen, Color::White) => 'Q',
            Piece(PieceType::King, Color::White) => 'K',
        }
    }
}

/// A set of squares as a 64-bit value; where a single square is meant, exactly
/// one bit is set, at the square's index (`a1` = 0, `h1` = 7, `a8` = 56).
#[derive(Debug, Clone, Copy, PartialEq, Eq, Structural)]
pub struct Square(pub u64);

impl Square {
    /// Exactly one square is held.
    pub open spec fn single(self) -> bool {
        self.0 != 0 && self.0 == bit(self.0.trailing_zeros() as int)
    }

    /// Index of the lowest square held; 64 when empty.
    pub open spec fn pos(self) -> int {
        self.0.trailing_zeros() as int
    }

    /// The square on `file` and `rank`, both counted from 0; an error when
    /// either is above 7.
    pub fn from(file: u8, rank: u8) -> (r: Result<Square, Error>)
        ensures
            (file > 7 || rank > 7) ==> r == Err::<Square, Error>(Error::InvalidSquare(file, rank)),
            (file <= 7 && rank <= 7) ==> r == Ok::<Square, Error>(Square(bit(file + rank * 8))),
            r is Ok ==> r->Ok_0.single() && r->Ok_0.pos() == file + rank * 8,
    {
        if file > 7 || rank > 7 {
            return Err(Error::InvalidSquare(file, rank));
        }
        let idx: u8 = file + rank * 8;
        let sq = Square::from_index(idx as usize);
        Ok(sq)
    }

    /// The single square with the given index.
    pub fn from_index(idx: usize) -> (r: Square)
        requires
            idx < 64,
        ensures
            r.0 == bit(idx as int),
            r.single(),
            r.pos() == idx,
    {
        let v = square_bb(idx);
        proof {
            lemma_single(idx as int);
        }
        Square(v)
    }

    /// Index of the lowest square held; 64 when empty.
    pub fn to_index(&self) -> (r: usize)
        ensures
            r == self.pos(),
            r <= 64,
            self.0 != 0 ==> r < 64,
            self.single() ==> self.0 == bit(r as int),
    {
        proof {
            vstd::std_specs::bits::axiom_u64_trailing_zeros(self.0);
        }
        self.0.trailing_zeros() as usize
    }

    /// Reads a square name: a file letter `a..h`, then a rank digit `1..8`.
    pub fn from_algebraic(s: &str) -> (r: Result<Square, Error>)
        ensures
            name_ok(s@) ==> r == Ok::<Square, Error>(Square(bit(named_index(s@)))),
            !name_ok(s@) ==> r == Err::<Square, Error>(Error::InvalidAlgebraicNotation),
    {
        let chars = chars_of(s);
        match square_from_chars(&chars, 0, chars.len()) {
            Some(sq) => {
                assert(chars@.subrange(0, chars@.len() as int) =~= chars@);
                Ok(sq)
            },
            None => {
                assert(chars@.subrange(0, chars@.len() as int) =~= chars@);
                Err(Error::InvalidAlgebraicNotation)
            },
        }
    }

    /// The name of the lowest square held.
    pub fn to_algebraic(&self) -> (r: String)
        ensures
            r@ == square_name(self.pos()),
    {
        let mut out: Vec<char> = Vec::new();
        write_square_name(&mut out, self.to_index());
        string_of(&out)
    }

    /// File of the lowest square held, 0 for the a-file.
    pub fn file(&self) -> (r: u8)
        ensures
            r == self.pos() % 8,
    {
        proof {
            vstd::std_specs::bits::axiom_u64_trailing_zeros(self.0);
        }
        (self.0.trailing_zeros() as u8) % 8
    }

    /// Rank of the lowest square held, 0 for the first rank.
    pub fn rank(&self) -> (r: u8)
        ensures
            r == self.pos() / 8,
    {
        proof {
            vstd::std_specs::bits::axiom_u64_trailing_zeros(self.0);
        }
        (self.0.trailing_zeros() as u8) / 8
    }
}

/// The value with one bit set has that bit as its lowest member.
pub proof fn lemma_single(idx: int)
    requires
        0 <= idx < 64,
    ensures
        bit(idx) != 0,
        bit(idx).trailing_zeros() == idx,
        Square(bit(idx)).single(),
{
    let v = bit(idx);
    lemma_mem_bit(idx, idx);
    lemma_mem_zero(idx);
    lemma_lowest(v);
    lemma_mem_bit(idx, v.trailing_zeros() as int);
}

/// Castling rights as four flags: 1 White king side, 2 White queen side,
/// 4 Black king side, 8 Black queen side.
#[derive(Debug, Clone, Copy, PartialEq, Eq, Structural)]
pub struct CastlingRights(pub u8);

/// The four castling flags.
pub const CASTLE_WK: u8 = 1;
pub const CASTLE_WQ: u8 = 2;
pub const CASTLE_BK: u8 = 4;
pub const CASTLE_BQ: u8 = 8;

impl CastlingRights {
    /// The right with flag `flag` is held.
    pub open spec fn holds(self, flag: u8) -> bool {
        self.0 & flag != 0
    }

    /// Whether the right with flag `flag` is held.
    pub fn has_right(&self, flag: u8) -> (r: bool)
        ensures
            r == self.holds(flag),
    {
        self.0 & flag != 0
    }
}

/// The full game state.
#[derive(Debug, Clone, Copy, PartialEq, Eq)]
pub struct Board {
    pub bitboard: Bitboard,
    pub turn: Color,
    pub en_passant: Option<Square>,
    pub castling: CastlingRights,
    pub halfmove: u16,
    pub fullmove: u64,
}

impl Board {
    /// The squares holding pieces of one kind and colour.
    pub open spec fn set_of(self, piece_type: PieceType, color: Color) -> u64 {
        self.bitboard.pieces@[index_of(piece_type, color)]
    }

    /// The squares holding pieces of one colour.
    pub open spec fn side(self, color: Color) -> u64 {
        match color {
            Color::White => self.bitboard.white,
            Color::Black => self.bitboard.black,
        }
    }

    /// The square of a colour's king.
    pub open spec fn king_pos(self, color: Color) -> int {
        self.set_of(PieceType::King, color).trailing_zeros() as int
    }

    /// The en-passant target square, or -1 when there is none.
    pub open spec fn ep_pos(self) -> int {
        match self.en_passant {
            Some(e) => e.pos(),
            None => -1,
        }
    }

    /// A castling right is held only with king and rook on their home squares.
    pub open spec fn castling_sound(self) -> bool {
        &&& self.castling.0 < 16
        &&& self.castling.holds(CASTLE_WK) ==> mem(self.set_of(PieceType::King, Color::White), 4)
            && mem(self.set_of(PieceType::Rook, Color::White), 7)
        &&& self.castling.holds(CASTLE_WQ) ==> mem(self.set_of(PieceType::King, Color::White), 4)
            && mem(self.set_of(PieceType::Rook, Color::White), 0)
        &&& self.castling.holds(CASTLE_BK) ==> mem(self.set_of(PieceType::King, Color::Black), 60)
            && mem(self.set_of(PieceType::Rook, Color::Black), 63)
        &&& self.castling.holds(CASTLE_BQ) ==> mem(self.set_of(PieceType::King, Color::Black), 60)
            && mem(self.set_of(PieceType::Rook, Color::Black), 56)
    }

    /// An en-passant target lies behind an enemy pawn that has just made a
    /// double push: on the sixth rank for White to move, on the third for
    /// Black, free itself, with the pawn one rank further and the pawn's
    /// starting square free.
    pub open spec fn en_passant_sound(self) -> bool {
        match self.en_passant {
            None => true,
            Some(e) => {
                let t = e.pos();
                &&& e.single()
                &&& !mem(self.bitboard.all, t)
                &&& match self.turn {
                    Color::White => {
                        &&& rank_of(t) == 5
                        &&& mem(self.set_of(PieceType::Pawn, Color::Black), t - 8)
                        &&& !mem(self.bitboard.all, t + 8)
                    },
                    Color::Black => {
                        &&& rank_of(t) == 2
                        &&& mem(self.set_of(PieceType::Pawn, Color::White), t + 8)
                        &&& !mem(self.bitboard.all, t - 8)
                    },
                }
            },
        }
    }

    /// The position is one the move generator accepts: disjoint piece sets
    /// with consistent unions, exactly one king a side, no pawn on the first
    /// or last rank, sound castling rights and a sound en-passant target.
    pub open spec fn valid(self) -> bool {
        &&& self.bitboard.wf()
        &&& Square(self.set_of(PieceType::King, Color::White)).single()
        &&& Square(self.set_of(PieceType::King, Color::Black)).single()
        &&& forall|sq: int| #[trigger]
            mem(self.set_of(PieceType::Pawn, Color::White), sq) ==> 1 <= rank_of(sq) <= 6
        &&& forall|sq: int| #[trigger]
            mem(self.set_of(PieceType::Pawn, Color::Black), sq) ==> 1 <= rank_of(sq) <= 6
        &&& self.castling_sound()
        &&& self.en_passant_sound()
    }

    /// The squares holding pieces of one kind and colour.
    pub fn pieces(&self, piece_type: PieceType, color: Color) -> (r: u64)
        ensures
            r == self.set_of(piece_type, color),
    {
        self.bitboard.piece_bb(piece_type, color)
    }

    /// The squares holding pieces of one colour.
    pub fn occupancy(&self, color: Color) -> (r: u64)
        ensures
            r == self.side(color),
    {
        self.bitboard.occupancy(color)
    }

    /// The squares holding any piece.
    pub fn all_occupancy(&self) -> (r: u64)
        ensures
            r == self.bitboard.all,
    {
        self.bitboard.all
    }

    /// The side to move.
    pub fn side_to_move(&self) -> (r: Color)
        ensures
            r == self.turn,
    {
        self.turn
    }

    /// The square of the king of `color`.
    pub fn king_square(&self, color: Color) -> (r: usize)
        requires
            Square(self.set_of(PieceType::King, color)).single(),
        ensures
            r == self.king_pos(color),
            r < 64,
            self.set_of(PieceType::King, color) == bit(r as int),
    {
        let king = self.bitboard.piece_bb(PieceType::King, color);
        Square(king).to_index()
    }

    /// Puts `piece` on `square`; the rest of the state stays.
    pub fn set_piece(&mut self, square: Square, piece: Piece)
        ensures
            final(self).bitboard.pieces@ == placed(
                old(self).bitboard.pieces@,
                square.0,
                index_of(piece.0, piece.1),
            ),
            final(self).bitboard.consistent(),
            final(self).turn == old(self).turn,
            final(self).en_passant == old(self).en_passant,
            final(self).castling == old(self).castling,
            final(self).halfmove == old(self).halfmove,
            final(self).fullmove == old(self).fullmove,
    {
        self.bitboard.set_piece(square, piece);
    }

    /// The piece found on `square`, if any.
    pub fn get_piece(&self, square: &Square) -> (r: Option<Piece>)
        ensures
            r == self.bitboard.piece_at(square.0),
    {
        self.bitboard.get_piece(square)
    }

    /// Takes off the piece found on `square`; the rest of the state stays.
    pub fn remove_piece(&mut self, square: &Square)
        ensures
            final(self).bitboard.pieces@ == cleared(old(self).bitboard.pieces@, square.0),
            old(self).bitboard.piece_at(square.0) is Some || old(self).bitboard.consistent()
                ==> final(self).bitboard.consistent(),
            old(self).bitboard.piece_at(square.0) is None ==> *final(self) == *old(self),
            final(self).turn == old(self).turn,
            final(self).en_passant == old(self).en_passant,
            final(self).castling == old(self).castling,
            final(self).halfmove == old(self).halfmove,
            final(self).fullmove == old(self).fullmove,
    {
        self.bitboard.remove_piece(square);
    }

    /// No piece stands on a square of `square`.
    pub fn is_square_empty(&self, square: &Square) -> (r: bool)
        ensures
            r == (self.bitboard.all & square.0 == 0),
    {
        self.bitboard.is_square_empty(square)
    }
}

/// The piece sets of the initial position.
pub open spec fn initial_sets() -> Seq<u64> {
    seq![
        0xFF00u64,
        0x42u64,
        0x24u64,
        0x81u64,
        0x08u64,
        0x10u64,
        0xFF000000000000u64,
        0x4200000000000000u64,
        0x2400000000000000u64,
        0x8100000000000000u64,
        0x0800000000000000u64,
        0x1000000000000000u64,
    ]
}

impl Default for Board {
    /// The initial position.
    fn default() -> (r: Board)
        ensures
            r.bitboard.pieces@ == initial_sets(),
            r.bitboard.consistent(),
            r.turn == Color::White,
            r.castling == CastlingRights(15),
            r.en_passant is None,
            r.halfmove == 0,
            r.fullmove == 1,
            r.sound(),
    {
        let pieces: [u64; 12] = [
            0xFF00,
            0x42,
            0x24,
            0x81,
            0x08,
            0x10,
            0xFF000000000000,
            0x4200000000000000,
            0x2400000000000000,
            0x8100000000000000,
            0x0800000000000000,
            0x1000000000000000,
        ];
        assert(pieces@ =~= initial_sets());
        let board = Board {
            bitboard: Bitboard::from_pieces(pieces),
            turn: Color::White,
            castling: CastlingRights(0b1111),
            en_passant: None,
            halfmove: 0,
            fullmove: 1,
        };
        proof {
            crate::sound::lemma_initial_sound(board);
        }
        board
    }
}

/// The text is a square name: a file letter `a..h`, then a rank digit `1..8`.
pub open spec fn name_ok(s: Seq<char>) -> bool {
    s.len() == 2 && 'a' <= s[0] <= 'h' && '1' <= s[1] <= '8'
}

/// The index of the square a name stands for.
pub open spec fn named_index(s: Seq<char>) -> int {
    (s[0] as int - 97) + 8 * (s[1] as int - 49)
}

/// The name of the square with index `idx`.
pub open spec fn square_name(idx: int) -> Seq<char> {
    seq![(97 + idx % 8) as char, (49 + idx / 8) as char]
}

/// Reads the square name in `chars[start..end]`.
pub fn square_from_chars(chars: &Vec<char>, start: usize, end: usize) -> (r: Option<Square>)
    requires
        start <= end <= chars@.len(),
    ensures
        name_ok(chars@.subrange(start as int, end as int)) ==> r == Some(
            Square(bit(named_index(chars@.subrange(start as int, end as int)))),
        ) && r->Some_0.single() && r->Some_0.pos() == named_index(
            chars@.subrange(start as int, end as int),
        ),
        !name_ok(chars@.subrange(start as int, end as int)) ==> r is None,
{
    if end - start != 2 {
        return None;
    }
    let file = chars[start];
    let rank = chars[start + 1];
    let ghost tok = chars@.subrange(start as int, end as int);
    assert(tok[0] == file && tok[1] == rank);
    if file < 'a' || file > 'h' || rank < '1' || rank > '8' {
        return None;
    }
    let f = (file as u32 - 'a' as u32) as u8;
    let r = (rank as u32 - '1' as u32) as u8;
    match Square::from(f, r) {
        Ok(sq) => Some(sq),
        Err(_) => None,
    }
}

/// Appends the name of the square with index `idx`.
pub fn write_square_name(out: &mut Vec<char>, idx: usize)
    requires
        idx <= 64,
    ensures
        final(out)@ == old(out)@ + square_name(idx as int),
{
    let file = (idx % 8) as u8;
    let rank = (idx / 8) as u8;
    out.push((97u8 + file) as char);
    out.push((49u8 + rank) as char);
    assert(out@ =~= old(out)@ + square_name(idx as int));
}

/// A square's name reads back as the square.
pub proof fn lemma_square_name_round_trip(idx: int)
    requires
        0 <= idx < 64,
    ensures
        name_ok(square_name(idx)),
        named_index(square_name(idx)) == idx,
{
}

} // verus!
