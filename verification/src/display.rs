//! Text forms for people: the board as a diagram, and errors as messages.

use vstd::prelude::*;
use crate::bitboard::{first_at, Bitboard};
use crate::bits::{bit, square_bb};
use crate::error::Error;
use crate::text::{chars_of, decimal_text, digit_char, string_of, write_decimal};

verus! {

/// The figure drawn for the piece set at a position of the canonical order.
pub open spec fn figure(index: int) -> char {
    if index == 0 {
        '♟'
    } else if index == 1 {
        '♞'
    } else if index == 2 {
        '♝'
    } else if index == 3 {
        '♜'
    } else if index == 4 {
        '♛'
    } else if index == 5 {
        '♚'
    } else if index == 6 {
        '♙'
    } else if index == 7 {
        '♘'
    } else if index == 8 {
        '♗'
    } else if index == 9 {
        '♖'
    } else if index == 10 {
        '♕'
    } else {
        '♔'
    }
}

/// What is drawn for one square: the figure of the first set that holds
/// it, or a dot; then a space.
pub open spec fn cell_text(b: Bitboard, sq: int) -> Seq<char> {
    let i = first_at(b.pieces@, bit(sq));
    if i < 12 {
        seq![figure(i), ' ']
    } else {
        seq!['.', ' ']
    }
}

/// The squares of `rank` from `file` on, and the end of the line.
pub open spec fn row_text(b: Bitboard, rank: int, file: int) -> Seq<char>
    decreases 8 - file,
{
    if file >= 8 {
        seq!['\n']
    } else {
        cell_text(b, file + 8 * rank) + row_text(b, rank, file + 1)
    }
}

/// The line under the board that names the files.
pub open spec fn files_text() -> Seq<char> {
    "  a b c d e f g h\n"@
}

/// The ranks from `rank` down to the first, each led by its number, and
/// the line that names the files.
pub open spec fn rows_text(b: Bitboard, rank: int) -> Seq<char>
    decreases rank + 1,
{
    if rank < 0 {
        files_text()
    } else {
        seq![digit_char(rank + 1), ' '] + row_text(b, rank, 0) + rows_text(b, rank - 1)
    }
}

/// The figure drawn for the piece set at a position of the canonical order.
fn figure_of(index: usize) -> (c: char)
    requires
        index < 12,
    ensures
        c == figure(index as int),
{
    match index {
        0 => '♟',
        1 => '♞',
        2 => '♝',
        3 => '♜',
        4 => '♛',
        5 => '♚',
        6 => '♙',
        7 => '♘',
        8 => '♗',
        9 => '♖',
        10 => '♕',
        _ => '♔',
    }
}

/// Appends what is drawn for the square with index `sq`.
fn write_cell(out: &mut Vec<char>, b: &Bitboard, sq: usize)
    requires
        sq < 64,
    ensures
        final(out)@ == old(out)@ + cell_text(*b, sq as int),
{
    let sq_bit = square_bb(sq);
    let mut index: usize = 0;
    while index < 12
        invariant
            index <= 12,
            sq_bit == bit(sq as int),
            out@ == old(out)@,
            forall|j: int| 0 <= j < index ==> b.pieces@[j] & sq_bit == 0,
        decreases 12 - index,
    {
        if b.pieces[index] & sq_bit != 0 {
            out.push(figure_of(index));
            out.push(' ');
            assert(out@ =~= old(out)@ + cell_text(*b, sq as int));
            return ;
        }
        index += 1;
    }
    out.push('.');
    out.push(' ');
    assert(out@ =~= old(out)@ + cell_text(*b, sq as int));
}

/// Appends the characters of `text`.
pub fn write_text(out: &mut Vec<char>, text: &str)
    ensures
        final(out)@ == old(out)@ + text@,
{
    let chars = chars_of(text);
    let mut i: usize = 0;
    while i < chars.len()
        invariant
            i <= chars@.len(),
            chars@ == text@,
            out@ == old(out)@ + chars@.subrange(0, i as int),
        decreases chars@.len() - i,
    {
        out.push(chars[i]);
        assert(chars@.subrange(0, i + 1) =~= chars@.subrange(0, i as int).push(chars@[i as int]));
        assert(out@ =~= old(out)@ + chars@.subrange(0, i + 1));
        i += 1;
    }
    assert(chars@.subrange(0, chars@.len() as int) =~= chars@);
}

impl Bitboard {
    /// The board as a diagram: the eighth rank first, each rank led by its
    /// number, and a last line that names the files.
    pub fn to_text(&self) -> (r: String)
        ensures
            r@ == rows_text(*self, 7),
    {
        let mut out: Vec<char> = Vec::new();
        let mut rank: usize = 8;
        let ghost goal = rows_text(*self, 7);
        while rank > 0
            invariant
                rank <= 8,
                goal == rows_text(*self, 7),
                out@ + rows_text(*self, rank - 1) == goal,
            decreases rank,
        {
            rank -= 1;
            let ghost start = out@;
            out.push((49u8 + rank as u8) as char);
            out.push(' ');
            let ghost head = out@;
            assert(head =~= start + seq![digit_char(rank + 1), ' ']);
            let mut file: usize = 0;
            while file < 8
                invariant
                    rank < 8,
                    file <= 8,
                    out@ + row_text(*self, rank as int, file as int) == head + row_text(
                        *self,
                        rank as int,
                        0,
                    ),
                decreases 8 - file,
            {
                let ghost before = out@;
                write_cell(&mut out, self, file + rank * 8);
                assert(out@ + row_text(*self, rank as int, file + 1) =~= before + row_text(
                    *self,
                    rank as int,
                    file as int,
                ));
                file += 1;
            }
            let ghost before = out@;
            out.push('\n');
            assert(out@ =~= before + row_text(*self, rank as int, 8));
            assert(out@ + rows_text(*self, rank - 1) =~= start + rows_text(*self, rank as int));
        }
        write_text(&mut out, "  a b c d e f g h\n");
        string_of(&out)
    }
}

/// The message for an error.
pub open spec fn message_text(e: Error) -> Seq<char> {
    match e {
        Error::InvalidSquare(file, rank) => "Invalid square: "@ + decimal_text(file as int)
            + decimal_text(rank as int),
        Error::InvalidAlgebraicNotation => "Invalid algebraic notation"@,
        Error::InvalidFen => "Invalid FEN"@,
        Error::InvalidPlacement => "Invalid piece placement"@,
        Error::InvalidSide => "Error parsing turn-to-move"@,
        Error::InvalidCastling => "Invalid castling rights"@,
        Error::InvalidEnPassant => "Invalid en-passant square"@,
        Error::InvalidCounter => "Invalid move counter"@,
        Error::InvalidMove(mv) => "Invalid move: "@ + mv@,
    }
}

impl Error {
    /// The error as a message.
    pub fn message(&self) -> (r: String)
        ensures
            r@ == message_text(*self),
    {
        let mut out: Vec<char> = Vec::new();
        match self {
            Error::InvalidSquare(file, rank) => {
                write_text(&mut out, "Invalid square: ");
                write_decimal(&mut out, *file as u64);
                write_decimal(&mut out, *rank as u64);
            },
            Error::InvalidAlgebraicNotation => {
                write_text(&mut out, "Invalid algebraic notation");
            },
            Error::InvalidFen => {
                write_text(&mut out, "Invalid FEN");
            },
            Error::InvalidPlacement => {
                write_text(&mut out, "Invalid piece placement");
            },
            Error::InvalidSide => {
                write_text(&mut out, "Error parsing turn-to-move");
            },
            Error::InvalidCastling => {
                write_text(&mut out, "Invalid castling rights");
            },
            Error::InvalidEnPassant => {
                write_text(&mut out, "Invalid en-passant square");
            },
            Error::InvalidCounter => {
                write_text(&mut out, "Invalid move counter");
            },
            Error::InvalidMove(mv) => {
                write_text(&mut out, "Invalid move: ");
                write_text(&mut out, mv.as_str());
            },
        }
        assert(out@ =~= message_text(*self));
        string_of(&out)
    }
}

} // verus!
