//! The packed 16-bit move and the list the generator fills.

use vstd::prelude::*;
use crate::board::{square_name, write_square_name};
use crate::text::string_of;

verus! {

/// The values of the 4-bit flag.
pub const FLAG_QUIET: u16 = 0;
pub const FLAG_DOUBLE_PUSH: u16 = 1;
pub const FLAG_KING_CASTLE: u16 = 2;
pub const FLAG_QUEEN_CASTLE: u16 = 3;
pub const FLAG_CAPTURE: u16 = 4;
pub const FLAG_EP_CAPTURE: u16 = 5;
pub const FLAG_PROMO_N: u16 = 8;
pub const FLAG_PROMO_B: u16 = 9;
pub const FLAG_PROMO_R: u16 = 10;
pub const FLAG_PROMO_Q: u16 = 11;
pub const FLAG_PROMO_CAPTURE_N: u16 = 12;
pub const FLAG_PROMO_CAPTURE_B: u16 = 13;
pub const FLAG_PROMO_CAPTURE_R: u16 = 14;
pub const FLAG_PROMO_CAPTURE_Q: u16 = 15;

/// A move packed into 16 bits: bits 0..5 the source square, bits 6..11 the
/// destination square, bits 12..15 the flag.
#[derive(Debug, Clone, Copy, PartialEq, Eq, Structural)]
pub struct Move(pub u16);

/// The packed value of a source, a destination and a flag.
pub open spec fn pack(from: int, to: int, flags: int) -> int {
    from + 64 * to + 4096 * flags
}

impl Move {
    /// Source square.
    pub open spec fn src(self) -> int {
        self.0 as int % 64
    }

    /// Destination square.
    pub open spec fn dst(self) -> int {
        (self.0 as int / 64) % 64
    }

    /// The 4-bit flag.
    pub open spec fn flag(self) -> int {
        self.0 as int / 4096
    }

    /// Packs a source square, a destination square and a flag.
    pub fn new(from: usize, to: usize, flags: u16) -> (m: Move)
        requires
            from < 64,
            to < 64,
            flags < 16,
        ensures
            m.0 == pack(from as int, to as int, flags as int),
            m.src() == from,
            m.dst() == to,
            m.flag() == flags,
    {
        let f = from as u16;
        let t = to as u16;
        let v = f | (t << 6) | (flags << 12);
        assert(v == f + 64 * t + 4096 * flags) by (bit_vector)
            requires
                f < 64,
                t < 64,
                flags < 16,
                v == f | (t << 6) | (flags << 12),
        ;
        Move(v)
    }

    /// Source square.
    pub fn from(&self) -> (r: usize)
        ensures
            r == self.src(),
            r < 64,
    {
        let v = self.0;
        assert(v & 0x3F == v % 64) by (bit_vector);
        (self.0 & 0x3F) as usize
    }

    /// Destination square.
    pub fn to(&self) -> (r: usize)
        ensures
            r == self.dst(),
            r < 64,
    {
        let v = self.0;
        assert((v >> 6) & 0x3F == (v / 64) % 64) by (bit_vector);
        ((self.0 >> 6) & 0x3F) as usize
    }

    /// The 4-bit flag.
    pub fn flags(&self) -> (r: u16)
        ensures
            r == self.flag(),
            r < 16,
    {
        let v = self.0;
        assert(v >> 12 == v / 4096) by (bit_vector);
        self.0 >> 12
    }

    /// The move as text: source square, destination square, and for a
    /// promotion the letter of the piece the pawn becomes.
    pub fn to_uci(&self) -> (r: String)
        ensures
            r@ == uci_text(*self),
    {
        let mut out: Vec<char> = Vec::new();
        write_uci(&mut out, *self);
        string_of(&out)
    }

    /// The move takes a piece: flag 4, 5 or 12..15.
    pub open spec fn capture(self) -> bool {
        self.flag() == 4 || self.flag() == 5 || self.flag() >= 12
    }

    /// The move promotes a pawn: flag 8 or above.
    pub open spec fn promotion(self) -> bool {
        self.flag() >= 8
    }

    /// The move castles: flag 2 or 3.
    pub open spec fn castle(self) -> bool {
        self.flag() == 2 || self.flag() == 3
    }

    /// Whether the move takes a piece.
    pub fn is_capture(&self) -> (r: bool)
        ensures
            r == self.capture(),
    {
        let f = self.flags();
        f == FLAG_CAPTURE || f == FLAG_EP_CAPTURE || f >= FLAG_PROMO_CAPTURE_N
    }

    /// Whether the move promotes a pawn.
    pub fn is_promotion(&self) -> (r: bool)
        ensures
            r == self.promotion(),
    {
        self.flags() >= FLAG_PROMO_N
    }

    /// Whether the move castles.
    pub fn is_castle(&self) -> (r: bool)
        ensures
            r == self.castle(),
    {
        let f = self.flags();
        f == FLAG_KING_CASTLE || f == FLAG_QUEEN_CASTLE
    }
}

/// Unpacking a packed triple gives the triple back, and a move is the
/// packing of its three parts.
pub proof fn lemma_pack_unpack(from: int, to: int, flags: int, m: Move)
    requires
        0 <= from < 64,
        0 <= to < 64,
        0 <= flags < 16,
    ensures
        0 <= pack(from, to, flags) < 65536,
        Move(pack(from, to, flags) as u16).src() == from,
        Move(pack(from, to, flags) as u16).dst() == to,
        Move(pack(from, to, flags) as u16).flag() == flags,
        m.0 == pack(m.src(), m.dst(), m.flag()),
        0 <= m.src() < 64 && 0 <= m.dst() < 64 && 0 <= m.flag() < 16,
{
}

/// Moves in the order the generator found them.
#[derive(Debug, Clone)]
pub struct MoveList {
    pub moves: Vec<Move>,
}

impl View for MoveList {
    type V = Seq<Move>;

    open spec fn view(&self) -> Seq<Move> {
        self.moves@
    }
}

impl MoveList {
    /// An empty list with room for 256 moves.
    pub fn new() -> (r: MoveList)
        ensures
            r@ == Seq::<Move>::empty(),
    {
        MoveList { moves: Vec::with_capacity(256) }
    }

    /// Appends a move.
    pub fn push(&mut self, m: Move)
        ensures
            final(self)@ == old(self)@.push(m),
    {
        self.moves.push(m);
    }

    /// Number of moves.
    pub fn len(&self) -> (r: usize)
        ensures
            r == self@.len(),
    {
        self.moves.len()
    }

    /// Whether the list holds no move.
    pub fn is_empty(&self) -> (r: bool)
        ensures
            r == (self@.len() == 0),
    {
        self.moves.len() == 0
    }

    /// The move at position `i`.
    pub fn get(&self, i: usize) -> (r: Move)
        requires
            i < self@.len(),
        ensures
            r == self@[i as int],
    {
        self.moves[i]
    }

    /// The moves, in order.
    pub fn as_slice(&self) -> (r: &[Move])
        ensures
            r@ == self@,
    {
        self.moves.as_slice()
    }
}

/// The letter of the piece a pawn becomes with the given flag; nothing for
/// a flag that is no promotion.
pub open spec fn promo_text(flag: int) -> Seq<char> {
    if flag == 8 || flag == 12 {
        seq!['n']
    } else if flag == 9 || flag == 13 {
        seq!['b']
    } else if flag == 10 || flag == 14 {
        seq!['r']
    } else if flag == 11 || flag == 15 {
        seq!['q']
    } else {
        Seq::empty()
    }
}

/// The text of a move.
pub open spec fn uci_text(m: Move) -> Seq<char> {
    square_name(m.src()) + square_name(m.dst()) + promo_text(m.flag())
}

/// Appends the text of a move.
pub fn write_uci(out: &mut Vec<char>, m: Move)
    ensures
        final(out)@ == old(out)@ + uci_text(m),
{
    write_square_name(out, m.from());
    write_square_name(out, m.to());
    let ghost mid = out@;
    let f = m.flags();
    if f == FLAG_PROMO_N || f == FLAG_PROMO_CAPTURE_N {
        out.push('n');
    } else if f == FLAG_PROMO_B || f == FLAG_PROMO_CAPTURE_B {
        out.push('b');
    } else if f == FLAG_PROMO_R || f == FLAG_PROMO_CAPTURE_R {
        out.push('r');
    } else if f == FLAG_PROMO_Q || f == FLAG_PROMO_CAPTURE_Q {
        out.push('q');
    }
    assert(out@ =~= mid + promo_text(m.flag()));
    assert(out@ =~= old(out)@ + uci_text(m));
}

/// Moves with the same text have the same squares, and promote alike.
pub proof fn lemma_uci_text_parts(a: Move, b: Move)
    requires
        uci_text(a) == uci_text(b),
    ensures
        a.src() == b.src(),
        a.dst() == b.dst(),
        promo_text(a.flag()) == promo_text(b.flag()),
{
    lemma_pack_unpack(0, 0, 0, a);
    lemma_pack_unpack(0, 0, 0, b);
    let ta = uci_text(a);
    let tb = uci_text(b);
    let na = square_name(a.src()) + square_name(a.dst());
    let nb = square_name(b.src()) + square_name(b.dst());
    assert(ta[0] == square_name(a.src())[0] && ta[1] == square_name(a.src())[1]);
    assert(tb[0] == square_name(b.src())[0] && tb[1] == square_name(b.src())[1]);
    assert(ta[2] == square_name(a.dst())[0] && ta[3] == square_name(a.dst())[1]);
    assert(tb[2] == square_name(b.dst())[0] && tb[3] == square_name(b.dst())[1]);
    assert(ta.len() == 4 + promo_text(a.flag()).len());
    assert(tb.len() == 4 + promo_text(b.flag()).len());
    if promo_text(a.flag()).len() > 0 {
        assert(ta[4] == promo_text(a.flag())[0]);
        assert(tb[4] == promo_text(b.flag())[0]);
    }
    assert(promo_text(a.flag()) =~= promo_text(b.flag()));
}

} // verus!
