//! Twelve piece sets with their per-colour and overall unions.

use vstd::prelude::*;
use crate::bits::{bit, group_mem, lemma_drop_lowest, lemma_lowest, lemma_meets, lemma_mem_and, lemma_mem_bit, lemma_mem_not, lemma_mem_or, lemma_shrinks, mem};
use crate::board::{Color, Piece, PieceType, Square};

verus! {

/// Positions of the piece sets in the canonical order.
pub const WHITE_PAWN: usize = 0;
pub const WHITE_KNIGHT: usize = 1;
pub const WHITE_BISHOP: usize = 2;
pub const WHITE_ROOK: usize = 3;
pub const WHITE_QUEEN: usize = 4;
pub const WHITE_KING: usize = 5;
pub const BLACK_PAWN: usize = 6;
pub const BLACK_KNIGHT: usize = 7;
pub const BLACK_BISHOP: usize = 8;
pub const BLACK_ROOK: usize = 9;
pub const BLACK_QUEEN: usize = 10;
pub const BLACK_KING: usize = 11;

/// Position of a piece in the canonical order: White pawn to king, then Black.
pub open spec fn index_of(piece_type: PieceType, color: Color) -> int {
    let base: int = match piece_type {
        PieceType::Pawn => 0,
        PieceType::Knight => 1,
        PieceType::Bishop => 2,
        PieceType::Rook => 3,
        PieceType::Queen => 4,
        PieceType::King => 5,
    };
    base + 6 * color.idx()
}

/// The piece at a position of the canonical order.
pub open spec fn piece_of(index: int) -> Piece {
    let color = if index < 6 { Color::White } else { Color::Black };
    let k = if index < 6 { index } else { index - 6 };
    let piece_type = if k == 0 {
        PieceType::Pawn
    } else if k == 1 {
        PieceType::Knight
    } else if k == 2 {
        PieceType::Bishop
    } else if k == 3 {
        PieceType::Rook
    } else if k == 4 {
        PieceType::Queen
    } else {
        PieceType::King
    };
    Piece(piece_type, color)
}

/// Union of the six sets starting at `base`.
pub open spec fn union6(p: Seq<u64>, base: int) -> u64 {
    p[base] | p[base + 1] | p[base + 2] | p[base + 3] | p[base + 4] | p[base + 5]
}

/// Position of the first set that meets `sq`, or 12 when none does.
pub open spec fn first_at(p: Seq<u64>, sq: u64) -> int {
    if p[0] & sq != 0 {
        0
    } else if p[1] & sq != 0 {
        1
    } else if p[2] & sq != 0 {
        2
    } else if p[3] & sq != 0 {
        3
    } else if p[4] & sq != 0 {
        4
    } else if p[5] & sq != 0 {
        5
    } else if p[6] & sq != 0 {
        6
    } else if p[7] & sq != 0 {
        7
    } else if p[8] & sq != 0 {
        8
    } else if p[9] & sq != 0 {
        9
    } else if p[10] & sq != 0 {
        10
    } else if p[11] & sq != 0 {
        11
    } else {
        12
    }
}

/// The sets after the first piece found on `sq` is taken off.
pub open spec fn cleared(p: Seq<u64>, sq: u64) -> Seq<u64> {
    let i = first_at(p, sq);
    if i < 12 {
        p.update(i, p[i] & !sq)
    } else {
        p
    }
}

/// The sets after `sq` is cleared and then given to the set at `index`.
pub open spec fn placed(p: Seq<u64>, sq: u64, index: int) -> Seq<u64> {
    let q = cleared(p, sq);
    q.update(index, q[index] | sq)
}

/// Twelve piece sets, one per kind and colour, with the union of each
/// colour and the union of all.
#[derive(Debug, Clone, Copy, PartialEq, Eq)]
pub struct Bitboard {
    pub pieces: [u64; 12],
    pub white: u64,
    pub black: u64,
    pub all: u64,
}

impl Bitboard {
    /// The unions are those of the piece sets.
    pub open spec fn consistent(self) -> bool {
        &&& self.white == union6(self.pieces@, 0)
        &&& self.black == union6(self.pieces@, 6)
        &&& self.all == self.white | self.black
    }

    /// No square is in two piece sets.
    pub open spec fn disjoint(self) -> bool {
        sets_disjoint(self.pieces@)
    }

    /// Consistent unions and disjoint piece sets.
    pub open spec fn wf(self) -> bool {
        self.consistent() && self.disjoint()
    }

    /// The piece found on the squares of `sq`: that of the first set meeting it.
    pub open spec fn piece_at(self, sq: u64) -> Option<Piece> {
        let i = first_at(self.pieces@, sq);
        if i < 12 {
            Some(piece_of(i))
        } else {
            None
        }
    }

    /// The piece standing on the square with index `sq`.
    pub open spec fn occupant(self, sq: int) -> Option<Piece> {
        self.piece_at(bit(sq))
    }

    /// The empty board.
    pub fn new() -> (r: Bitboard)
        ensures
            r.pieces@ == Seq::new(12, |i: int| 0u64),
            r.white == 0,
            r.black == 0,
            r.all == 0,
            r.wf(),
            forall|sq: int| r.occupant(sq) is None,
    {
        let r = Bitboard { pieces: [0; 12], white: 0, black: 0, all: 0 };
        proof {
            broadcast use group_mem;

            assert(r.pieces@ =~= Seq::new(12, |i: int| 0u64));
            assert(0u64 | 0u64 == 0u64) by (bit_vector);
            assert forall|sq: int| r.occupant(sq) is None by {
                let b = bit(sq);
                assert(0u64 & b == 0) by (bit_vector);
            }
        }
        r
    }

    /// The board with the given piece sets, and the unions worked out from them.
    pub fn from_pieces(pieces: [u64; 12]) -> (r: Bitboard)
        ensures
            r.pieces == pieces,
            r.consistent(),
    {
        let white = pieces[0] | pieces[1] | pieces[2] | pieces[3] | pieces[4] | pieces[5];
        let black = pieces[6] | pieces[7] | pieces[8] | pieces[9] | pieces[10] | pieces[11];
        Bitboard { pieces, white, black, all: white | black }
    }

    /// Works the unions out again from the piece sets.
    fn update_occupancy(&mut self)
        ensures
            final(self).pieces == old(self).pieces,
            final(self).consistent(),
    {
        self.white = self.pieces[0] | self.pieces[1] | self.pieces[2] | self.pieces[3]
            | self.pieces[4] | self.pieces[5];
        self.black = self.pieces[6] | self.pieces[7] | self.pieces[8] | self.pieces[9]
            | self.pieces[10] | self.pieces[11];
        self.all = self.white | self.black;
    }

    /// The piece found on `square`, if any.
    pub fn get_piece(&self, square: &Square) -> (r: Option<Piece>)
        ensures
            r == self.piece_at(square.0),
    {
        let sq = square.0;
        let mut index: usize = 0;
        while index < 12
            invariant
                index <= 12,
                sq == square.0,
                forall|j: int| 0 <= j < index ==> self.pieces@[j] & sq == 0,
            decreases 12 - index,
        {
            if self.pieces[index] & sq != 0 {
                return Some(piece_from_index(index));
            }
            index += 1;
        }
        None
    }

    /// Puts `piece` on `square`, in place of what the first set meeting the
    /// square held there, and brings the unions up to date.
    pub fn set_piece(&mut self, square: Square, piece: Piece)
        ensures
            final(self).pieces@ == placed(old(self).pieces@, square.0, index_of(piece.0, piece.1)),
            final(self).consistent(),
            old(self).disjoint() && square.single() ==> final(self).disjoint() && forall|t: int|
                0 <= t < 64 ==> #[trigger] final(self).occupant(t) == (if t == square.pos() {
                    Some(piece)
                } else {
                    old(self).occupant(t)
                }),
    {
        self.remove_piece(&square);
        let idx = piece_to_index(piece);
        let v = self.pieces[idx] | square.0;
        self.pieces[idx] = v;
        self.update_occupancy();
        proof {
            if old(self).disjoint() && square.single() {
                lemma_placed_view(*old(self), *self, square.pos(), piece);
            }
        }
    }

    /// Takes off the piece found on `square`, and brings the unions up to
    /// date; a free square leaves the board as it is.
    pub fn remove_piece(&mut self, square: &Square)
        ensures
            final(self).pieces@ == cleared(old(self).pieces@, square.0),
            old(self).piece_at(square.0) is Some || old(self).consistent()
                ==> final(self).consistent(),
            old(self).piece_at(square.0) is None ==> *final(self) == *old(self),
            old(self).disjoint() && square.single() ==> final(self).disjoint() && forall|t: int|
                0 <= t < 64 ==> #[trigger] final(self).occupant(t) == (if t == square.pos() {
                    None
                } else {
                    old(self).occupant(t)
                }),
    {
        let prev_piece = match self.get_piece(square) {
            Some(piece) => piece,
            None => {
                assert(self.pieces@ =~= cleared(self.pieces@, square.0));
                proof {
                    if square.single() {
                        vstd::std_specs::bits::axiom_u64_trailing_zeros(square.0);
                    }
                }
                return ;
            },
        };
        let idx = piece_to_index(prev_piece);
        let v = self.pieces[idx] & !square.0;
        self.pieces[idx] = v;
        self.update_occupancy();
        proof {
            if old(self).disjoint() && square.single() {
                lemma_cleared_view(*old(self), *self, square.pos());
            }
        }
    }

    /// No piece stands on a square of `square`.
    pub fn is_square_empty(&self, square: &Square) -> (r: bool)
        ensures
            r == (self.all & square.0 == 0),
    {
        self.all & square.0 == 0
    }

    /// The set of the pieces of one kind and colour.
    #[inline(always)]
    pub fn piece_bb(&self, piece_type: PieceType, color: Color) -> (r: u64)
        ensures
            r == self.pieces@[index_of(piece_type, color)],
    {
        let idx = piece_type_color_to_index(piece_type, color);
        self.pieces[idx]
    }

    /// The union of the pieces of one colour.
    #[inline(always)]
    pub fn occupancy(&self, color: Color) -> (r: u64)
        ensures
            r == match color {
                Color::White => self.white,
                Color::Black => self.black,
            },
    {
        match color {
            Color::White => self.white,
            Color::Black => self.black,
        }
    }
}

/// The piece at a position of the canonical order.
pub fn piece_from_index(index: usize) -> (r: Piece)
    requires
        index < 12,
    ensures
        r == piece_of(index as int),
        index_of(r.0, r.1) == index,
{
    match index {
        0 => Piece(PieceType::Pawn, Color::White),
        1 => Piece(PieceType::Knight, Color::White),
        2 => Piece(PieceType::Bishop, Color::White),
        3 => Piece(PieceType::Rook, Color::White),
        4 => Piece(PieceType::Queen, Color::White),
        5 => Piece(PieceType::King, Color::White),
        6 => Piece(PieceType::Pawn, Color::Black),
        7 => Piece(PieceType::Knight, Color::Black),
        8 => Piece(PieceType::Bishop, Color::Black),
        9 => Piece(PieceType::Rook, Color::Black),
        10 => Piece(PieceType::Queen, Color::Black),
        _ => Piece(PieceType::King, Color::Black),
    }
}

/// Position of a piece in the canonical order.
#[inline(always)]
pub fn piece_to_index(piece: Piece) -> (r: usize)
    ensures
        r == index_of(piece.0, piece.1),
        r < 12,
        piece_of(r as int) == piece,
{
    piece_type_color_to_index(piece.0, piece.1)
}

/// Position of a kind and colour in the canonical order.
#[inline(always)]
pub fn piece_type_color_to_index(piece_type: PieceType, color: Color) -> (r: usize)
    ensures
        r == index_of(piece_type, color),
        r < 12,
        piece_of(r as int) == Piece(piece_type, color),
{
    let base: usize = match piece_type {
        PieceType::Pawn => 0,
        PieceType::Knight => 1,
        PieceType::Bishop => 2,
        PieceType::Rook => 3,
        PieceType::Queen => 4,
        PieceType::King => 5,
    };
    match color {
        Color::White => base,
        Color::Black => base + 6,
    }
}

impl Default for Bitboard {
    fn default() -> (r: Bitboard)
        ensures
            r.pieces@ == Seq::new(12, |i: int| 0u64),
            r.white == 0,
            r.black == 0,
            r.all == 0,
    {
        Bitboard::new()
    }
}

/// Walks the members of a set from the lowest up.
pub struct BitIter(pub u64);

impl BitIter {
    /// Takes the lowest member out; `None` once the set is empty.
    #[inline(always)]
    pub fn next(&mut self) -> (r: Option<usize>)
        ensures
            old(self).0 == 0 ==> r is None && final(self).0 == 0,
            old(self).0 != 0 ==> r == Some(old(self).0.trailing_zeros() as usize) && r->Some_0 < 64
                && mem(old(self).0, r->Some_0 as int),
            forall|k: int| mem(final(self).0, k) == (mem(old(self).0, k) && Some(k as usize) != r),
            forall|k: int| r is Some && 0 <= k < r->Some_0 ==> !mem(old(self).0, k),
            old(self).0 != 0 ==> final(self).0 < old(self).0,
    {
        if self.0 == 0 {
            None
        } else {
            let sq = self.0.trailing_zeros() as usize;
            proof {
                lemma_lowest(self.0);
                lemma_shrinks(self.0);
                assert forall|k: int|
                    mem(self.0 & ((self.0 - 1) as u64), k) == (mem(self.0, k) && k
                        != sq) by {
                    lemma_drop_lowest(self.0, k);
                }
            }
            self.0 = self.0 & (self.0 - 1);
            Some(sq)
        }
    }
}

/// No square is in two of the twelve sets.
pub open spec fn sets_disjoint(p: Seq<u64>) -> bool {
    forall|i: int, j: int, sq: int|
        0 <= i < j < 12 && #[trigger] mem(p[i], sq) ==> !#[trigger] mem(p[j], sq)
}

/// On a board without overlaps, a square's occupant is the piece whose set
/// holds the square, and the square is free when no set holds it.
pub proof fn lemma_occupant(b: Bitboard, sq: int)
    requires
        0 <= sq < 64,
        b.disjoint(),
    ensures
        forall|i: int| 0 <= i < 12 ==> (#[trigger] mem(b.pieces@[i], sq) <==> b.occupant(sq) == Some(piece_of(i))),
        b.occupant(sq) is None <==> (forall|i: int| 0 <= i < 12 ==> !mem(b.pieces@[i], sq)),
{
    let p = b.pieces@;
    let s = bit(sq);
    lemma_meets(p[0], sq);
    lemma_meets(p[1], sq);
    lemma_meets(p[2], sq);
    lemma_meets(p[3], sq);
    lemma_meets(p[4], sq);
    lemma_meets(p[5], sq);
    lemma_meets(p[6], sq);
    lemma_meets(p[7], sq);
    lemma_meets(p[8], sq);
    lemma_meets(p[9], sq);
    lemma_meets(p[10], sq);
    lemma_meets(p[11], sq);
    let f = first_at(p, s);
    if f < 12 {
        assert(mem(p[f], sq));
        assert forall|i: int| 0 <= i < 12 implies (#[trigger] mem(p[i], sq) <==> b.occupant(sq) == Some(
            piece_of(i),
        )) by {
            if i < f {
                assert(!mem(p[i], sq));
            } else if i > f {
                assert(mem(p[f], sq) ==> !mem(p[i], sq));
            }
        }
    } else {
        assert forall|i: int| 0 <= i < 12 implies !mem(p[i], sq) by {
        }
    }
}

/// With consistent unions, a colour's union holds the squares of its pieces,
/// and the overall union holds every occupied square.
pub proof fn lemma_occupancy(b: Bitboard, sq: int)
    requires
        0 <= sq < 64,
        b.wf(),
    ensures
        mem(b.white, sq) <==> (b.occupant(sq) is Some && b.occupant(sq)->Some_0.1 == Color::White),
        mem(b.black, sq) <==> (b.occupant(sq) is Some && b.occupant(sq)->Some_0.1 == Color::Black),
        mem(b.all, sq) <==> b.occupant(sq) is Some,
{
    broadcast use lemma_mem_or;

    lemma_occupant(b, sq);
    let p = b.pieces@;
    assert(mem(b.white, sq) == (mem(p[0], sq) || mem(p[1], sq) || mem(p[2], sq) || mem(p[3], sq)
        || mem(p[4], sq) || mem(p[5], sq)));
    assert(mem(b.black, sq) == (mem(p[6], sq) || mem(p[7], sq) || mem(p[8], sq) || mem(p[9], sq)
        || mem(p[10], sq) || mem(p[11], sq)));
}

/// Taking the piece off a single square changes that square alone.
pub proof fn lemma_cleared(p: Seq<u64>, k: int, j: int, t: int)
    requires
        p.len() == 12,
        sets_disjoint(p),
        0 <= k < 64,
        0 <= j < 12,
    ensures
        cleared(p, bit(k)).len() == 12,
        mem(cleared(p, bit(k))[j], t) == (mem(p[j], t) && t != k),
{
    let s = bit(k);
    lemma_meets(p[0], k);
    lemma_meets(p[1], k);
    lemma_meets(p[2], k);
    lemma_meets(p[3], k);
    lemma_meets(p[4], k);
    lemma_meets(p[5], k);
    lemma_meets(p[6], k);
    lemma_meets(p[7], k);
    lemma_meets(p[8], k);
    lemma_meets(p[9], k);
    lemma_meets(p[10], k);
    lemma_meets(p[11], k);
    let f = first_at(p, s);
    lemma_mem_and(p[j], !s, t);
    lemma_mem_not(s, t);
    lemma_mem_bit(k, t);
    if f < 12 {
        assert(mem(p[f], k));
        if j != f {
            if j < f {
                assert(!mem(p[j], k));
            } else {
                assert(mem(p[f], k) ==> !mem(p[j], k));
            }
        }
    }
}

/// Placing a piece on a single square changes that square alone.
pub proof fn lemma_placed(p: Seq<u64>, k: int, index: int, j: int, t: int)
    requires
        p.len() == 12,
        sets_disjoint(p),
        0 <= k < 64,
        0 <= index < 12,
        0 <= j < 12,
    ensures
        placed(p, bit(k), index).len() == 12,
        mem(placed(p, bit(k), index)[j], t) == (if t == k {
            j == index
        } else {
            mem(p[j], t)
        }),
{
    let q = cleared(p, bit(k));
    lemma_cleared(p, k, j, t);
    lemma_mem_or(q[index], bit(k), t);
    lemma_mem_bit(k, t);
}

/// Clearing and placing keep the sets free of overlaps.
pub proof fn lemma_updates_disjoint(p: Seq<u64>, k: int, index: int)
    requires
        p.len() == 12,
        sets_disjoint(p),
        0 <= k < 64,
        0 <= index < 12,
    ensures
        sets_disjoint(cleared(p, bit(k))),
        sets_disjoint(placed(p, bit(k), index)),
{
    let c = cleared(p, bit(k));
    let q = placed(p, bit(k), index);
    assert forall|i: int, j: int, sq: int| 0 <= i < j < 12 && #[trigger] mem(c[i], sq) implies !#[trigger] mem(
        c[j],
        sq,
    ) by {
        lemma_cleared(p, k, i, sq);
        lemma_cleared(p, k, j, sq);
        assert(mem(p[i], sq) ==> !mem(p[j], sq));
    }
    assert forall|i: int, j: int, sq: int| 0 <= i < j < 12 && #[trigger] mem(q[i], sq) implies !#[trigger] mem(
        q[j],
        sq,
    ) by {
        lemma_placed(p, k, index, i, sq);
        lemma_placed(p, k, index, j, sq);
        assert(mem(p[i], sq) ==> !mem(p[j], sq));
    }
}

/// Placing a piece on a single square of a board without overlaps changes
/// the occupant of that square alone.
pub proof fn lemma_placed_view(a: Bitboard, b: Bitboard, k: int, piece: Piece)
    requires
        a.disjoint(),
        Square(bit(k)).single(),
        k == Square(bit(k)).pos(),
        b.pieces@ == placed(a.pieces@, bit(k), index_of(piece.0, piece.1)),
    ensures
        b.disjoint(),
        forall|t: int|
            0 <= t < 64 ==> #[trigger] b.occupant(t) == (if t == k {
                Some(piece)
            } else {
                a.occupant(t)
            }),
{
    vstd::std_specs::bits::axiom_u64_trailing_zeros(bit(k));
    let idx = index_of(piece.0, piece.1);
    lemma_updates_disjoint(a.pieces@, k, idx);
    assert forall|t: int| 0 <= t < 64 implies #[trigger] b.occupant(t) == (if t == k {
        Some(piece)
    } else {
        a.occupant(t)
    }) by {
        lemma_occupant(a, t);
        lemma_occupant(b, t);
        assert forall|j: int| 0 <= j < 12 implies mem(b.pieces@[j], t) == (if t == k {
            j == idx
        } else {
            mem(a.pieces@[j], t)
        }) by {
            lemma_placed(a.pieces@, k, idx, j, t);
        }
        assert(piece_of(idx) == piece);
        if t == k {
            assert(mem(b.pieces@[idx], t));
        } else {
            match a.occupant(t) {
                Some(q) => {
                    let j = index_of(q.0, q.1);
                    assert(piece_of(j) == q);
                    assert(mem(a.pieces@[j], t));
                    assert(mem(b.pieces@[j], t));
                },
                None => {},
            }
        }
    }
}

/// Taking the piece off a single square of a board without overlaps frees
/// that square and changes no other.
pub proof fn lemma_cleared_view(a: Bitboard, b: Bitboard, k: int)
    requires
        a.disjoint(),
        Square(bit(k)).single(),
        k == Square(bit(k)).pos(),
        b.pieces@ == cleared(a.pieces@, bit(k)),
    ensures
        b.disjoint(),
        forall|t: int|
            0 <= t < 64 ==> #[trigger] b.occupant(t) == (if t == k {
                None
            } else {
                a.occupant(t)
            }),
{
    vstd::std_specs::bits::axiom_u64_trailing_zeros(bit(k));
    lemma_updates_disjoint(a.pieces@, k, 0);
    assert forall|t: int| 0 <= t < 64 implies #[trigger] b.occupant(t) == (if t == k {
        None
    } else {
        a.occupant(t)
    }) by {
        lemma_occupant(a, t);
        lemma_occupant(b, t);
        assert forall|j: int| 0 <= j < 12 implies mem(b.pieces@[j], t) == (mem(a.pieces@[j], t) && t
            != k) by {
            lemma_cleared(a.pieces@, k, j, t);
        }
        if t != k {
            match a.occupant(t) {
                Some(q) => {
                    let j = index_of(q.0, q.1);
                    assert(piece_of(j) == q);
                    assert(mem(a.pieces@[j], t));
                    assert(mem(b.pieces@[j], t));
                },
                None => {},
            }
        }
    }
}

} // verus!
