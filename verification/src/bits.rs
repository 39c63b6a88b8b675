//! Membership view of 64-bit square sets, and the bit-level facts the rest of
//! the crate reasons with.

use vstd::prelude::*;

verus! {

/// Square `sq` is a member of the set `bb`.
pub open spec fn mem(bb: u64, sq: int) -> bool {
    0 <= sq < 64 && (bb >> (sq as u64)) & 1 == 1
}

/// The set holding `sq` alone.
pub open spec fn bit(sq: int) -> u64 {
    1u64 << (sq as u64)
}

pub broadcast proof fn lemma_mem_or(a: u64, b: u64, sq: int)
    ensures
        #[trigger] mem(a | b, sq) == (mem(a, sq) || mem(b, sq)),
{
    if 0 <= sq < 64 {
        let k = sq as u64;
        assert((((a | b) >> k) & 1 == 1) == (((a >> k) & 1 == 1) || ((b >> k) & 1 == 1)))
            by (bit_vector);
    }
}

pub broadcast proof fn lemma_mem_and(a: u64, b: u64, sq: int)
    ensures
        #[trigger] mem(a & b, sq) == (mem(a, sq) && mem(b, sq)),
{
    if 0 <= sq < 64 {
        let k = sq as u64;
        assert((((a & b) >> k) & 1 == 1) == (((a >> k) & 1 == 1) && ((b >> k) & 1 == 1)))
            by (bit_vector);
    }
}

pub broadcast proof fn lemma_mem_xor(a: u64, b: u64, sq: int)
    ensures
        #[trigger] mem(a ^ b, sq) == (mem(a, sq) != mem(b, sq)),
{
    if 0 <= sq < 64 {
        let k = sq as u64;
        assert((((a ^ b) >> k) & 1 == 1) == (((a >> k) & 1 == 1) != ((b >> k) & 1 == 1)))
            by (bit_vector);
    }
}

pub broadcast proof fn lemma_mem_not(a: u64, sq: int)
    ensures
        #[trigger] mem(!a, sq) == (0 <= sq < 64 && !mem(a, sq)),
{
    if 0 <= sq < 64 {
        let k = sq as u64;
        assert((((!a) >> k) & 1 == 1) == !((a >> k) & 1 == 1)) by (bit_vector)
            requires
                k < 64,
        ;
    }
}

pub broadcast proof fn lemma_mem_bit(s: int, sq: int)
    requires
        0 <= s < 64,
    ensures
        #[trigger] mem(bit(s), sq) == (sq == s),
{
    if 0 <= sq < 64 {
        let k = sq as u64;
        let j = s as u64;
        assert((((1u64 << j) >> k) & 1 == 1) == (k == j)) by (bit_vector)
            requires
                k < 64,
                j < 64,
        ;
    }
}

pub broadcast proof fn lemma_mem_zero(sq: int)
    ensures
        !#[trigger] mem(0, sq),
{
    if 0 <= sq < 64 {
        let k = sq as u64;
        assert((0u64 >> k) & 1 == 0) by (bit_vector);
    }
}

pub broadcast proof fn lemma_mem_full(sq: int)
    ensures
        #[trigger] mem(0xFFFF_FFFF_FFFF_FFFF, sq) == (0 <= sq < 64),
{
    if 0 <= sq < 64 {
        let k = sq as u64;
        assert((0xFFFF_FFFF_FFFF_FFFFu64 >> k) & 1 == 1) by (bit_vector)
            requires
                k < 64,
        ;
    }
}

/// Shifting a set up by `n` moves every member from `sq - n` to `sq`.
pub broadcast proof fn lemma_mem_shl(a: u64, n: u64, sq: int)
    requires
        n < 64,
    ensures
        #[trigger] mem(a << n, sq) == (n <= sq < 64 && mem(a, sq - n)),
{
    if 0 <= sq < 64 {
        let k = sq as u64;
        if n <= k {
            let d = (k - n) as u64;
            assert((((a << n) >> k) & 1 == 1) == ((a >> d) & 1 == 1)) by (bit_vector)
                requires
                    k < 64,
                    n <= k,
                    d == k - n,
            ;
        } else {
            assert(((a << n) >> k) & 1 == 0) by (bit_vector)
                requires
                    n < 64,
                    k < n,
            ;
        }
    }
}

/// Shifting a set down by `n` moves every member from `sq + n` to `sq`.
pub broadcast proof fn lemma_mem_shr(a: u64, n: u64, sq: int)
    requires
        n < 64,
    ensures
        #[trigger] mem(a >> n, sq) == (0 <= sq && mem(a, sq + n)),
{
    if 0 <= sq < 64 {
        let k = sq as u64;
        if k + n < 64 {
            let d = (k + n) as u64;
            assert((((a >> n) >> k) & 1 == 1) == ((a >> d) & 1 == 1)) by (bit_vector)
                requires
                    k < 64,
                    n < 64,
                    d == k + n,
                    d < 64,
            ;
        } else {
            assert(((a >> n) >> k) & 1 == 0) by (bit_vector)
                requires
                    n < 64,
                    k < 64,
                    k + n >= 64,
            ;
        }
    }
}

pub broadcast group group_mem {
    lemma_mem_or,
    lemma_mem_and,
    lemma_mem_xor,
    lemma_mem_not,
    lemma_mem_bit,
    lemma_mem_zero,
    lemma_mem_full,
    lemma_mem_shl,
    lemma_mem_shr,
}

/// A non-empty set has its lowest member at `trailing_zeros`.
pub proof fn lemma_lowest(bb: u64)
    requires
        bb != 0,
    ensures
        bb.trailing_zeros() < 64,
        mem(bb, bb.trailing_zeros() as int),
        forall|k: int| 0 <= k < bb.trailing_zeros() ==> !mem(bb, k),
{
    vstd::std_specs::bits::axiom_u64_trailing_zeros(bb);
    let tz = bb.trailing_zeros();
    assert forall|k: int| 0 <= k < tz implies !mem(bb, k) by {
        let j = k as u64;
        assert((bb >> j) & 1u64 == 0u64);
    }
}

/// Two sets with the same members are the same value.
pub proof fn lemma_ext(a: u64, b: u64)
    requires
        forall|k: int| 0 <= k < 64 ==> mem(a, k) == mem(b, k),
    ensures
        a == b,
{
    let x = a ^ b;
    if x != 0 {
        lemma_lowest(x);
        lemma_mem_xor(a, b, x.trailing_zeros() as int);
    }
    assert(a ^ b == 0 ==> a == b) by (bit_vector);
}

/// A set is empty exactly when it has no member.
pub proof fn lemma_empty_iff(bb: u64)
    ensures
        bb == 0 <==> (forall|k: int| 0 <= k < 64 ==> !mem(bb, k)),
{
    broadcast use lemma_mem_zero;

    if bb != 0 {
        lemma_lowest(bb);
    }
}

/// Clearing the lowest member leaves all the others.
pub proof fn lemma_drop_lowest(bb: u64, sq: int)
    requires
        bb != 0,
    ensures
        mem((bb & ((bb - 1) as u64)), sq) == (mem(bb, sq) && sq != bb.trailing_zeros()),
{
    lemma_lowest(bb);
    vstd::std_specs::bits::axiom_u64_trailing_zeros(bb);
    let tz = bb.trailing_zeros() as u64;
    let m = (bb - 1) as u64;
    let sh = (64 - tz) as u64;
    assert(bb << sh == 0);
    if 0 <= sq < 64 {
        let k = sq as u64;
        assert((((bb & m) >> k) & 1 == 1) == (((bb >> k) & 1 == 1) && k != tz)) by (bit_vector)
            requires
                bb != 0,
                m == bb - 1,
                tz < 64,
                k < 64,
                (bb >> tz) & 1 == 1,
                sh == 64 - tz,
                bb << sh == 0,
        ;
    }
}

/// A single square shifted up lands `n` squares higher, or falls off the board.
pub proof fn lemma_bit_shl(sq: int, n: u64, t: int)
    requires
        0 <= sq < 64,
        n < 64,
    ensures
        mem(bit(sq) << n, t) == (t == sq + n && t < 64),
{
    lemma_mem_shl(bit(sq), n, t);
    lemma_mem_bit(sq, t - n);
}

/// A single square shifted down lands `n` squares lower, or falls off the board.
pub proof fn lemma_bit_shr(sq: int, n: u64, t: int)
    requires
        0 <= sq < 64,
        n < 64,
    ensures
        mem(bit(sq) >> n, t) == (t == sq - n && t >= 0),
{
    lemma_mem_shr(bit(sq), n, t);
    lemma_mem_bit(sq, t + n);
}

/// A one-square set meets a mask exactly when the square is a member of it.
pub proof fn lemma_meets(x: u64, sq: int)
    requires
        0 <= sq < 64,
    ensures
        (bit(sq) & x != 0) == mem(x, sq),
        (x & bit(sq) != 0) == mem(x, sq),
{
    let k = sq as u64;
    assert((((1u64 << k) & x) != 0) == ((x >> k) & 1 == 1) && ((x & (1u64 << k)) != 0) == ((x >> k)
        & 1 == 1)) by (bit_vector)
        requires
            k < 64,
    ;
}

/// Clearing the lowest member makes a non-empty set smaller as a number.
pub proof fn lemma_shrinks(bb: u64)
    requires
        bb != 0,
    ensures
        bb & ((bb - 1) as u64) < bb,
{
    let m = (bb - 1) as u64;
    assert(bb & m < bb) by (bit_vector)
        requires
            bb != 0,
            m == bb - 1,
    ;
}

/// The set holding `sq` alone, as a value.
pub fn square_bb(sq: usize) -> (r: u64)
    requires
        sq < 64,
    ensures
        r == bit(sq as int),
        forall|k: int| mem(r, k) == (k == sq),
{
    proof {
        assert forall|k: int| mem(bit(sq as int), k) == (k == sq) by {
            lemma_mem_bit(sq as int, k);
        }
    }
    1u64 << (sq as u64)
}

/// The set of the squares from `pos` up that satisfy `p`.
pub open spec fn bb_from(p: spec_fn(int) -> bool, pos: int) -> u64
    decreases 64 - pos,
{
    if pos >= 64 || pos < 0 {
        0
    } else if p(pos) {
        bit(pos) | bb_from(p, pos + 1)
    } else {
        bb_from(p, pos + 1)
    }
}

/// The set of the squares that satisfy `p`.
pub open spec fn bb_of(p: spec_fn(int) -> bool) -> u64 {
    bb_from(p, 0)
}

/// The members of `bb_from(p, pos)` are the squares from `pos` up that satisfy `p`.
pub proof fn lemma_bb_from(p: spec_fn(int) -> bool, pos: int, t: int)
    requires
        0 <= pos <= 64,
    ensures
        mem(bb_from(p, pos), t) == (pos <= t < 64 && p(t)),
    decreases 64 - pos,
{
    if pos >= 64 {
        lemma_mem_zero(t);
    } else {
        lemma_bb_from(p, pos + 1, t);
        lemma_mem_or(bit(pos), bb_from(p, pos + 1), t);
        lemma_mem_bit(pos, t);
    }
}

/// The members of `bb_of(p)` are the squares that satisfy `p`.
pub proof fn lemma_bb_of(p: spec_fn(int) -> bool, t: int)
    ensures
        mem(bb_of(p), t) == (0 <= t < 64 && p(t)),
{
    lemma_bb_from(p, 0, t);
}

/// A set whose members are the squares that satisfy `p` is `bb_of(p)`.
pub proof fn lemma_is_bb_of(bb: u64, p: spec_fn(int) -> bool)
    requires
        forall|t: int| 0 <= t < 64 ==> mem(bb, t) == p(t),
    ensures
        bb == bb_of(p),
{
    assert forall|k: int| 0 <= k < 64 implies mem(bb, k) == mem(bb_of(p), k) by {
        lemma_bb_of(p, k);
    }
    lemma_ext(bb, bb_of(p));
}

} // verus!
