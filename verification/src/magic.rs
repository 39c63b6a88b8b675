//! Sliding attacks: the ray walk, the relevant-occupancy masks, and the magic
//! tables that answer rook and bishop attacks by one multiplication and shift.

use vstd::prelude::*;
use crate::bits::{bb_of, bit, lemma_drop_lowest, lemma_ext, lemma_is_bb_of, lemma_lowest, lemma_mem_and, lemma_mem_bit, lemma_mem_or, lemma_mem_zero, mem, square_bb};
use crate::tables::{aligned_diagonal, aligned_straight, between_sq, delta_file, delta_rank, dir_df, dir_dr, file_of, lemma_ray_at, lemma_ray_end, on_ray, rank_of, scale, steps};

verus! {

/// No member of `occ` lies strictly between `s` and `t`.
pub open spec fn clear_between(s: int, t: int, occ: u64) -> bool {
    forall|u: int| #[trigger] between_sq(s, t, u) ==> !mem(occ, u)
}

/// A slider on `s` attacks `t` when the board is occupied as `occ` says:
/// the two share a rank or file (`straight`) or a diagonal, and nothing stands
/// strictly between them.
pub open spec fn slide_hits(straight: bool, s: int, occ: u64, t: int) -> bool {
    (if straight {
        aligned_straight(s, t)
    } else {
        aligned_diagonal(s, t)
    }) && clear_between(s, t, occ)
}

/// The attack set of a slider on `s` with occupancy `occ`.
pub open spec fn slide_bb(straight: bool, s: int, occ: u64) -> u64 {
    bb_of(|t: int| slide_hits(straight, s, occ, t))
}

/// `t` is on the ray from `s` and is not the last square of that ray.
pub open spec fn inner_ray(dir: int, s: int, t: int) -> bool {
    &&& on_ray(dir, s, t)
    &&& 0 <= file_of(t) + dir_df(dir) < 8
    &&& 0 <= rank_of(t) + dir_dr(dir) < 8
}

/// `t` is a square whose occupancy can change what a slider on `s` attacks.
pub open spec fn mask_sq(straight: bool, s: int, t: int) -> bool {
    if straight {
        inner_ray(0, s, t) || inner_ray(2, s, t) || inner_ray(4, s, t) || inner_ray(6, s, t)
    } else {
        inner_ray(1, s, t) || inner_ray(3, s, t) || inner_ray(5, s, t) || inner_ray(7, s, t)
    }
}

/// Squares between a square and another on its ray are the nearer squares of that ray.
proof fn lemma_between_on_ray(dir: int, s: int, t: int, u: int)
    requires
        0 <= dir < 8,
        on_ray(dir, s, t),
    ensures
        between_sq(s, t, u) == (on_ray(dir, s, u) && steps(s, u) < steps(s, t)),
{
}

/// Aligned squares lie on one of the four rays of their kind.
proof fn lemma_aligned_rays(s: int, t: int)
    ensures
        aligned_straight(s, t) == (on_ray(0, s, t) || on_ray(2, s, t) || on_ray(4, s, t) || on_ray(
            6,
            s,
            t,
        )),
        aligned_diagonal(s, t) == (on_ray(1, s, t) || on_ray(3, s, t) || on_ray(5, s, t) || on_ray(
            7,
            s,
            t,
        )),
{
}

/// Walks from `sq` in direction `dir` up to and including the first member of `occ`.
fn walk(sq: usize, dir: usize, occ: u64) -> (ray: u64)
    requires
        sq < 64,
        dir < 8,
    ensures
        forall|t: int| mem(ray, t) == (on_ray(dir as int, sq as int, t) && clear_between(sq as int, t, occ)),
{
    let df = delta_file(dir);
    let dr = delta_rank(dir);
    let file = (sq % 8) as i8;
    let rank = (sq / 8) as i8;
    let mut f: i8 = file + df;
    let mut r: i8 = rank + dr;
    let mut ray = 0u64;
    let mut blocked = false;
    let ghost mut k: int = 1;
    let ghost s = sq as int;
    let ghost d = dir as int;
    proof {
        assert forall|t: int| mem(ray, t) == (on_ray(d, s, t) && steps(s, t) < k) by {
            lemma_mem_zero(t);
        }
    }
    while !blocked && 0 <= f && f < 8 && 0 <= r && r < 8
        invariant
            sq < 64,
            dir < 8,
            s == sq,
            d == dir,
            df == dir_df(d),
            dr == dir_dr(d),
            file == file_of(s),
            rank == rank_of(s),
            1 <= k <= 8,
            !blocked ==> f == file + scale(k, df as int),
            !blocked ==> r == rank + scale(k, dr as int),
            forall|t: int| mem(ray, t) == (on_ray(d, s, t) && steps(s, t) < k),
            forall|u: int| on_ray(d, s, u) && steps(s, u) < k - 1 ==> !mem(occ, u),
            !blocked ==> forall|u: int| on_ray(d, s, u) && steps(s, u) < k ==> !mem(occ, u),
            blocked ==> exists|u: int| on_ray(d, s, u) && steps(s, u) == k - 1 && mem(occ, u),
        decreases (if blocked { 0int } else { 9 - k }),
    {
        let idx = (f + 8 * r) as usize;
        let b = square_bb(idx);
        let ghost prev = ray;
        ray |= b;
        proof {
            lemma_ray_at(s, d, k, idx as int, 0);
            assert forall|t: int| mem(ray, t) == (on_ray(d, s, t) && steps(s, t) < k + 1) by {
                lemma_mem_or(prev, b, t);
                lemma_ray_at(s, d, k, idx as int, t);
            }
            crate::bits::lemma_meets(occ, idx as int);
        }
        if occ & b != 0 {
            blocked = true;
        } else {
            proof {
                assert forall|u: int| on_ray(d, s, u) && steps(s, u) < k + 1 implies !mem(occ, u) by {
                    lemma_ray_at(s, d, k, idx as int, u);
                }
            }
            f += df;
            r += dr;
        }
        proof {
            k = k + 1;
        }
    }
    proof {
        assert forall|t: int| mem(ray, t) == (on_ray(d, s, t) && clear_between(s, t, occ)) by {
            if on_ray(d, s, t) {
                if steps(s, t) < k {
                    assert forall|u: int| #[trigger] between_sq(s, t, u) implies !mem(occ, u) by {
                        lemma_between_on_ray(d, s, t, u);
                    }
                } else {
                    if blocked {
                        let u = choose|u: int| on_ray(d, s, u) && steps(s, u) == k - 1 && mem(occ, u);
                        lemma_between_on_ray(d, s, t, u);
                        assert(between_sq(s, t, u));
                    } else {
                        lemma_ray_end(s, d, k, t);
                    }
                }
            }
        }
    }
    ray
}

/// Rook attacks found by walking the four straight rays.
pub fn rook_attacks_slow(sq: usize, occ: u64) -> (attacks: u64)
    requires
        sq < 64,
    ensures
        attacks == slide_bb(true, sq as int, occ),
        forall|t: int| mem(attacks, t) == slide_hits(true, sq as int, occ, t),
{
    let n = walk(sq, 0, occ);
    let e = walk(sq, 2, occ);
    let s = walk(sq, 4, occ);
    let w = walk(sq, 6, occ);
    let attacks = n | e | s | w;
    proof {
        assert forall|t: int| mem(attacks, t) == slide_hits(true, sq as int, occ, t) by {
            lemma_mem_or(n | e | s, w, t);
            lemma_mem_or(n | e, s, t);
            lemma_mem_or(n, e, t);
            lemma_aligned_rays(sq as int, t);
        }
        lemma_is_bb_of(attacks, |t: int| slide_hits(true, sq as int, occ, t));
    }
    attacks
}

/// Bishop attacks found by walking the four diagonal rays.
pub fn bishop_attacks_slow(sq: usize, occ: u64) -> (attacks: u64)
    requires
        sq < 64,
    ensures
        attacks == slide_bb(false, sq as int, occ),
        forall|t: int| mem(attacks, t) == slide_hits(false, sq as int, occ, t),
{
    let ne = walk(sq, 1, occ);
    let se = walk(sq, 3, occ);
    let sw = walk(sq, 5, occ);
    let nw = walk(sq, 7, occ);
    let attacks = ne | se | sw | nw;
    proof {
        assert forall|t: int| mem(attacks, t) == slide_hits(false, sq as int, occ, t) by {
            lemma_mem_or(ne | se | sw, nw, t);
            lemma_mem_or(ne | se, sw, t);
            lemma_mem_or(ne, se, t);
            lemma_aligned_rays(sq as int, t);
        }
        lemma_is_bb_of(attacks, |t: int| slide_hits(false, sq as int, occ, t));
    }
    attacks
}

/// Walks from `sq` in direction `dir`, leaving out the last square before the edge.
fn inner_walk(sq: usize, dir: usize) -> (mask: u64)
    requires
        sq < 64,
        dir < 8,
    ensures
        forall|t: int| mem(mask, t) == inner_ray(dir as int, sq as int, t),
{
    let df = delta_file(dir);
    let dr = delta_rank(dir);
    let file = (sq % 8) as i8;
    let rank = (sq / 8) as i8;
    let mut f: i8 = file + df;
    let mut r: i8 = rank + dr;
    let mut mask = 0u64;
    let ghost mut k: int = 1;
    let ghost s = sq as int;
    let ghost d = dir as int;
    proof {
        assert forall|t: int| mem(mask, t) == (inner_ray(d, s, t) && steps(s, t) < k) by {
            lemma_mem_zero(t);
        }
    }
    while 0 <= f && f < 8 && 0 <= r && r < 8 && 0 <= f + df && f + df < 8 && 0 <= r + dr && r + dr
        < 8
        invariant
            sq < 64,
            dir < 8,
            s == sq,
            d == dir,
            df == dir_df(d),
            dr == dir_dr(d),
            file == file_of(s),
            rank == rank_of(s),
            1 <= k <= 8,
            f == file + scale(k, df as int),
            r == rank + scale(k, dr as int),
            forall|t: int| mem(mask, t) == (inner_ray(d, s, t) && steps(s, t) < k),
        decreases 8 - k,
    {
        let idx = (f + 8 * r) as usize;
        let b = square_bb(idx);
        let ghost prev = mask;
        mask |= b;
        proof {
            assert forall|t: int| mem(mask, t) == (inner_ray(d, s, t) && steps(s, t) < k + 1) by {
                lemma_mem_or(prev, b, t);
                lemma_ray_at(s, d, k, idx as int, t);
            }
        }
        f += df;
        r += dr;
        proof {
            k = k + 1;
        }
    }
    proof {
        assert forall|t: int| mem(mask, t) == inner_ray(d, s, t) by {
            if 0 <= f && f < 8 && 0 <= r && r < 8 {
                lemma_ray_at(s, d, k, f + 8 * r, t);
                lemma_ray_end(s, d, k + 1, t);
            } else {
                lemma_ray_end(s, d, k, t);
            }
        }
    }
    mask
}

/// The squares whose occupancy matters to a rook on `sq`.
pub fn rook_mask(sq: usize) -> (mask: u64)
    requires
        sq < 64,
    ensures
        forall|t: int| mem(mask, t) == mask_sq(true, sq as int, t),
{
    let n = inner_walk(sq, 0);
    let e = inner_walk(sq, 2);
    let s = inner_walk(sq, 4);
    let w = inner_walk(sq, 6);
    let mask = n | e | s | w;
    proof {
        assert forall|t: int| mem(mask, t) == mask_sq(true, sq as int, t) by {
            lemma_mem_or(n | e | s, w, t);
            lemma_mem_or(n | e, s, t);
            lemma_mem_or(n, e, t);
        }
    }
    mask
}

/// The squares whose occupancy matters to a bishop on `sq`.
pub fn bishop_mask(sq: usize) -> (mask: u64)
    requires
        sq < 64,
    ensures
        forall|t: int| mem(mask, t) == mask_sq(false, sq as int, t),
{
    let ne = inner_walk(sq, 1);
    let se = inner_walk(sq, 3);
    let sw = inner_walk(sq, 5);
    let nw = inner_walk(sq, 7);
    let mask = ne | se | sw | nw;
    proof {
        assert forall|t: int| mem(mask, t) == mask_sq(false, sq as int, t) by {
            lemma_mem_or(ne | se | sw, nw, t);
            lemma_mem_or(ne | se, sw, t);
            lemma_mem_or(ne, se, t);
        }
    }
    mask
}

/// The masks of all squares, for rooks (`straight`) or bishops.
pub fn generate_masks(straight: bool) -> (masks: [u64; 64])
    ensures
        forall|s: int, t: int| 0 <= s < 64 ==> #[trigger] mem(masks@[s], t) == mask_sq(straight, s, t),
{
    let mut masks = [0u64;64];
    let mut sq = 0usize;
    while sq < 64
        invariant
            sq <= 64,
            forall|s: int, t: int|
                0 <= s < sq ==> #[trigger] mem(masks@[s], t) == mask_sq(straight, s, t),
        decreases 64 - sq,
    {
        let m = if straight {
            rook_mask(sq)
        } else {
            bishop_mask(sq)
        };
        masks[sq] = m;
        sq += 1;
    }
    masks
}

/// Squares strictly between a slider and a square on its line are inside the mask.
proof fn lemma_between_in_mask(straight: bool, s: int, t: int, u: int)
    requires
        if straight {
            aligned_straight(s, t)
        } else {
            aligned_diagonal(s, t)
        },
        between_sq(s, t, u),
    ensures
        mask_sq(straight, s, u),
{
}

/// Occupancy outside the mask never changes the attack set.
pub proof fn lemma_mask_suffices(straight: bool, s: int, occ: u64, mask: u64, t: int)
    requires
        forall|u: int| mem(mask, u) == mask_sq(straight, s, u),
    ensures
        slide_hits(straight, s, occ & mask, t) == slide_hits(straight, s, occ, t),
{
    let on_line = if straight {
        aligned_straight(s, t)
    } else {
        aligned_diagonal(s, t)
    };
    if on_line {
        assert forall|u: int| #[trigger] between_sq(s, t, u) implies mem(occ & mask, u) == mem(occ, u) by {
            lemma_between_in_mask(straight, s, t, u);
            lemma_mem_and(occ, mask, u);
        }
    }
}

/// Number of members of `mask` at `pos` or above.
pub open spec fn count_from(mask: u64, pos: int) -> nat
    decreases 64 - pos,
{
    if pos >= 64 || pos < 0 {
        0
    } else if mem(mask, pos) {
        1 + count_from(mask, pos + 1)
    } else {
        count_from(mask, pos + 1)
    }
}

/// `u64::count_ones` returns the number of bits set in the value, which is at most 64.
pub assume_specification[ u64::count_ones ](x: u64) -> (r: u32)
    ensures
        r == count_from(x, 0),
        r <= 64,
;

/// The bits of `index`, lowest first, handed out to the members of `mask`
/// at `pos` or above, lowest first.
pub open spec fn spread(index: int, mask: u64, pos: int) -> u64
    decreases 64 - pos,
{
    if pos >= 64 || pos < 0 {
        0
    } else if mem(mask, pos) {
        if index % 2 == 1 {
            bit(pos) | spread(index / 2, mask, pos + 1)
        } else {
            spread(index / 2, mask, pos + 1)
        }
    } else {
        spread(index, mask, pos + 1)
    }
}

/// The sub-occupancy of `mask` numbered `index`.
pub open spec fn sub_occupancy(index: int, mask: u64) -> u64 {
    spread(index, mask, 0)
}

/// A spread index occupies members of the mask only, at `pos` or above.
proof fn lemma_spread_members(index: int, mask: u64, pos: int, t: int)
    requires
        0 <= pos <= 64,
    ensures
        mem(spread(index, mask, pos), t) ==> pos <= t < 64 && mem(mask, t),
    decreases 64 - pos,
{
    if pos >= 64 {
        lemma_mem_zero(t);
    } else {
        if mem(mask, pos) {
            lemma_spread_members(index / 2, mask, pos + 1, t);
            lemma_mem_or(bit(pos), spread(index / 2, mask, pos + 1), t);
            lemma_mem_bit(pos, t);
        } else {
            lemma_spread_members(index, mask, pos + 1, t);
        }
    }
}

/// Positions that hold no member of the mask take no bit of the index.
proof fn lemma_spread_skip(index: int, mask: u64, pos: int, to: int)
    requires
        0 <= pos <= to <= 64,
        forall|u: int| pos <= u < to ==> !mem(mask, u),
    ensures
        spread(index, mask, pos) == spread(index, mask, to),
    decreases to - pos,
{
    if pos < to {
        lemma_spread_skip(index, mask, pos + 1, to);
    }
}

/// The sub-occupancy of `mask` numbered `index`: bit `j` of `index` says
/// whether the `j`-th member of `mask`, counted from the lowest, is occupied.
pub fn index_to_occupancy(index: usize, mask: u64) -> (occ: u64)
    ensures
        occ == sub_occupancy(index as int, mask),
{
    let mut occ = 0u64;
    let mut m = mask;
    let mut i = index;
    let ghost mut p: int = 0;
    let ghost goal = spread(index as int, mask, 0);
    proof {
        assert forall|t: int| mem(occ, t) == (t < p && mem(goal, t)) by {
            lemma_mem_zero(t);
            lemma_spread_members(index as int, mask, 0, t);
        }
    }
    while m != 0
        invariant
            0 <= p <= 64,
            goal == spread(index as int, mask, 0),
            forall|t: int| mem(m, t) == (mem(mask, t) && t >= p),
            forall|t: int| mem(occ, t) == (t < p && mem(goal, t)),
            forall|t: int| t >= p ==> mem(goal, t) == mem(spread(i as int, mask, p), t),
        decreases 64 - p,
    {
        let lsb = m.trailing_zeros() as usize;
        let ghost q = lsb as int;
        let ghost prev = occ;
        let ghost rest = spread(i as int, mask, p);
        proof {
            lemma_lowest(m);
            lemma_spread_skip(i as int, mask, p, q);
            assert(i & 1 != 0 <==> (i as int) % 2 == 1) by (bit_vector);
            assert(i >> 1 == i / 2) by (bit_vector);
        }
        if i & 1 != 0 {
            occ |= 1u64 << lsb;
        }
        proof {
            assert forall|t: int| mem(occ, t) == (t < q + 1 && mem(goal, t)) by {
                lemma_mem_or(prev, bit(q), t);
                lemma_mem_bit(q, t);
                lemma_mem_or(bit(q), spread((i as int) / 2, mask, q + 1), t);
                lemma_spread_members((i as int) / 2, mask, q + 1, t);
                lemma_spread_members(i as int, mask, p, t);
            }
            assert forall|t: int| t >= q + 1 implies mem(goal, t) == mem(
                spread((i as int) / 2, mask, q + 1),
                t,
            ) by {
                lemma_mem_or(bit(q), spread((i as int) / 2, mask, q + 1), t);
                lemma_mem_bit(q, t);
            }
            assert forall|t: int| mem(m & ((m - 1) as u64), t) == (mem(mask, t) && t >= q + 1) by {
                lemma_drop_lowest(m, t);
            }
        }
        m &= m - 1;
        i >>= 1;
        proof {
            p = q + 1;
        }
    }
    proof {
        assert forall|t: int| 0 <= t < 64 implies mem(occ, t) == mem(goal, t) by {
            lemma_mem_zero(t);
            lemma_spread_members(i as int, mask, p, t);
        }
        lemma_ext(occ, goal);
    }
    occ
}

/// The multipliers that hash a rook's masked occupancy, by square.
pub const ROOK_MAGICS: [u64; 64] = [
    0x0080001020400080, 0x0040001000200040, 0x0080081000200080, 0x0080040800100080,
    0x0080020400080080, 0x0080010200040080, 0x0080008001000200, 0x0080002040800100,
    0x0000800020400080, 0x0000400020005000, 0x0000801000200080, 0x0000800800100080,
    0x0000800400080080, 0x0000800200040080, 0x0000800100020080, 0x0000800040800100,
    0x0000208000400080, 0x0000404000201000, 0x0000808010002000, 0x0000808008001000,
    0x0000808004000800, 0x0000808002000400, 0x0000010100020004, 0x0000020000408104,
    0x0000208080004000, 0x0000200040005000, 0x0000100080200080, 0x0000080080100080,
    0x0000040080080080, 0x0000020080040080, 0x0000010080800200, 0x0000800080004100,
    0x0000204000800080, 0x0000200040401000, 0x0000100080802000, 0x0000080080801000,
    0x0000040080800800, 0x0000020080800400, 0x0000020001010004, 0x0000800040800100,
    0x0000204000808000, 0x0000200040008080, 0x0000100020008080, 0x0000080010008080,
    0x0000040008008080, 0x0000020004008080, 0x0000010002008080, 0x0000004081020004,
    0x0000204000800080, 0x0000200040008080, 0x0000100020008080, 0x0000080010008080,
    0x0000040008008080, 0x0000020004008080, 0x0000800100020080, 0x0000800041000080,
    0x00FFFCDDFCED714A, 0x007FFCDDFCED714A, 0x003FFFCDFFD88096, 0x0000040810002101,
    0x0001000204080011, 0x0001000204000801, 0x0001000082000401, 0x0001FFFAABFAD1A2,
];

/// The multipliers that hash a bishop's masked occupancy, by square.
pub const BISHOP_MAGICS: [u64; 64] = [
    0x0002020202020200, 0x0002020202020000, 0x0004010202000000, 0x0004040080000000,
    0x0001104000000000, 0x0000821040000000, 0x0000410410400000, 0x0000104104104000,
    0x0000040404040400, 0x0000020202020200, 0x0000040102020000, 0x0000040400800000,
    0x0000011040000000, 0x0000008210400000, 0x0000004104104000, 0x0000002082082000,
    0x0004000808080800, 0x0002000404040400, 0x0001000202020200, 0x0000800802004000,
    0x0000800400A00000, 0x0000200100884000, 0x0000400082082000, 0x0000200041041000,
    0x0002080010101000, 0x0001040008080800, 0x0000208004010400, 0x0000404004010200,
    0x0000840000802000, 0x0000404002011000, 0x0000808001041000, 0x0000404000820800,
    0x0001041000202000, 0x0000820800101000, 0x0000104400080800, 0x0000020080080080,
    0x0000404040040100, 0x0000808100020100, 0x0001010100020800, 0x0000808080010400,
    0x0000820820004000, 0x0000410410002000, 0x0000082088001000, 0x0000002011000800,
    0x0000080100400400, 0x0001010101000200, 0x0002020202000400, 0x0001010101000200,
    0x0000410410400000, 0x0000208208200000, 0x0000002084100000, 0x0000000020880000,
    0x0000001002020000, 0x0000040408020000, 0x0004040404040000, 0x0002020202020000,
    0x0000104104104000, 0x0000002082082000, 0x0000000020841000, 0x0000000000208800,
    0x0000000010020200, 0x0000000404080200, 0x0000040404040400, 0x0002020202020200,
];

/// Most members a mask can have for a table to be built for it.
pub const MAX_MASK_BITS: u32 = 12;

/// Two to the `n`.
pub open spec fn pow2i(n: nat) -> int
    decreases n,
{
    if n == 0 {
        1
    } else {
        2 * pow2i((n - 1) as nat)
    }
}

/// Where the magic multiplication sends a masked occupancy.
pub open spec fn magic_slot(sub: u64, magic: u64, shift: int) -> int {
    (sub.wrapping_mul(magic) >> (shift as u64)) as int
}

/// The mask of `s` as a value.
pub open spec fn mask_bb(straight: bool, s: int) -> u64 {
    bb_of(|t: int| mask_sq(straight, s, t))
}

/// `magic` hashes the sub-occupancies of `mask` without harmful collision:
/// two that share a slot give the same attack set. The mask has between 1
/// and 12 members.
pub open spec fn perfect_at(straight: bool, s: int, mask: u64, magic: u64) -> bool {
    let bits = count_from(mask, 0);
    &&& 1 <= bits <= 12
    &&& forall|a: u64, b: u64| #[trigger]
        magic_slot(a & mask, magic, 64 - bits) == #[trigger] magic_slot(b & mask, magic, 64 - bits)
            ==> slide_bb(straight, s, a & mask) == slide_bb(straight, s, b & mask)
}

/// The index whose spreading over `mask` gives the part of `sub` at `pos` or above.
pub open spec fn gather(sub: u64, mask: u64, pos: int) -> int
    decreases 64 - pos,
{
    if pos >= 64 || pos < 0 {
        0
    } else if mem(mask, pos) {
        (if mem(sub, pos) {
            1int
        } else {
            0int
        }) + 2 * gather(sub, mask, pos + 1)
    } else {
        gather(sub, mask, pos + 1)
    }
}

/// Spreading the gathered index gives the part of `sub` inside the mask
/// back, and the index is below two to the number of members.
proof fn lemma_gather(sub: u64, mask: u64, pos: int, t: int)
    requires
        0 <= pos <= 64,
    ensures
        0 <= gather(sub, mask, pos) < pow2i(count_from(mask, pos)),
        mem(spread(gather(sub, mask, pos), mask, pos), t) == (pos <= t < 64 && mem(sub, t) && mem(
            mask,
            t,
        )),
    decreases 64 - pos,
{
    if pos >= 64 {
        lemma_mem_zero(t);
    } else {
        lemma_gather(sub, mask, pos + 1, t);
        if mem(mask, pos) {
            let g = gather(sub, mask, pos + 1);
            let b = if mem(sub, pos) {
                1int
            } else {
                0int
            };
            let idx = b + 2 * g;
            assert(idx % 2 == b && idx / 2 == g);
            lemma_mem_or(bit(pos), spread(g, mask, pos + 1), t);
            lemma_mem_bit(pos, t);
        }
    }
}

/// Every sub-occupancy of a mask has a number below two to the mask's size.
pub proof fn lemma_every_sub_occupancy(occ: u64, mask: u64) -> (index: int)
    ensures
        0 <= index < pow2i(count_from(mask, 0)),
        sub_occupancy(index, mask) == occ & mask,
{
    let index = gather(occ, mask, 0);
    lemma_gather(occ, mask, 0, 0);
    assert forall|k: int| 0 <= k < 64 implies mem(spread(index, mask, 0), k) == mem(occ & mask, k) by {
        lemma_gather(occ, mask, 0, k);
        lemma_mem_and(occ, mask, k);
    }
    lemma_ext(spread(index, mask, 0), occ & mask);
    index
}

/// A sub-occupancy lies inside its mask.
proof fn lemma_sub_in_mask(index: int, mask: u64)
    ensures
        sub_occupancy(index, mask) & mask == sub_occupancy(index, mask),
{
    let sub = sub_occupancy(index, mask);
    assert forall|k: int| 0 <= k < 64 implies mem(sub & mask, k) == mem(sub, k) by {
        lemma_mem_and(sub, mask, k);
        lemma_spread_members(index, mask, 0, k);
    }
    lemma_ext(sub & mask, sub);
}

/// Attack sets agree when only the occupancy inside the mask is kept.
proof fn lemma_masked_attack(straight: bool, s: int, occ: u64, mask: u64)
    requires
        forall|u: int| mem(mask, u) == mask_sq(straight, s, u),
    ensures
        slide_bb(straight, s, occ & mask) == slide_bb(straight, s, occ),
{
    let p = |t: int| slide_hits(straight, s, occ, t);
    let v = slide_bb(straight, s, occ & mask);
    assert forall|t: int| 0 <= t < 64 implies mem(v, t) == p(t) by {
        crate::bits::lemma_bb_of(|t: int| slide_hits(straight, s, occ & mask, t), t);
        lemma_mask_suffices(straight, s, occ, mask, t);
    }
    lemma_is_bb_of(v, p);
}

/// The powers of two up to the twelfth.
proof fn lemma_pow2_values()
    ensures
        pow2i(0) == 1,
        pow2i(1) == 2,
        pow2i(2) == 4,
        pow2i(3) == 8,
        pow2i(4) == 16,
        pow2i(5) == 32,
        pow2i(6) == 64,
        pow2i(7) == 128,
        pow2i(8) == 256,
        pow2i(9) == 512,
        pow2i(10) == 1024,
        pow2i(11) == 2048,
        pow2i(12) == 4096,
{
    assert(pow2i(0) == 1);
    assert(pow2i(1) == 2);
    assert(pow2i(2) == 4);
    assert(pow2i(3) == 8);
    assert(pow2i(4) == 16);
    assert(pow2i(5) == 32);
    assert(pow2i(6) == 64);
    assert(pow2i(7) == 128);
    assert(pow2i(8) == 256);
    assert(pow2i(9) == 512);
    assert(pow2i(10) == 1024);
    assert(pow2i(11) == 2048);
    assert(pow2i(12) == 4096);
}

/// The powers of two up to the twelfth lie between 1 and 4096.
proof fn lemma_pow2_small(n: nat)
    requires
        n <= 12,
    ensures
        1 <= pow2i(n) <= 4096,
        n >= 1 ==> pow2i(n) == 2 * pow2i((n - 1) as nat),
{
    lemma_pow2_values();
}

/// A value shifted down by `64 - bits` is below two to the `bits`.
proof fn lemma_slot_bound(x: u64, bits: nat)
    requires
        1 <= bits <= 12,
    ensures
        0 <= (x >> ((64 - bits) as u64)) < pow2i(bits),
{
    let sh = (64 - bits) as u64;
    let v = x >> sh;
    assert({
        &&& (sh == 63 ==> v < 2)
        &&& (sh == 62 ==> v < 4)
        &&& (sh == 61 ==> v < 8)
        &&& (sh == 60 ==> v < 16)
        &&& (sh == 59 ==> v < 32)
        &&& (sh == 58 ==> v < 64)
        &&& (sh == 57 ==> v < 128)
        &&& (sh == 56 ==> v < 256)
        &&& (sh == 55 ==> v < 512)
        &&& (sh == 54 ==> v < 1024)
        &&& (sh == 53 ==> v < 2048)
        &&& (sh == 52 ==> v < 4096)
    }) by (bit_vector)
        requires
            v == x >> sh,
    ;
    lemma_pow2_values();
}

/// Two to the `bits`.
fn table_size(bits: u32) -> (size: usize)
    requires
        bits <= 12,
    ensures
        size == pow2i(bits as nat),
        1 <= size <= 4096,
{
    let mut size: usize = 1;
    let mut b: u32 = 0;
    while b < bits
        invariant
            b <= bits <= 12,
            size == pow2i(b as nat),
        decreases bits - b,
    {
        proof {
            lemma_pow2_small(b as nat);
            lemma_pow2_small((b + 1) as nat);
        }
        size = size * 2;
        b += 1;
    }
    proof {
        lemma_pow2_small(bits as nat);
    }
    size
}

/// Appends to `attacks` the block of one square: for every sub-occupancy of
/// `mask`, the ray-walk attack set is stored at the slot `magic` sends it to.
/// Gives up, with `false`, when the mask has no member or more than 12, or
/// when two sub-occupancies with different attack sets share a slot.
fn fill_square(attacks: &mut Vec<u64>, straight: bool, sq: usize, mask: u64, magic: u64) -> (ok:
    bool)
    requires
        sq < 64,
        forall|u: int| mem(mask, u) == mask_sq(straight, sq as int, u),
        old(attacks).len() <= 64 * 4096,
    ensures
        ok == perfect_at(straight, sq as int, mask, magic),
        ok ==> final(attacks).len() == old(attacks).len() + pow2i(count_from(mask, 0)),
        ok ==> forall|i: int| 0 <= i < old(attacks).len() ==> final(attacks)@[i] == old(attacks)@[i],
        ok ==> forall|occ: u64|
            {
                let slot = old(attacks).len() + #[trigger] magic_slot(
                    occ & mask,
                    magic,
                    64 - count_from(mask, 0),
                );
                old(attacks).len() <= slot < final(attacks).len() && final(attacks)@[slot]
                    == slide_bb(straight, sq as int, occ)
            },
{
    let bits = mask.count_ones();
    if bits == 0 || bits > MAX_MASK_BITS {
        return false;
    }
    let size = table_size(bits);
    let shift = 64 - bits;
    let offset = attacks.len();
    let ghost s = sq as int;
    let ghost before = attacks@;
    let mut filled: Vec<bool> = Vec::new();
    let mut n: usize = 0;
    while n < size
        invariant
            n <= size <= 4096,
            offset == before.len(),
            offset <= 64 * 4096,
            attacks@.len() == offset + n,
            filled@.len() == n,
            forall|i: int| 0 <= i < offset ==> attacks@[i] == before[i],
            forall|i: int| 0 <= i < n ==> !filled@[i],
        decreases size - n,
    {
        attacks.push(0);
        filled.push(false);
        n += 1;
    }
    let ghost mut filler: Seq<int> = Seq::new(size as nat, |i: int| 0int);
    let mut index: usize = 0;
    while index < size
        invariant
            sq < 64,
            s == sq,
            1 <= bits <= 12,
            bits == count_from(mask, 0),
            shift == 64 - bits,
            size == pow2i(bits as nat),
            index <= size <= 4096,
            offset == before.len(),
            offset <= 64 * 4096,
            attacks@.len() == offset + size,
            filled@.len() == size,
            filler.len() == size,
            forall|i: int| 0 <= i < offset ==> attacks@[i] == before[i],
            forall|j: int|
                0 <= j < index ==> {
                    let h = #[trigger] magic_slot(sub_occupancy(j, mask), magic, shift as int);
                    0 <= h < size && filled@[h] && attacks@[offset + h] == slide_bb(
                        straight,
                        s,
                        sub_occupancy(j, mask),
                    )
                },
            forall|h: int|
                0 <= h < size && #[trigger] filled@[h] ==> 0 <= filler[h] < index && magic_slot(
                    sub_occupancy(filler[h], mask),
                    magic,
                    shift as int,
                ) == h,
        decreases size - index,
    {
        let occ = index_to_occupancy(index, mask);
        let hash = (occ.wrapping_mul(magic) >> shift) as usize;
        proof {
            lemma_slot_bound(occ.wrapping_mul(magic), bits as nat);
            assert(hash == magic_slot(occ, magic, shift as int));
        }
        let value = if straight {
            rook_attacks_slow(sq, occ)
        } else {
            bishop_attacks_slow(sq, occ)
        };
        if !filled[hash] {
            attacks[offset + hash] = value;
            filled[hash] = true;
            proof {
                filler = filler.update(hash as int, index as int);
            }
        } else if attacks[offset + hash] != value {
            proof {
                let a = sub_occupancy(filler[hash as int], mask);
                lemma_sub_in_mask(filler[hash as int], mask);
                lemma_sub_in_mask(index as int, mask);
                assert(magic_slot(a & mask, magic, 64 - bits) == magic_slot(
                    occ & mask,
                    magic,
                    64 - bits,
                ));
                assert(slide_bb(straight, s, a & mask) != slide_bb(straight, s, occ & mask));
            }
            return false;
        }
        index += 1;
    }
    proof {
        assert forall|occ: u64|
            {
                let h = #[trigger] magic_slot(occ & mask, magic, 64 - count_from(mask, 0));
                0 <= h < size && attacks@[offset + h] == slide_bb(straight, s, occ & mask)
                    && attacks@[offset + h] == slide_bb(straight, s, occ)
            } by {
            let j = lemma_every_sub_occupancy(occ, mask);
            assert(0 <= magic_slot(sub_occupancy(j, mask), magic, shift as int) < size);
            lemma_masked_attack(straight, s, occ, mask);
        }
    }
    true
}

/// Where the block of square `s` starts in the flat table: after the
/// blocks of the squares before it, each of two to the size of its mask.
pub open spec fn block_start(masks: Seq<u64>, s: int) -> int
    decreases s,
{
    if s <= 0 {
        0
    } else {
        block_start(masks, s - 1) + pow2i(count_from(masks[s - 1], 0))
    }
}

/// The magic table of one kind of slider.
pub struct SliderTable {
    /// Rook tables when set, bishop tables otherwise.
    pub straight: bool,
    pub masks: [u64; 64],
    pub magics: [u64; 64],
    pub shifts: [u8; 64],
    pub offsets: [usize; 64],
    pub attacks: Vec<u64>,
}

impl SliderTable {
    /// Where the attack set for square `s` and occupancy `occ` is stored.
    pub open spec fn slot(self, s: int, occ: u64) -> int {
        self.offsets@[s] + magic_slot(occ & self.masks@[s], self.magics@[s], self.shifts@[s] as int)
    }

    /// What the table answers for square `s` and occupancy `occ`.
    pub open spec fn answer(self, s: int, occ: u64) -> u64 {
        self.attacks@[self.slot(s, occ)]
    }

    /// The masks are the relevant-occupancy masks; the shift of a square is
    /// 64 less the size of its mask; the blocks of the squares follow one
    /// another in one table; and every lookup stays inside the table and
    /// finds the ray-walk attack set.
    pub open spec fn wf(self) -> bool {
        &&& forall|s: int, t: int|
            0 <= s < 64 ==> #[trigger] mem(self.masks@[s], t) == mask_sq(self.straight, s, t)
        &&& forall|s: int|
            0 <= s < 64 ==> 52 <= #[trigger] self.shifts@[s] <= 63 && self.shifts@[s] == 64
                - count_from(self.masks@[s], 0)
        &&& forall|s: int| 0 <= s < 64 ==> #[trigger] self.offsets@[s] == block_start(self.masks@, s)
        &&& self.attacks@.len() == block_start(self.masks@, 64)
        &&& forall|s: int, occ: u64|
            0 <= s < 64 ==> 0 <= #[trigger] self.slot(s, occ) < self.attacks@.len()
        &&& forall|s: int, occ: u64|
            0 <= s < 64 ==> #[trigger] self.answer(s, occ) == slide_bb(self.straight, s, occ)
    }

    /// Builds the table for the given multipliers. Succeeds exactly when every
    /// multiplier hashes its square's sub-occupancies without harmful collision.
    pub fn build(straight: bool, magics: [u64; 64]) -> (r: Option<SliderTable>)
        ensures
            r is Some <==> forall|s: int|
                0 <= s < 64 ==> perfect_at(straight, s, mask_bb(straight, s), magics@[s]),
            r is Some ==> r->Some_0.wf() && r->Some_0.straight == straight && r->Some_0.magics
                == magics,
    {
        let masks = generate_masks(straight);
        let mut shifts = [0u8;64];
        let mut offsets = [0usize;64];
        let mut attacks: Vec<u64> = Vec::new();
        let mut sq: usize = 0;
        proof {
            assert forall|s: int| 0 <= s < 64 implies masks@[s] == mask_bb(straight, s) by {
                lemma_is_bb_of(masks@[s], |t: int| mask_sq(straight, s, t));
            }
        }
        while sq < 64
            invariant
                sq <= 64,
                attacks@.len() <= sq * 4096,
                attacks@.len() == block_start(masks@, sq as int),
                forall|s: int| 0 <= s < sq ==> #[trigger] offsets@[s] == block_start(masks@, s),
                forall|s: int, t: int|
                    0 <= s < 64 ==> #[trigger] mem(masks@[s], t) == mask_sq(straight, s, t),
                forall|s: int| 0 <= s < 64 ==> masks@[s] == mask_bb(straight, s),
                forall|s: int| 0 <= s < sq ==> perfect_at(straight, s, masks@[s], magics@[s]),
                forall|s: int|
                    0 <= s < sq ==> 52 <= #[trigger] shifts@[s] <= 63 && shifts@[s] == 64
                        - count_from(masks@[s], 0),
                forall|s: int, occ: u64|
                    0 <= s < sq ==> {
                        let slot = offsets@[s] + #[trigger] magic_slot(
                            occ & masks@[s],
                            magics@[s],
                            shifts@[s] as int,
                        );
                        0 <= slot < attacks@.len() && attacks@[slot] == slide_bb(straight, s, occ)
                    },
            decreases 64 - sq,
        {
            let mask = masks[sq];
            let offset = attacks.len();
            let ghost prev = attacks@;
            let ok = fill_square(&mut attacks, straight, sq, mask, magics[sq]);
            if !ok {
                assert(!perfect_at(straight, sq as int, mask_bb(straight, sq as int), magics@[sq as int]));
                return None;
            }
            proof {
                lemma_pow2_small(count_from(mask, 0));
            }
            offsets[sq] = offset;
            shifts[sq] = (64 - mask.count_ones()) as u8;
            sq += 1;
        }
        let table = SliderTable { straight, masks, magics, shifts, offsets, attacks };
        proof {
            assert forall|s: int, occ: u64| 0 <= s < 64 implies 0 <= #[trigger] table.slot(s, occ)
                < table.attacks@.len() by {
                assert(0 <= offsets@[s] + magic_slot(occ & masks@[s], magics@[s], shifts@[s] as int)
                    < attacks@.len());
            }
            assert forall|s: int, occ: u64| 0 <= s < 64 implies #[trigger] table.answer(s, occ)
                == slide_bb(straight, s, occ) by {
                assert(attacks@[offsets@[s] + magic_slot(
                    occ & masks@[s],
                    magics@[s],
                    shifts@[s] as int,
                )] == slide_bb(straight, s, occ));
            }
        }
        Some(table)
    }

    /// The attack set of the slider on `sq` with occupancy `occ`, by one
    /// multiplication, one shift and one read.
    #[inline(always)]
    pub fn lookup(&self, sq: usize, occ: u64) -> (r: u64)
        requires
            self.wf(),
            sq < 64,
        ensures
            r == self.answer(sq as int, occ),
            r == slide_bb(self.straight, sq as int, occ),
            forall|t: int| mem(r, t) == slide_hits(self.straight, sq as int, occ, t),
    {
        let mask = self.masks[sq];
        let magic = self.magics[sq];
        let shift = self.shifts[sq];
        let offset = self.offsets[sq];
        proof {
            lemma_slot_bound((occ & mask).wrapping_mul(magic), (64 - shift) as nat);
            lemma_pow2_small((64 - shift) as nat);
            assert(0 <= self.slot(sq as int, occ) < self.attacks@.len());
            assert(self.answer(sq as int, occ) == slide_bb(self.straight, sq as int, occ));
            assert forall|t: int|
                mem(slide_bb(self.straight, sq as int, occ), t) == slide_hits(
                    self.straight,
                    sq as int,
                    occ,
                    t,
                ) by {
                crate::bits::lemma_bb_of(|t: int| slide_hits(self.straight, sq as int, occ, t), t);
                if !(0 <= t < 64) {
                }
            }
        }
        let idx = ((occ & mask).wrapping_mul(magic) >> shift) as usize;
        assert(offset + idx == self.slot(sq as int, occ));
        assert(self.attacks.len() == self.attacks@.len());
        self.attacks[offset + idx]
    }
}

/// The magic tables of both sliders.
pub struct MagicTables {
    pub rook: SliderTable,
    pub bishop: SliderTable,
}

impl MagicTables {
    /// Both tables are well formed, the rook table for straight lines and
    /// the bishop table for diagonals.
    pub open spec fn wf(self) -> bool {
        &&& self.rook.wf()
        &&& self.rook.straight
        &&& self.bishop.wf()
        &&& !self.bishop.straight
    }

    /// Builds both tables from the fixed multipliers. Succeeds exactly when
    /// each multiplier is a perfect hash for its square.
    pub fn new() -> (r: Option<MagicTables>)
        ensures
            r is Some <==> forall|s: int|
                0 <= s < 64 ==> perfect_at(true, s, mask_bb(true, s), ROOK_MAGICS@[s])
                    && perfect_at(false, s, mask_bb(false, s), BISHOP_MAGICS@[s]),
            r is Some ==> r->Some_0.wf() && r->Some_0.rook.magics == ROOK_MAGICS
                && r->Some_0.bishop.magics == BISHOP_MAGICS,
    {
        let rook = match SliderTable::build(true, ROOK_MAGICS) {
            Some(t) => t,
            None => {
                return None;
            },
        };
        let bishop = match SliderTable::build(false, BISHOP_MAGICS) {
            Some(t) => t,
            None => {
                return None;
            },
        };
        Some(MagicTables { rook, bishop })
    }
}

/// The squares a bishop on `sq` attacks when the board is occupied as `occ` says.
#[inline(always)]
pub fn bishop_attacks(magic: &MagicTables, sq: usize, occ: u64) -> (r: u64)
    requires
        magic.wf(),
        sq < 64,
    ensures
        r == slide_bb(false, sq as int, occ),
        forall|t: int| mem(r, t) == slide_hits(false, sq as int, occ, t),
{
    magic.bishop.lookup(sq, occ)
}

/// The squares a rook on `sq` attacks when the board is occupied as `occ` says.
#[inline(always)]
pub fn rook_attacks(magic: &MagicTables, sq: usize, occ: u64) -> (r: u64)
    requires
        magic.wf(),
        sq < 64,
    ensures
        r == slide_bb(true, sq as int, occ),
        forall|t: int| mem(r, t) == slide_hits(true, sq as int, occ, t),
{
    magic.rook.lookup(sq, occ)
}

/// The squares a queen on `sq` attacks: those of a rook and those of a bishop.
#[inline(always)]
pub fn queen_attacks(magic: &MagicTables, sq: usize, occ: u64) -> (r: u64)
    requires
        magic.wf(),
        sq < 64,
    ensures
        r == slide_bb(false, sq as int, occ) | slide_bb(true, sq as int, occ),
        forall|t: int|
            mem(r, t) == (slide_hits(false, sq as int, occ, t) || slide_hits(
                true,
                sq as int,
                occ,
                t,
            )),
{
    let b = bishop_attacks(magic, sq, occ);
    let r = rook_attacks(magic, sq, occ);
    proof {
        assert forall|t: int|
            mem(b | r, t) == (slide_hits(false, sq as int, occ, t) || slide_hits(
                true,
                sq as int,
                occ,
                t,
            )) by {
            lemma_mem_or(b, r, t);
        }
    }
    b | r
}

/// Magic lookup agrees with the ray walk: for every square, and every
/// occupancy (so for every sub-occupancy of the square's mask), the table
/// answers with the attack set that walking the rays gives.
pub proof fn lemma_lookup_is_ray_walk(table: SliderTable, s: int, occ: u64, index: int)
    requires
        table.wf(),
        0 <= s < 64,
    ensures
        table.answer(s, occ) == slide_bb(table.straight, s, occ),
        table.answer(s, sub_occupancy(index, table.masks@[s])) == slide_bb(
            table.straight,
            s,
            sub_occupancy(index, table.masks@[s]),
        ),
{
}

} // verus!
