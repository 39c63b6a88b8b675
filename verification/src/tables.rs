//! Board geometry and the attack tables that do not depend on occupancy.

use vstd::prelude::*;
use crate::bits::{lemma_bit_shl, lemma_bit_shr, lemma_meets, lemma_mem_or, lemma_mem_zero, mem, square_bb};
use crate::board::Color;
use crate::magic::{BISHOP_MAGICS, MagicTables, mask_bb, perfect_at, ROOK_MAGICS};

verus! {

/// The files as sets.
pub const FILE_A: u64 = 0x0101010101010101;
pub const FILE_B: u64 = 0x0202020202020202;
pub const FILE_C: u64 = 0x0404040404040404;
pub const FILE_D: u64 = 0x0808080808080808;
pub const FILE_E: u64 = 0x1010101010101010;
pub const FILE_F: u64 = 0x2020202020202020;
pub const FILE_G: u64 = 0x4040404040404040;
pub const FILE_H: u64 = 0x8080808080808080;

/// Guards for shifts across the a- and h-file: everything but the named files.
pub const NOT_FILE_A: u64 = 0xFEFEFEFEFEFEFEFE;
pub const NOT_FILE_H: u64 = 0x7F7F7F7F7F7F7F7F;
pub const NOT_FILE_AB: u64 = 0xFCFCFCFCFCFCFCFC;
pub const NOT_FILE_GH: u64 = 0x3F3F3F3F3F3F3F3F;

/// The ranks as sets.
pub const RANK_1: u64 = 0x00000000000000FF;
pub const RANK_2: u64 = 0x000000000000FF00;
pub const RANK_3: u64 = 0x0000000000FF0000;
pub const RANK_4: u64 = 0x00000000FF000000;
pub const RANK_5: u64 = 0x000000FF00000000;
pub const RANK_6: u64 = 0x0000FF0000000000;
pub const RANK_7: u64 = 0x00FF000000000000;
pub const RANK_8: u64 = 0xFF00000000000000;

/// The eight directions, clockwise from north.
pub const DIR_N: usize = 0;
pub const DIR_NE: usize = 1;
pub const DIR_E: usize = 2;
pub const DIR_SE: usize = 3;
pub const DIR_S: usize = 4;
pub const DIR_SW: usize = 5;
pub const DIR_W: usize = 6;
pub const DIR_NW: usize = 7;

/// File of a square, 0 for the a-file.
pub open spec fn file_of(sq: int) -> int {
    sq % 8
}

/// Rank of a square, 0 for the first rank.
pub open spec fn rank_of(sq: int) -> int {
    sq / 8
}

/// The index is that of a square.
pub open spec fn on_board(sq: int) -> bool {
    0 <= sq < 64
}

/// Distance between two files or two ranks.
pub open spec fn dist(a: int, b: int) -> int {
    if a < b {
        b - a
    } else {
        a - b
    }
}

/// `t` is a knight's jump away from `s`.
pub open spec fn knight_step(s: int, t: int) -> bool {
    let df = dist(file_of(s), file_of(t));
    let dr = dist(rank_of(s), rank_of(t));
    on_board(s) && on_board(t) && ((df == 1 && dr == 2) || (df == 2 && dr == 1))
}

/// `t` is next to `s`, along a rank, a file or a diagonal.
pub open spec fn king_step(s: int, t: int) -> bool {
    let df = dist(file_of(s), file_of(t));
    let dr = dist(rank_of(s), rank_of(t));
    on_board(s) && on_board(t) && s != t && df <= 1 && dr <= 1
}

/// A pawn of `color` on `s` attacks `t`: one file aside, one rank ahead.
pub open spec fn pawn_step(color: Color, s: int, t: int) -> bool {
    on_board(s) && on_board(t) && dist(file_of(s), file_of(t)) == 1 && rank_of(t) - rank_of(s) == (
    match color {
        Color::White => 1int,
        Color::Black => -1int,
    })
}

/// File step of a direction: east is +1, west is -1.
pub open spec fn dir_df(dir: int) -> int {
    if dir == 1 || dir == 2 || dir == 3 {
        1
    } else if dir == 5 || dir == 6 || dir == 7 {
        -1
    } else {
        0
    }
}

/// Rank step of a direction: north is +1, south is -1.
pub open spec fn dir_dr(dir: int) -> int {
    if dir == 7 || dir == 0 || dir == 1 {
        1
    } else if dir == 3 || dir == 4 || dir == 5 {
        -1
    } else {
        0
    }
}

/// -1, 0 or 1 as `x` is negative, zero or positive.
pub open spec fn sign_of(x: int) -> int {
    if x > 0 {
        1
    } else if x < 0 {
        -1
    } else {
        0
    }
}

/// `k` along a step `d` of -1, 0 or +1.
pub open spec fn scale(k: int, d: int) -> int {
    if d > 0 {
        k
    } else if d < 0 {
        -k
    } else {
        0
    }
}

/// Number of king steps between two squares.
pub open spec fn steps(s: int, t: int) -> int {
    let df = dist(file_of(s), file_of(t));
    let dr = dist(rank_of(s), rank_of(t));
    if df > dr {
        df
    } else {
        dr
    }
}

/// `t` lies `k` steps of `(df, dr)` away from `s`.
pub open spec fn stepped(s: int, df: int, dr: int, k: int, t: int) -> bool {
    &&& on_board(s)
    &&& on_board(t)
    &&& file_of(t) == file_of(s) + scale(k, df)
    &&& rank_of(t) == rank_of(s) + scale(k, dr)
}

/// `t` is reached from `s` going in direction `dir`, `s` itself excluded.
pub open spec fn on_ray(dir: int, s: int, t: int) -> bool {
    steps(s, t) >= 1 && stepped(s, dir_df(dir), dir_dr(dir), steps(s, t), t)
}

/// Two different squares on one rank, file or diagonal.
pub open spec fn aligned(a: int, b: int) -> bool {
    &&& on_board(a)
    &&& on_board(b)
    &&& a != b
    &&& (file_of(a) == file_of(b) || rank_of(a) == rank_of(b) || dist(file_of(a), file_of(b))
        == dist(rank_of(a), rank_of(b)))
}

/// Two different squares on one rank or file.
pub open spec fn aligned_straight(a: int, b: int) -> bool {
    &&& on_board(a)
    &&& on_board(b)
    &&& a != b
    &&& (file_of(a) == file_of(b) || rank_of(a) == rank_of(b))
}

/// Two different squares on one diagonal.
pub open spec fn aligned_diagonal(a: int, b: int) -> bool {
    &&& on_board(a)
    &&& on_board(b)
    &&& a != b
    &&& dist(file_of(a), file_of(b)) == dist(rank_of(a), rank_of(b))
}

/// `t` lies strictly between the aligned squares `a` and `b`.
pub open spec fn between_sq(a: int, b: int, t: int) -> bool {
    &&& aligned(a, b)
    &&& 1 <= steps(a, t) < steps(a, b)
    &&& stepped(
        a,
        sign_of(file_of(b) - file_of(a)),
        sign_of(rank_of(b) - rank_of(a)),
        steps(a, t),
        t,
    )
}

/// `t` lies on the rank, file or diagonal through the aligned squares `a` and `b`.
pub open spec fn line_sq(a: int, b: int, t: int) -> bool {
    let df = sign_of(file_of(b) - file_of(a));
    let dr = sign_of(rank_of(b) - rank_of(a));
    &&& aligned(a, b)
    &&& on_board(t)
    &&& (stepped(a, df, dr, steps(a, t), t) || stepped(a, -df, -dr, steps(a, t), t))
}

/// Members of the file and rank masks.
pub proof fn lemma_masks(sq: int)
    requires
        0 <= sq < 64,
    ensures
        mem(FILE_A, sq) == (file_of(sq) == 0),
        mem(FILE_H, sq) == (file_of(sq) == 7),
        mem(NOT_FILE_A, sq) == (file_of(sq) != 0),
        mem(NOT_FILE_H, sq) == (file_of(sq) != 7),
        mem(NOT_FILE_AB, sq) == (file_of(sq) >= 2),
        mem(NOT_FILE_GH, sq) == (file_of(sq) <= 5),
        mem(RANK_1, sq) == (rank_of(sq) == 0),
        mem(RANK_2, sq) == (rank_of(sq) == 1),
        mem(RANK_7, sq) == (rank_of(sq) == 6),
        mem(RANK_8, sq) == (rank_of(sq) == 7),
{
    let k = sq as u64;
    assert({
        &&& ((0x0101010101010101u64 >> k) & 1 == 1) == (k % 8 == 0)
        &&& ((0x8080808080808080u64 >> k) & 1 == 1) == (k % 8 == 7)
        &&& ((0xFEFEFEFEFEFEFEFEu64 >> k) & 1 == 1) == (k % 8 != 0)
        &&& ((0x7F7F7F7F7F7F7F7Fu64 >> k) & 1 == 1) == (k % 8 != 7)
        &&& ((0xFCFCFCFCFCFCFCFCu64 >> k) & 1 == 1) == (k % 8 >= 2)
        &&& ((0x3F3F3F3F3F3F3F3Fu64 >> k) & 1 == 1) == (k % 8 <= 5)
        &&& ((0x00000000000000FFu64 >> k) & 1 == 1) == (k / 8 == 0)
        &&& ((0x000000000000FF00u64 >> k) & 1 == 1) == (k / 8 == 1)
        &&& ((0x00FF000000000000u64 >> k) & 1 == 1) == (k / 8 == 6)
        &&& ((0xFF00000000000000u64 >> k) & 1 == 1) == (k / 8 == 7)
    }) by (bit_vector)
        requires
            k < 64,
    ;
}

/// The eight jumps written as index offsets with their file conditions.
proof fn lemma_knight_offsets(s: int, t: int)
    requires
        0 <= s < 64,
    ensures
        knight_step(s, t) == (on_board(t) && {
            ||| (file_of(s) != 7 && (t == s + 17 || t == s - 15))
            ||| (file_of(s) <= 5 && (t == s + 10 || t == s - 6))
            ||| (file_of(s) != 0 && (t == s - 17 || t == s + 15))
            ||| (file_of(s) >= 2 && (t == s - 10 || t == s + 6))
        }),
{
    if 0 <= t < 64 {
        let fs = file_of(s);
        let rs = rank_of(s);
        let ft = file_of(t);
        let rt = rank_of(t);
        assert(s == 8 * rs + fs && t == 8 * rt + ft);
        assert(t - s == 8 * (rt - rs) + (ft - fs));
    }
}

/// The squares a knight on `sq` attacks.
fn knight_attacks_from(sq: usize) -> (atk: u64)
    requires
        sq < 64,
    ensures
        forall|t: int| mem(atk, t) == knight_step(sq as int, t),
{
    let bb = square_bb(sq);
    proof {
        lemma_masks(sq as int);
        lemma_meets(NOT_FILE_A, sq as int);
        lemma_meets(NOT_FILE_H, sq as int);
        lemma_meets(NOT_FILE_AB, sq as int);
        lemma_meets(NOT_FILE_GH, sq as int);
    }
    let mut atk = 0u64;
    // NNE: +17 (up 2, right 1)
    if bb & NOT_FILE_H != 0 {
        atk |= bb << 17;
    }
    // NEE: +10 (up 1, right 2)
    if bb & NOT_FILE_GH != 0 {
        atk |= bb << 10;
    }
    // SEE: -6 (down 1, right 2)
    if bb & NOT_FILE_GH != 0 {
        atk |= bb >> 6;
    }
    // SSE: -15 (down 2, right 1)
    if bb & NOT_FILE_H != 0 {
        atk |= bb >> 15;
    }
    // SSW: -17 (down 2, left 1)
    if bb & NOT_FILE_A != 0 {
        atk |= bb >> 17;
    }
    // SWW: -10 (down 1, left 2)
    if bb & NOT_FILE_AB != 0 {
        atk |= bb >> 10;
    }
    // NWW: +6 (up 1, left 2)
    if bb & NOT_FILE_AB != 0 {
        atk |= bb << 6;
    }
    // NNW: +15 (up 2, left 1)
    if bb & NOT_FILE_A != 0 {
        atk |= bb << 15;
    }
    proof {
        assert forall|t: int| mem(atk, t) == knight_step(sq as int, t) by {
            broadcast use lemma_mem_or, lemma_mem_zero;

            let s = sq as int;
            lemma_bit_shl(s, 17, t);
            lemma_bit_shl(s, 10, t);
            lemma_bit_shr(s, 6, t);
            lemma_bit_shr(s, 15, t);
            lemma_bit_shr(s, 17, t);
            lemma_bit_shr(s, 10, t);
            lemma_bit_shl(s, 6, t);
            lemma_bit_shl(s, 15, t);
            lemma_knight_offsets(s, t);
        }
    }
    atk
}

/// Knight attacks by square.
pub fn generate_knight_attacks() -> (attacks: [u64; 64])
    ensures
        forall|s: int, t: int| 0 <= s < 64 ==> #[trigger] mem(attacks@[s], t) == knight_step(s, t),
{
    let mut attacks = [0u64;64];
    let mut sq = 0usize;
    while sq < 64
        invariant
            sq <= 64,
            forall|s: int, t: int| 0 <= s < sq ==> #[trigger] mem(attacks@[s], t) == knight_step(s, t),
        decreases 64 - sq,
    {
        let atk = knight_attacks_from(sq);
        attacks[sq] = atk;
        sq += 1;
    }
    attacks
}

/// The eight neighbours written as index offsets with their file conditions.
proof fn lemma_king_offsets(s: int, t: int)
    requires
        0 <= s < 64,
    ensures
        king_step(s, t) == (on_board(t) && {
            ||| t == s + 8
            ||| t == s - 8
            ||| (file_of(s) != 7 && (t == s + 1 || t == s + 9 || t == s - 7))
            ||| (file_of(s) != 0 && (t == s - 1 || t == s + 7 || t == s - 9))
        }),
{
}

/// The squares next to `sq`.
fn king_attacks_from(sq: usize) -> (atk: u64)
    requires
        sq < 64,
    ensures
        forall|t: int| mem(atk, t) == king_step(sq as int, t),
{
    let bb = square_bb(sq);
    proof {
        lemma_masks(sq as int);
        lemma_meets(NOT_FILE_A, sq as int);
        lemma_meets(NOT_FILE_H, sq as int);
    }
    let mut atk = 0u64;
    // North
    atk |= bb << 8;
    // South
    atk |= bb >> 8;
    // East (not on H file)
    if bb & NOT_FILE_H != 0 {
        atk |= bb << 1;
        atk |= bb << 9;  // NE
        atk |= bb >> 7;  // SE
    }
    // West (not on A file)
    if bb & NOT_FILE_A != 0 {
        atk |= bb >> 1;
        atk |= bb << 7;  // NW
        atk |= bb >> 9;  // SW
    }
    proof {
        assert forall|t: int| mem(atk, t) == king_step(sq as int, t) by {
            broadcast use lemma_mem_or, lemma_mem_zero;

            let s = sq as int;
            lemma_bit_shl(s, 8, t);
            lemma_bit_shr(s, 8, t);
            lemma_bit_shl(s, 1, t);
            lemma_bit_shl(s, 9, t);
            lemma_bit_shr(s, 7, t);
            lemma_bit_shr(s, 1, t);
            lemma_bit_shl(s, 7, t);
            lemma_bit_shr(s, 9, t);
            lemma_king_offsets(s, t);
        }
    }
    atk
}

/// King attacks by square.
pub fn generate_king_attacks() -> (attacks: [u64; 64])
    ensures
        forall|s: int, t: int| 0 <= s < 64 ==> #[trigger] mem(attacks@[s], t) == king_step(s, t),
{
    let mut attacks = [0u64;64];
    let mut sq = 0usize;
    while sq < 64
        invariant
            sq <= 64,
            forall|s: int, t: int| 0 <= s < sq ==> #[trigger] mem(attacks@[s], t) == king_step(s, t),
        decreases 64 - sq,
    {
        let atk = king_attacks_from(sq);
        attacks[sq] = atk;
        sq += 1;
    }
    attacks
}

/// The two captures written as index offsets with their file conditions.
proof fn lemma_pawn_offsets(s: int, t: int)
    requires
        0 <= s < 64,
    ensures
        pawn_step(Color::White, s, t) == (on_board(t) && {
            ||| (file_of(s) != 0 && t == s + 7)
            ||| (file_of(s) != 7 && t == s + 9)
        }),
        pawn_step(Color::Black, s, t) == (on_board(t) && {
            ||| (file_of(s) != 0 && t == s - 9)
            ||| (file_of(s) != 7 && t == s - 7)
        }),
{
}

/// The squares a pawn of `color` on `sq` attacks.
fn pawn_attacks_from(color: Color, sq: usize) -> (atk: u64)
    requires
        sq < 64,
    ensures
        forall|t: int| mem(atk, t) == pawn_step(color, sq as int, t),
{
    let bb = square_bb(sq);
    proof {
        lemma_masks(sq as int);
        lemma_meets(NOT_FILE_A, sq as int);
        lemma_meets(NOT_FILE_H, sq as int);
    }
    let mut atk = 0u64;
    match color {
        Color::White => {
            if bb & NOT_FILE_A != 0 {
                atk |= bb << 7;  // NW capture
            }
            if bb & NOT_FILE_H != 0 {
                atk |= bb << 9;  // NE capture
            }
        },
        Color::Black => {
            if bb & NOT_FILE_A != 0 {
                atk |= bb >> 9;  // SW capture
            }
            if bb & NOT_FILE_H != 0 {
                atk |= bb >> 7;  // SE capture
            }
        },
    }
    proof {
        assert forall|t: int| mem(atk, t) == pawn_step(color, sq as int, t) by {
            broadcast use lemma_mem_or, lemma_mem_zero;

            let s = sq as int;
            lemma_bit_shl(s, 7, t);
            lemma_bit_shl(s, 9, t);
            lemma_bit_shr(s, 9, t);
            lemma_bit_shr(s, 7, t);
            lemma_pawn_offsets(s, t);
        }
    }
    atk
}

/// The pawn attack table of one colour.
fn pawn_attacks_of(color: Color) -> (attacks: [u64; 64])
    ensures
        forall|s: int, t: int|
            0 <= s < 64 ==> #[trigger] mem(attacks@[s], t) == pawn_step(color, s, t),
{
    let mut attacks = [0u64;64];
    let mut sq = 0usize;
    while sq < 64
        invariant
            sq <= 64,
            forall|s: int, t: int|
                0 <= s < sq ==> #[trigger] mem(attacks@[s], t) == pawn_step(color, s, t),
        decreases 64 - sq,
    {
        let atk = pawn_attacks_from(color, sq);
        attacks[sq] = atk;
        sq += 1;
    }
    attacks
}

/// Pawn attacks by colour (0 White, 1 Black) and square.
pub fn generate_pawn_attacks() -> (attacks: [[u64; 64]; 2])
    ensures
        forall|c: Color, s: int, t: int|
            0 <= s < 64 ==> #[trigger] mem(attacks@[c.idx()]@[s], t) == pawn_step(c, s, t),
{
    let white = pawn_attacks_of(Color::White);
    let black = pawn_attacks_of(Color::Black);
    [white, black]
}

/// File step of a direction.
pub fn delta_file(dir: usize) -> (d: i8)
    requires
        dir < 8,
    ensures
        d == dir_df(dir as int),
{
    match dir {
        1 | 2 | 3 => 1,
        5 | 6 | 7 => -1,
        _ => 0,
    }
}

/// Rank step of a direction.
pub fn delta_rank(dir: usize) -> (d: i8)
    requires
        dir < 8,
    ensures
        d == dir_dr(dir as int),
{
    match dir {
        7 | 0 | 1 => 1,
        3 | 4 | 5 => -1,
        _ => 0,
    }
}

/// The squares from `sq` to the edge in direction `dir`, `sq` excluded.
fn ray_from(sq: usize, dir: usize) -> (ray: u64)
    requires
        sq < 64,
        dir < 8,
    ensures
        forall|t: int| mem(ray, t) == on_ray(dir as int, sq as int, t),
{
    let df = delta_file(dir);
    let dr = delta_rank(dir);
    let file = (sq % 8) as i8;
    let rank = (sq / 8) as i8;
    let mut f: i8 = file + df;
    let mut r: i8 = rank + dr;
    let mut ray = 0u64;
    let ghost mut k: int = 1;
    proof {
        assert forall|t: int| mem(ray, t) == (on_ray(dir as int, sq as int, t) && steps(sq as int, t) < k) by {
            lemma_mem_zero(t);
        }
    }
    while 0 <= f && f < 8 && 0 <= r && r < 8
        invariant
            sq < 64,
            dir < 8,
            df == dir_df(dir as int),
            dr == dir_dr(dir as int),
            file == file_of(sq as int),
            rank == rank_of(sq as int),
            1 <= k <= 8,
            f == file + scale(k, df as int),
            r == rank + scale(k, dr as int),
            forall|t: int| mem(ray, t) == (on_ray(dir as int, sq as int, t) && steps(sq as int, t) < k),
        decreases 8 - k,
    {
        let idx = (f + 8 * r) as usize;
        let b = square_bb(idx);
        let ghost prev = ray;
        ray |= b;
        proof {
            assert forall|t: int| mem(ray, t) == (on_ray(dir as int, sq as int, t) && steps(sq as int, t) < k + 1) by {
                lemma_mem_or(prev, b, t);
                lemma_ray_at(sq as int, dir as int, k, idx as int, t);
            }
        }
        f += df;
        r += dr;
        proof {
            k = k + 1;
        }
    }
    proof {
        assert forall|t: int| mem(ray, t) == on_ray(dir as int, sq as int, t) by {
            lemma_ray_end(sq as int, dir as int, k, t);
        }
    }
    ray
}

/// The square `k` steps along a ray.
pub proof fn lemma_ray_at(s: int, dir: int, k: int, at: int, t: int)
    requires
        0 <= s < 64,
        0 <= dir < 8,
        1 <= k <= 8,
        0 <= file_of(s) + scale(k, dir_df(dir)) < 8,
        0 <= rank_of(s) + scale(k, dir_dr(dir)) < 8,
        at == file_of(s) + scale(k, dir_df(dir)) + 8 * (rank_of(s) + scale(k, dir_dr(dir))),
    ensures
        k < 8,
        0 <= at < 64,
        on_ray(dir, s, at),
        steps(s, at) == k,
        on_ray(dir, s, t) && steps(s, t) == k ==> t == at,
        0 <= file_of(at) + dir_df(dir) < 8 <==> 0 <= file_of(s) + scale(k + 1, dir_df(dir)) < 8,
        0 <= rank_of(at) + dir_dr(dir) < 8 <==> 0 <= rank_of(s) + scale(k + 1, dir_dr(dir)) < 8,
{
    let fa = file_of(s) + scale(k, dir_df(dir));
    let ra = rank_of(s) + scale(k, dir_dr(dir));
    assert(file_of(at) == fa && rank_of(at) == ra);
    assert(dir_df(dir) != 0 || dir_dr(dir) != 0);
    assert(steps(s, at) == k);
    if on_ray(dir, s, t) && steps(s, t) == k {
        assert(file_of(t) == fa && rank_of(t) == ra);
        assert(t == 8 * rank_of(t) + file_of(t));
    }
}

/// Beyond the board's edge a ray has no square.
pub proof fn lemma_ray_end(s: int, dir: int, k: int, t: int)
    requires
        0 <= s < 64,
        0 <= dir < 8,
        1 <= k <= 8,
        !(0 <= file_of(s) + scale(k, dir_df(dir)) < 8 && 0 <= rank_of(s) + scale(k, dir_dr(dir)) < 8),
    ensures
        on_ray(dir, s, t) ==> steps(s, t) < k,
{
}

/// One row of the ray table: the rays in direction `dir` from every square.
fn rays_of(dir: usize) -> (rays: [u64; 64])
    requires
        dir < 8,
    ensures
        forall|s: int, t: int| 0 <= s < 64 ==> #[trigger] mem(rays@[s], t) == on_ray(dir as int, s, t),
{
    let mut rays = [0u64;64];
    let mut sq = 0usize;
    while sq < 64
        invariant
            sq <= 64,
            dir < 8,
            forall|s: int, t: int|
                0 <= s < sq ==> #[trigger] mem(rays@[s], t) == on_ray(dir as int, s, t),
        decreases 64 - sq,
    {
        let ray = ray_from(sq, dir);
        rays[sq] = ray;
        sq += 1;
    }
    rays
}

/// Rays by direction and square.
pub fn generate_rays() -> (rays: [[u64; 64]; 8])
    ensures
        forall|d: int, s: int, t: int|
            0 <= d < 8 && 0 <= s < 64 ==> #[trigger] mem(rays@[d]@[s], t) == on_ray(d, s, t),
{
    let n = rays_of(DIR_N);
    let ne = rays_of(DIR_NE);
    let e = rays_of(DIR_E);
    let se = rays_of(DIR_SE);
    let s = rays_of(DIR_S);
    let sw = rays_of(DIR_SW);
    let w = rays_of(DIR_W);
    let nw = rays_of(DIR_NW);
    [n, ne, e, se, s, sw, w, nw]
}

/// The absolute value.
pub fn abs(x: i32) -> (r: i32)
    requires
        x > i32::MIN,
    ensures
        r == dist(0, x as int),
{
    if x < 0 {
        -x
    } else {
        x
    }
}

/// -1, 0 or 1 as `x` is negative, zero or positive.
pub fn sign(x: i32) -> (r: i32)
    ensures
        r == sign_of(x as int),
{
    if x > 0 {
        1
    } else if x < 0 {
        -1
    } else {
        0
    }
}

/// The square `k` steps from `a` towards `b` is the one member at that distance.
proof fn lemma_between_step(a: int, b: int, k: int, at: int, t: int)
    requires
        aligned(a, b),
        1 <= k < steps(a, b),
        at == file_of(a) + scale(k, sign_of(file_of(b) - file_of(a))) + 8 * (rank_of(a) + scale(
            k,
            sign_of(rank_of(b) - rank_of(a)),
        )),
    ensures
        0 <= at < 64,
        (t == at) == (between_sq(a, b, t) && steps(a, t) == k),
{
}

/// The squares strictly between `sq1` and `sq2` when they share a rank, file
/// or diagonal; no square otherwise.
fn between_of(sq1: usize, sq2: usize) -> (result: u64)
    requires
        sq1 < 64,
        sq2 < 64,
    ensures
        forall|t: int| mem(result, t) == between_sq(sq1 as int, sq2 as int, t),
{
    let mut result = 0u64;
    proof {
        assert forall|t: int| !mem(result, t) by {
            lemma_mem_zero(t);
        }
    }
    if sq1 != sq2 {
        let f1 = (sq1 % 8) as i32;
        let r1 = (sq1 / 8) as i32;
        let f2 = (sq2 % 8) as i32;
        let r2 = (sq2 / 8) as i32;
        let df = f2 - f1;
        let dr = r2 - r1;
        // Check if squares are aligned
        let on_line = f1 == f2 || r1 == r2 || abs(df) == abs(dr);
        if on_line {
            let step_f = sign(df);
            let step_r = sign(dr);
            let mut f = f1 + step_f;
            let mut r = r1 + step_r;
            let ghost mut k: int = 1;
            while f != f2 || r != r2
                invariant
                    sq1 < 64,
                    sq2 < 64,
                    aligned(sq1 as int, sq2 as int),
                    f1 == file_of(sq1 as int),
                    r1 == rank_of(sq1 as int),
                    f2 == file_of(sq2 as int),
                    r2 == rank_of(sq2 as int),
                    step_f == sign_of(f2 - f1),
                    step_r == sign_of(r2 - r1),
                    1 <= k <= steps(sq1 as int, sq2 as int),
                    f == f1 + scale(k, step_f as int),
                    r == r1 + scale(k, step_r as int),
                    forall|t: int|
                        mem(result, t) == (between_sq(sq1 as int, sq2 as int, t) && steps(
                            sq1 as int,
                            t,
                        ) < k),
                decreases steps(sq1 as int, sq2 as int) - k,
            {
                proof {
                    lemma_between_step(sq1 as int, sq2 as int, k, f + 8 * r, 0);
                }
                let idx = (f + 8 * r) as usize;
                let b = square_bb(idx);
                let ghost prev = result;
                result |= b;
                proof {
                    assert forall|t: int|
                        mem(result, t) == (between_sq(sq1 as int, sq2 as int, t) && steps(
                            sq1 as int,
                            t,
                        ) < k + 1) by {
                        lemma_mem_or(prev, b, t);
                        lemma_between_step(sq1 as int, sq2 as int, k, idx as int, t);
                    }
                }
                f += step_f;
                r += step_r;
                proof {
                    k = k + 1;
                }
            }
        }
    }
    result
}

/// One row of the between table.
fn between_row(sq1: usize) -> (row: [u64; 64])
    requires
        sq1 < 64,
    ensures
        forall|b: int, t: int|
            0 <= b < 64 ==> #[trigger] mem(row@[b], t) == between_sq(sq1 as int, b, t),
{
    let mut row = [0u64;64];
    let mut sq2 = 0usize;
    while sq2 < 64
        invariant
            sq1 < 64,
            sq2 <= 64,
            forall|b: int, t: int|
                0 <= b < sq2 ==> #[trigger] mem(row@[b], t) == between_sq(sq1 as int, b, t),
        decreases 64 - sq2,
    {
        let v = between_of(sq1, sq2);
        row[sq2] = v;
        sq2 += 1;
    }
    row
}

/// Squares strictly between two squares, by both squares.
pub fn generate_between() -> (between: [[u64; 64]; 64])
    ensures
        forall|a: int, b: int, t: int|
            0 <= a < 64 && 0 <= b < 64 ==> #[trigger] mem(between@[a]@[b], t) == between_sq(a, b, t),
{
    let mut between = [[0u64;64];64];
    let mut sq1 = 0usize;
    while sq1 < 64
        invariant
            sq1 <= 64,
            forall|a: int, b: int, t: int|
                0 <= a < sq1 && 0 <= b < 64 ==> #[trigger] mem(between@[a]@[b], t) == between_sq(
                    a,
                    b,
                    t,
                ),
        decreases 64 - sq1,
    {
        let row = between_row(sq1);
        between[sq1] = row;
        sq1 += 1;
    }
    between
}

/// A line is the two opposite rays from `a` through `b`, with `a` itself.
proof fn lemma_line_rays(a: int, b: int, t: int)
    requires
        0 <= a < 64,
        0 <= b < 64,
    ensures
        aligned(a, b) && file_of(a) == file_of(b) ==> line_sq(a, b, t) == (on_ray(0, a, t)
            || on_ray(4, a, t) || t == a),
        aligned(a, b) && file_of(a) != file_of(b) && rank_of(a) == rank_of(b) ==> line_sq(a, b, t)
            == (on_ray(2, a, t) || on_ray(6, a, t) || t == a),
        aligned(a, b) && file_of(a) != file_of(b) && rank_of(a) != rank_of(b) && ((file_of(b)
            > file_of(a)) == (rank_of(b) > rank_of(a))) ==> line_sq(a, b, t) == (on_ray(1, a, t)
            || on_ray(5, a, t) || t == a),
        aligned(a, b) && file_of(a) != file_of(b) && rank_of(a) != rank_of(b) && ((file_of(b)
            > file_of(a)) != (rank_of(b) > rank_of(a))) ==> line_sq(a, b, t) == (on_ray(7, a, t)
            || on_ray(3, a, t) || t == a),
        !aligned(a, b) ==> !line_sq(a, b, t),
{
}

/// The whole rank, file or diagonal through `sq1` and `sq2` when they share
/// one; no square otherwise.
fn line_of(rays: &[[u64; 64]; 8], sq1: usize, sq2: usize) -> (result: u64)
    requires
        sq1 < 64,
        sq2 < 64,
        forall|d: int, s: int, t: int|
            0 <= d < 8 && 0 <= s < 64 ==> #[trigger] mem(rays@[d]@[s], t) == on_ray(d, s, t),
    ensures
        forall|t: int| mem(result, t) == line_sq(sq1 as int, sq2 as int, t),
{
    let mut result = 0u64;
    if sq1 != sq2 {
        let f1 = (sq1 % 8) as i32;
        let r1 = (sq1 / 8) as i32;
        let f2 = (sq2 % 8) as i32;
        let r2 = (sq2 / 8) as i32;
        let df = f2 - f1;
        let dr = r2 - r1;
        let own = square_bb(sq1);
        if f1 == f2 {
            result = rays[DIR_N][sq1] | rays[DIR_S][sq1] | own;
        } else if r1 == r2 {
            result = rays[DIR_E][sq1] | rays[DIR_W][sq1] | own;
        } else if abs(df) == abs(dr) {
            if (df > 0) == (dr > 0) {
                // NE-SW diagonal
                result = rays[DIR_NE][sq1] | rays[DIR_SW][sq1] | own;
            } else {
                // NW-SE diagonal
                result = rays[DIR_NW][sq1] | rays[DIR_SE][sq1] | own;
            }
        }
    }
    proof {
        assert forall|t: int| mem(result, t) == line_sq(sq1 as int, sq2 as int, t) by {
            broadcast use lemma_mem_or, lemma_mem_zero;

            lemma_line_rays(sq1 as int, sq2 as int, t);
        }
    }
    result
}

/// One row of the line table.
fn line_row(rays: &[[u64; 64]; 8], sq1: usize) -> (row: [u64; 64])
    requires
        sq1 < 64,
        forall|d: int, s: int, t: int|
            0 <= d < 8 && 0 <= s < 64 ==> #[trigger] mem(rays@[d]@[s], t) == on_ray(d, s, t),
    ensures
        forall|b: int, t: int| 0 <= b < 64 ==> #[trigger] mem(row@[b], t) == line_sq(sq1 as int, b, t),
{
    let mut row = [0u64;64];
    let mut sq2 = 0usize;
    while sq2 < 64
        invariant
            sq1 < 64,
            sq2 <= 64,
            forall|d: int, s: int, t: int|
                0 <= d < 8 && 0 <= s < 64 ==> #[trigger] mem(rays@[d]@[s], t) == on_ray(d, s, t),
            forall|b: int, t: int|
                0 <= b < sq2 ==> #[trigger] mem(row@[b], t) == line_sq(sq1 as int, b, t),
        decreases 64 - sq2,
    {
        let v = line_of(rays, sq1, sq2);
        row[sq2] = v;
        sq2 += 1;
    }
    row
}

/// Full lines through two squares, by both squares.
pub fn generate_line() -> (line: [[u64; 64]; 64])
    ensures
        forall|a: int, b: int, t: int|
            0 <= a < 64 && 0 <= b < 64 ==> #[trigger] mem(line@[a]@[b], t) == line_sq(a, b, t),
{
    let rays = generate_rays();
    let mut line = [[0u64;64];64];
    let mut sq1 = 0usize;
    while sq1 < 64
        invariant
            sq1 <= 64,
            forall|d: int, s: int, t: int|
                0 <= d < 8 && 0 <= s < 64 ==> #[trigger] mem(rays@[d]@[s], t) == on_ray(d, s, t),
            forall|a: int, b: int, t: int|
                0 <= a < sq1 && 0 <= b < 64 ==> #[trigger] mem(line@[a]@[b], t) == line_sq(a, b, t),
        decreases 64 - sq1,
    {
        let row = line_row(&rays, sq1);
        line[sq1] = row;
        sq1 += 1;
    }
    line
}

/// Every precomputed table: built once, read-only afterwards.
pub struct Tables {
    pub knight: [u64; 64],
    pub king: [u64; 64],
    pub pawn: [[u64; 64]; 2],
    pub rays: [[u64; 64]; 8],
    pub between: [[u64; 64]; 64],
    pub line: [[u64; 64]; 64],
    pub magic: MagicTables,
}

impl Tables {
    /// Each table holds what its name says, for every square.
    pub open spec fn wf(self) -> bool {
        &&& forall|s: int, t: int|
            0 <= s < 64 ==> #[trigger] mem(self.knight@[s], t) == knight_step(s, t)
        &&& forall|s: int, t: int| 0 <= s < 64 ==> #[trigger] mem(self.king@[s], t) == king_step(s, t)
        &&& forall|c: Color, s: int, t: int|
            0 <= s < 64 ==> #[trigger] mem(self.pawn@[c.idx()]@[s], t) == pawn_step(c, s, t)
        &&& forall|d: int, s: int, t: int|
            0 <= d < 8 && 0 <= s < 64 ==> #[trigger] mem(self.rays@[d]@[s], t) == on_ray(d, s, t)
        &&& forall|a: int, b: int, t: int|
            0 <= a < 64 && 0 <= b < 64 ==> #[trigger] mem(self.between@[a]@[b], t) == between_sq(
                a,
                b,
                t,
            )
        &&& forall|a: int, b: int, t: int|
            0 <= a < 64 && 0 <= b < 64 ==> #[trigger] mem(self.line@[a]@[b], t) == line_sq(a, b, t)
        &&& self.magic.wf()
    }

    /// Builds every table. Succeeds exactly when the magic tables can be built.
    pub fn new() -> (r: Option<Tables>)
        ensures
            r is Some <==> forall|s: int|
                0 <= s < 64 ==> perfect_at(true, s, mask_bb(true, s), ROOK_MAGICS@[s])
                    && perfect_at(false, s, mask_bb(false, s), BISHOP_MAGICS@[s]),
            r is Some ==> r->Some_0.wf(),
    {
        let magic = match MagicTables::new() {
            Some(m) => m,
            None => {
                return None;
            },
        };
        Some(
            Tables {
                knight: generate_knight_attacks(),
                king: generate_king_attacks(),
                pawn: generate_pawn_attacks(),
                rays: generate_rays(),
                between: generate_between(),
                line: generate_line(),
                magic,
            },
        )
    }
}

} // verus!
