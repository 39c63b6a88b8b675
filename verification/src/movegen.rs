//! The legal move generator.

use vstd::prelude::*;
use crate::analysis::{analyse, Analysis};
use crate::bitboard::BitIter;
use crate::bits::{bb_of, bit, lemma_empty_iff, lemma_meets, lemma_mem_and, lemma_mem_bit, lemma_mem_not, lemma_mem_or, lemma_mem_shl, lemma_mem_shr, lemma_mem_zero, mem, square_bb};
use crate::board::{Board, Color, Piece, PieceType, Square, square_name};
use crate::text::string_of;
use crate::magic::{bishop_attacks, rook_attacks};
use crate::moves::{FLAG_CAPTURE, FLAG_DOUBLE_PUSH, FLAG_EP_CAPTURE, FLAG_KING_CASTLE, FLAG_PROMO_N, FLAG_QUEEN_CASTLE, FLAG_QUIET, lemma_pack_unpack, Move, MoveList};
use crate::tables::{lemma_masks, RANK_1, rank_of, Tables};

verus! {

/// Appends one move that the list does not hold yet.
fn push_move(list: &mut MoveList, from: usize, to: usize, flags: u16)
    requires
        from < 64,
        to < 64,
        flags < 16,
        old(list)@.no_duplicates(),
        forall|m: Move| #[trigger]
            old(list)@.contains(m) ==> !(m.src() == from && m.dst() == to && m.flag() == flags),
    ensures
        final(list)@.no_duplicates(),
        forall|m: Move| #[trigger]
            final(list)@.contains(m) <==> old(list)@.contains(m) || (m.src() == from && m.dst() == to
                && m.flag() == flags),
{
    let mv = Move::new(from, to, flags);
    let ghost before = list@;
    list.push(mv);
    proof {
        assert forall|m: Move| m.src() == from && m.dst() == to && m.flag() == flags implies m
            == mv by {
            lemma_pack_unpack(from as int, to as int, flags as int, m);
        }
        assert(!before.contains(mv));
        assert forall|m: Move| #[trigger]
            list@.contains(m) <==> before.contains(m) || (m.src() == from && m.dst() == to
                && m.flag() == flags) by {
            if list@.contains(m) {
                let i = choose|i: int| 0 <= i < list@.len() && list@[i] == m;
                if i < before.len() {
                    assert(before[i] == m);
                }
            }
            if before.contains(m) {
                let i = choose|i: int| 0 <= i < before.len() && before[i] == m;
                assert(list@[i] == m);
            }
            if m == mv {
                assert(list@[before.len() as int] == m);
            }
        }
        assert forall|i: int, j: int| 0 <= i < list@.len() && 0 <= j < list@.len() && i != j implies list@[i]
            != list@[j] by {
            if i < before.len() && j < before.len() {
                assert(before[i] != before[j]);
            } else if i < before.len() {
                assert(before.contains(before[i]));
            } else {
                assert(before.contains(before[j]));
            }
        }
    }
}

/// Which flags a move to `t` may carry, by the way its targets were found:
/// 0 a plain move, 1 a pawn push, 2 a pawn capture, 3 the one flag `fixed`.
pub open spec fn flag_allowed(board: Board, mode: int, fixed: int, t: int, f: int) -> bool {
    if mode == 0 {
        f == board.plain_flag(t)
    } else if mode == 1 {
        board.pawn_flag_ok(t, false, f)
    } else if mode == 2 {
        board.pawn_flag_ok(t, true, f)
    } else {
        f == fixed
    }
}

/// Appends the moves from `from` to every member of `targets`, each with
/// every flag that `mode` allows.
fn emit_all(list: &mut MoveList, board: &Board, from: usize, targets: u64, mode: u8, fixed: u16)
    requires
        board.bitboard.wf(),
        from < 64,
        mode <= 3,
        fixed < 16,
        old(list)@.no_duplicates(),
        forall|m: Move| #[trigger]
            old(list)@.contains(m) ==> !(m.src() == from && mem(targets, m.dst()) && flag_allowed(
                *board,
                mode as int,
                fixed as int,
                m.dst(),
                m.flag(),
            )),
    ensures
        final(list)@.no_duplicates(),
        forall|m: Move| #[trigger]
            final(list)@.contains(m) <==> old(list)@.contains(m) || (m.src() == from && mem(
                targets,
                m.dst(),
            ) && flag_allowed(*board, mode as int, fixed as int, m.dst(), m.flag())),
{
    let enemy = board.occupancy(board.turn.opposite());
    let last: usize = match board.turn {
        Color::White => 7,
        Color::Black => 0,
    };
    let ghost start = list@;
    let mut it = BitIter(targets);
    loop
        invariant
            board.bitboard.wf(),
            from < 64,
            mode <= 3,
            fixed < 16,
            enemy == board.side(board.turn.other()),
            last == board.last_rank(),
            list@.no_duplicates(),
            forall|t: int| mem(it.0, t) ==> mem(targets, t),
            forall|m: Move| #[trigger]
                start.contains(m) ==> !(m.src() == from && mem(targets, m.dst()) && flag_allowed(
                    *board,
                    mode as int,
                    fixed as int,
                    m.dst(),
                    m.flag(),
                )),
            forall|m: Move| #[trigger]
                list@.contains(m) <==> start.contains(m) || (m.src() == from && mem(targets, m.dst())
                    && !mem(it.0, m.dst()) && flag_allowed(
                    *board,
                    mode as int,
                    fixed as int,
                    m.dst(),
                    m.flag(),
                )),
        ensures
            list@.no_duplicates(),
            forall|m: Move| #[trigger]
                list@.contains(m) <==> start.contains(m) || (m.src() == from && mem(targets, m.dst())
                    && flag_allowed(*board, mode as int, fixed as int, m.dst(), m.flag())),
        decreases it.0,
    {
        match it.next() {
            None => {
                proof {
                    assert forall|t: int| !mem(0u64, t) by {
                        lemma_mem_zero(t);
                    }
                }
                break ;
            },
            Some(t) => {
                proof {
                    lemma_meets(enemy, t as int);
                }
                if mode == 0 {
                    let flag = if enemy & square_bb(t) != 0 {
                        FLAG_CAPTURE
                    } else {
                        FLAG_QUIET
                    };
                    push_move(list, from, t, flag);
                } else if mode == 3 {
                    push_move(list, from, t, fixed);
                } else {
                    let base: u16 = if mode == 2 {
                        4
                    } else {
                        0
                    };
                    if t / 8 == last {
                        push_move(list, from, t, FLAG_PROMO_N + base);
                        push_move(list, from, t, FLAG_PROMO_N + base + 1);
                        push_move(list, from, t, FLAG_PROMO_N + base + 2);
                        push_move(list, from, t, FLAG_PROMO_N + base + 3);
                    } else {
                        push_move(list, from, t, base);
                    }
                }
            },
        }
    }
}

/// Members of the fixed castling masks: the squares that must be free and
/// those that must not be attacked, for each side and wing.
proof fn lemma_castle_masks(x: u64)
    ensures
        (x & 0x60 == 0) == (!mem(x, 5) && !mem(x, 6)),
        (x & 0x0E == 0) == (!mem(x, 1) && !mem(x, 2) && !mem(x, 3)),
        (x & 0x0C == 0) == (!mem(x, 2) && !mem(x, 3)),
        (x & 0x6000000000000000 == 0) == (!mem(x, 61) && !mem(x, 62)),
        (x & 0x0E00000000000000 == 0) == (!mem(x, 57) && !mem(x, 58) && !mem(x, 59)),
        (x & 0x0C00000000000000 == 0) == (!mem(x, 58) && !mem(x, 59)),
{
    assert({
        &&& (x & 0x60 == 0) == (!((x >> 5) & 1 == 1) && !((x >> 6) & 1 == 1))
        &&& (x & 0x0E == 0) == (!((x >> 1) & 1 == 1) && !((x >> 2) & 1 == 1) && !((x >> 3) & 1 == 1))
        &&& (x & 0x0C == 0) == (!((x >> 2) & 1 == 1) && !((x >> 3) & 1 == 1))
        &&& (x & 0x6000000000000000 == 0) == (!((x >> 61) & 1 == 1) && !((x >> 62) & 1 == 1))
        &&& (x & 0x0E00000000000000 == 0) == (!((x >> 57) & 1 == 1) && !((x >> 58) & 1 == 1) && !((x
            >> 59) & 1 == 1))
        &&& (x & 0x0C00000000000000 == 0) == (!((x >> 58) & 1 == 1) && !((x >> 59) & 1 == 1))
    }) by (bit_vector);
}

/// The fixed castling masks: for each side and wing the squares that must
/// be free, and those the king crosses, which must not be attacked. On the
/// king side the two sets are the same.
pub const WHITE_KS_PATH: u64 = 0x60;
pub const WHITE_QS_EMPTY: u64 = 0x0E;
pub const WHITE_QS_PATH: u64 = 0x0C;
pub const BLACK_KS_PATH: u64 = 0x6000000000000000;
pub const BLACK_QS_EMPTY: u64 = 0x0E00000000000000;
pub const BLACK_QS_PATH: u64 = 0x0C00000000000000;

/// Appends the king's moves: its steps to squares that are neither its own
/// side's nor attacked, and the castling moves that are allowed.
fn gen_king(list: &mut MoveList, tables: &Tables, board: &Board, info: &Analysis)
    requires
        tables.wf(),
        board.valid(),
        info.wf(*board),
        old(list)@.no_duplicates(),
        forall|m: Move| #[trigger]
            old(list)@.contains(m) ==> !mem(board.set_of(PieceType::King, board.turn), m.src()),
    ensures
        final(list)@.no_duplicates(),
        forall|m: Move| #[trigger]
            final(list)@.contains(m) <==> old(list)@.contains(m) || board.king_legal(m),
{
    let us = board.turn;
    let own = board.occupancy(us);
    let occ = board.all_occupancy();
    let k = info.king;
    let ghost start = list@;
    let targets = tables.king[k] & !own & !info.opponent_attacks;
    proof {
        assert forall|t: int| mem(targets, t) == board.king_move(t) by {
            lemma_mem_and(tables.king[k as int] & !own, !info.opponent_attacks, t);
            lemma_mem_and(tables.king[k as int], !own, t);
            lemma_mem_not(own, t);
            lemma_mem_not(info.opponent_attacks, t);
        }
        assert forall|s: int| mem(board.set_of(PieceType::King, us), s) == (s == k) by {
            lemma_mem_bit(k as int, s);
        }
        lemma_castle_masks(occ);
        lemma_castle_masks(info.opponent_attacks);
        lemma_empty_iff(info.checkers);
        if info.checkers == 0 {
            assert(!board.in_check()) by {
                if board.in_check() {
                    let s = choose|s: int| board.checker(s);
                    lemma_mem_zero(s);
                }
            }
        } else {
            let w = choose|w: int| 0 <= w < 64 && mem(info.checkers, w);
            assert(board.checker(w));
        }
    }
    emit_all(list, board, k, targets, 0, 0);
    let ghost mid = list@;
    let (right_ks, right_qs, ks_path, qs_empty, qs_path) = match us {
        Color::White => (
            board.castling.has_right(crate::board::CASTLE_WK),
            board.castling.has_right(crate::board::CASTLE_WQ),
            WHITE_KS_PATH,
            WHITE_QS_EMPTY,
            WHITE_QS_PATH,
        ),
        Color::Black => (
            board.castling.has_right(crate::board::CASTLE_BK),
            board.castling.has_right(crate::board::CASTLE_BQ),
            BLACK_KS_PATH,
            BLACK_QS_EMPTY,
            BLACK_QS_PATH,
        ),
    };
    let ks = info.checkers == 0 && right_ks && occ & ks_path == 0 && info.opponent_attacks & ks_path
        == 0;
    let qs = info.checkers == 0 && right_qs && occ & qs_empty == 0 && info.opponent_attacks
        & qs_path == 0;
    proof {
        assert(ks == board.castle_ks());
        assert(qs == board.castle_qs());
        assert(ks || qs ==> k == board.home());
    }
    if ks {
        push_move(list, k, k + 2, FLAG_KING_CASTLE);
    }
    if qs {
        push_move(list, k, k - 2, FLAG_QUEEN_CASTLE);
    }
    proof {
        assert forall|m: Move| #[trigger] list@.contains(m) <==> start.contains(m) || board.king_legal(m) by {
            lemma_pack_unpack(0, 0, 0, m);
        }
    }
}

/// Appends the moves of the knights: a pinned knight has none; another may
/// jump to any square that is not its own side's and that answers a check.
fn gen_knights(list: &mut MoveList, tables: &Tables, board: &Board, info: &Analysis)
    requires
        tables.wf(),
        board.valid(),
        info.wf(*board),
        old(list)@.no_duplicates(),
        forall|m: Move| #[trigger]
            old(list)@.contains(m) ==> !mem(board.set_of(PieceType::Knight, board.turn), m.src()),
    ensures
        final(list)@.no_duplicates(),
        forall|m: Move| #[trigger]
            final(list)@.contains(m) <==> old(list)@.contains(m) || board.knight_legal(m),
{
    let us = board.turn;
    let own = board.occupancy(us);
    let knights = board.pieces(PieceType::Knight, us);
    let ghost start = list@;
    let mut it = BitIter(knights);
    loop
        invariant
            tables.wf(),
            board.valid(),
            info.wf(*board),
            us == board.turn,
            own == board.side(us),
            knights == board.set_of(PieceType::Knight, us),
            list@.no_duplicates(),
            forall|s: int| mem(it.0, s) ==> mem(knights, s),
            forall|m: Move| #[trigger] start.contains(m) ==> !mem(knights, m.src()),
            forall|m: Move| #[trigger]
                list@.contains(m) <==> start.contains(m) || (board.knight_legal(m) && !mem(
                    it.0,
                    m.src(),
                )),
        ensures
            list@.no_duplicates(),
            forall|m: Move| #[trigger] list@.contains(m) <==> start.contains(m) || board.knight_legal(m),
        decreases it.0,
    {
        match it.next() {
            None => {
                proof {
                    assert forall|t: int| !mem(0u64, t) by {
                        lemma_mem_zero(t);
                    }
                }
                break ;
            },
            Some(s) => {
                proof {
                    lemma_meets(info.pinned, s as int);
                }
                let targets = if info.pinned & square_bb(s) != 0 {
                    0
                } else {
                    tables.knight[s] & !own & info.check_mask
                };
                proof {
                    assert forall|t: int| mem(targets, t) == board.knight_move(s as int, t) by {
                        lemma_mem_zero(t);
                        lemma_mem_and(tables.knight[s as int] & !own, info.check_mask, t);
                        lemma_mem_and(tables.knight[s as int], !own, t);
                        lemma_mem_not(own, t);
                    }
                }
                emit_all(list, board, s, targets, 0, 0);
            },
        }
    }
}

/// Appends the moves of the sliders in `set`: along their lines up to the
/// first piece, to squares that are not their own side's, that answer a
/// check and that keep to the pin.
fn gen_sliders(
    list: &mut MoveList,
    tables: &Tables,
    board: &Board,
    info: &Analysis,
    set: u64,
    diagonal: bool,
    straight: bool,
)
    requires
        tables.wf(),
        board.valid(),
        info.wf(*board),
        old(list)@.no_duplicates(),
        forall|m: Move| #[trigger] old(list)@.contains(m) ==> !mem(set, m.src()),
    ensures
        final(list)@.no_duplicates(),
        forall|m: Move| #[trigger]
            final(list)@.contains(m) <==> old(list)@.contains(m) || board.slider_legal(
                set,
                diagonal,
                straight,
                m,
            ),
{
    let us = board.turn;
    let own = board.occupancy(us);
    let occ = board.all_occupancy();
    let ghost start = list@;
    let mut it = BitIter(set);
    loop
        invariant
            tables.wf(),
            board.valid(),
            info.wf(*board),
            us == board.turn,
            own == board.side(us),
            occ == board.bitboard.all,
            list@.no_duplicates(),
            forall|s: int| mem(it.0, s) ==> mem(set, s),
            forall|m: Move| #[trigger] start.contains(m) ==> !mem(set, m.src()),
            forall|m: Move| #[trigger]
                list@.contains(m) <==> start.contains(m) || (board.slider_legal(
                    set,
                    diagonal,
                    straight,
                    m,
                ) && !mem(it.0, m.src())),
        ensures
            list@.no_duplicates(),
            forall|m: Move| #[trigger]
                list@.contains(m) <==> start.contains(m) || board.slider_legal(
                    set,
                    diagonal,
                    straight,
                    m,
                ),
        decreases it.0,
    {
        match it.next() {
            None => {
                proof {
                    assert forall|t: int| !mem(0u64, t) by {
                        lemma_mem_zero(t);
                    }
                }
                break ;
            },
            Some(s) => {
                let mut rays = 0u64;
                if diagonal {
                    rays |= bishop_attacks(&tables.magic, s, occ);
                }
                if straight {
                    rays |= rook_attacks(&tables.magic, s, occ);
                }
                let targets = rays & !own & info.check_mask & info.pin_masks[s];
                proof {
                    assert forall|t: int|
                        mem(targets, t) == ((diagonal && board.slider_move(false, s as int, t)) || (
                        straight && board.slider_move(true, s as int, t))) by {
                        broadcast use lemma_mem_or, lemma_mem_and;

                        lemma_mem_zero(t);
                        lemma_mem_not(own, t);
                        assert(mem(info.pin_masks@[s as int], t) == (0 <= t < 64 && board.pin_ok(
                            s as int,
                            t,
                        )));
                    }
                }
                emit_all(list, board, s, targets, 0, 0);
            },
        }
    }
}

/// The rank `rank` as a set.
fn rank_mask(rank: usize) -> (r: u64)
    requires
        rank < 8,
    ensures
        forall|t: int| mem(r, t) == (0 <= t < 64 && rank_of(t) == rank),
{
    let r = RANK_1 << (8 * rank as u64);
    proof {
        assert forall|t: int| mem(r, t) == (0 <= t < 64 && rank_of(t) == rank) by {
            lemma_mem_shl(RANK_1, (8 * rank) as u64, t);
            if 8 * rank <= t < 64 {
                lemma_masks(t - 8 * rank);
            }
        }
    }
    r
}

/// The en-passant target, as a set, when the pawn on `s` may capture there;
/// the empty set otherwise.
fn ep_target(tables: &Tables, board: &Board, info: &Analysis, s: usize) -> (r: u64)
    requires
        tables.wf(),
        board.valid(),
        info.wf(*board),
        s < 64,
    ensures
        forall|t: int| mem(r, t) == board.pawn_ep(s as int, t),
{
    let us = board.turn;
    let them = us.opposite();
    let occ = board.all_occupancy();
    let k = info.king;
    match board.en_passant {
        None => {
            proof {
                assert forall|t: int| mem(0u64, t) == board.pawn_ep(s as int, t) by {
                    lemma_mem_zero(t);
                }
            }
            0
        },
        Some(e) => {
            let t = e.to_index();
            let tb = e.0;
            let cap: usize = match us {
                Color::White => t - 8,
                Color::Black => t + 8,
            };
            let cap_bb = square_bb(cap);
            let bb = square_bb(s);
            let pin = info.pin_masks[s];
            let cm = info.check_mask;
            proof {
                lemma_meets(tables.pawn[us.idx()][s as int], t as int);
                lemma_meets(pin, t as int);
                lemma_meets(cm, t as int);
                lemma_meets(cm, cap as int);
                assert(mem(tables.pawn@[us.idx()]@[s as int], t as int) == crate::tables::pawn_step(
                    us,
                    s as int,
                    t as int,
                ));
                assert(mem(info.pin_masks@[s as int], t as int) == (0 <= t < 64 && board.pin_ok(
                    s as int,
                    t as int,
                )));
            }
            let reachable = tables.pawn[us.index()][s] & tb != 0 && pin & tb != 0 && (cm & tb != 0
                || cm & cap_bb != 0);
            let mut result = 0u64;
            if reachable {
                let after = (occ & !bb & !cap_bb) | tb;
                let sliders = board.pieces(PieceType::Rook, them) | board.pieces(
                    PieceType::Queen,
                    them,
                );
                let row = rank_mask(k / 8);
                let seen = rook_attacks(&tables.magic, k, after) & row & sliders;
                proof {
                    lemma_empty_iff(seen);
                    assert forall|r: int|
                        mem(seen, r) == (crate::magic::slide_hits(true, k as int, after, r)
                            && rank_of(r) == rank_of(k as int) && (mem(
                            board.set_of(PieceType::Rook, them),
                            r,
                        ) || mem(board.set_of(PieceType::Queen, them), r))) by {
                        broadcast use lemma_mem_or, lemma_mem_and;

                    }
                    assert(tb == bit(t as int));
                    assert(cap == t - board.forward());
                    assert(after == (board.bitboard.all & !bit(s as int) & !bit(
                        t - board.forward(),
                    )) | bit(t as int));
                    assert(k == board.own_king());
                    if seen != 0 {
                        let w = choose|w: int| 0 <= w < 64 && mem(seen, w);
                        assert(crate::magic::slide_hits(true, k as int, after, w));
                        assert(board.ep_exposes(s as int, t as int));
                    } else {
                        assert(!board.ep_exposes(s as int, t as int));
                    }
                }
                if seen == 0 {
                    result = tb;
                }
            }
            proof {
                assert forall|u: int| mem(result, u) == board.pawn_ep(s as int, u) by {
                    lemma_mem_zero(u);
                    lemma_mem_bit(t as int, u);
                }
            }
            result
        },
    }
}

/// Appends the moves of the pawn on `s`: single and double pushes to free
/// squares, captures of opposing pieces, the en-passant capture; each only
/// where it answers a check and keeps to the pin; promotions on the last rank.
fn gen_pawn_from(list: &mut MoveList, tables: &Tables, board: &Board, info: &Analysis, s: usize)
    requires
        tables.wf(),
        board.valid(),
        info.wf(*board),
        s < 64,
        mem(board.set_of(PieceType::Pawn, board.turn), s as int),
        old(list)@.no_duplicates(),
        forall|m: Move| #[trigger] old(list)@.contains(m) ==> m.src() != s,
    ensures
        final(list)@.no_duplicates(),
        forall|m: Move| #[trigger]
            final(list)@.contains(m) <==> old(list)@.contains(m) || (m.src() == s
                && board.pawn_legal(m)),
{
    let us = board.turn;
    let them = us.opposite();
    let occ = board.all_occupancy();
    let enemy = board.occupancy(them);
    let bb = square_bb(s);
    let pin = info.pin_masks[s];
    let cm = info.check_mask;
    let free = !occ;
    let ghost start = list@;
    let one = match us {
        Color::White => bb << 8,
        Color::Black => bb >> 8,
    };
    let push = one & free;
    let single = push & cm & pin;
    let start_rank = match us {
        Color::White => crate::tables::RANK_2,
        Color::Black => crate::tables::RANK_7,
    };
    let two = if bb & start_rank != 0 {
        (match us {
            Color::White => push << 8,
            Color::Black => push >> 8,
        }) & free & cm & pin
    } else {
        0
    };
    let caps = tables.pawn[us.index()][s] & enemy & cm & pin;
    let ep = ep_target(tables, board, info, s);
    proof {
        lemma_masks(s as int);
        lemma_meets(start_rank, s as int);
        assert forall|t: int| #![auto]
            mem(single, t) == board.pawn_push(s as int, t) && mem(two, t) == board.pawn_double(
                s as int,
                t,
            ) && mem(caps, t) == board.pawn_capture(s as int, t) by {
            broadcast use lemma_mem_and;

            lemma_mem_zero(t);
            lemma_mem_not(occ, t);
            lemma_mem_not(occ, t - 8);
            lemma_mem_not(occ, t + 8);
            crate::bits::lemma_bit_shl(s as int, 8, t);
            crate::bits::lemma_bit_shr(s as int, 8, t);
            crate::bits::lemma_bit_shl(s as int, 8, t - 8);
            crate::bits::lemma_bit_shr(s as int, 8, t + 8);
            lemma_mem_shl(push, 8, t);
            lemma_mem_shr(push, 8, t);
            assert(mem(info.pin_masks@[s as int], t) == (0 <= t < 64 && board.pin_ok(s as int, t)));
            assert(mem(tables.pawn@[us.idx()]@[s as int], t) == crate::tables::pawn_step(
                us,
                s as int,
                t,
            ));
        }
    }
    emit_all(list, board, s, single, 1, 0);
    emit_all(list, board, s, two, 3, FLAG_DOUBLE_PUSH);
    emit_all(list, board, s, caps, 2, 0);
    emit_all(list, board, s, ep, 3, FLAG_EP_CAPTURE);
}

/// Appends the moves of the pawns.
fn gen_pawns(list: &mut MoveList, tables: &Tables, board: &Board, info: &Analysis)
    requires
        tables.wf(),
        board.valid(),
        info.wf(*board),
        old(list)@.no_duplicates(),
        forall|m: Move| #[trigger]
            old(list)@.contains(m) ==> !mem(board.set_of(PieceType::Pawn, board.turn), m.src()),
    ensures
        final(list)@.no_duplicates(),
        forall|m: Move| #[trigger]
            final(list)@.contains(m) <==> old(list)@.contains(m) || board.pawn_legal(m),
{
    let pawns = board.pieces(PieceType::Pawn, board.turn);
    let ghost start = list@;
    let mut it = BitIter(pawns);
    loop
        invariant
            tables.wf(),
            board.valid(),
            info.wf(*board),
            pawns == board.set_of(PieceType::Pawn, board.turn),
            list@.no_duplicates(),
            forall|s: int| mem(it.0, s) ==> mem(pawns, s),
            forall|m: Move| #[trigger] start.contains(m) ==> !mem(pawns, m.src()),
            forall|m: Move| #[trigger]
                list@.contains(m) <==> start.contains(m) || (board.pawn_legal(m) && !mem(
                    it.0,
                    m.src(),
                )),
        ensures
            list@.no_duplicates(),
            forall|m: Move| #[trigger] list@.contains(m) <==> start.contains(m) || board.pawn_legal(m),
        decreases it.0,
    {
        match it.next() {
            None => {
                proof {
                    assert forall|t: int| !mem(0u64, t) by {
                        lemma_mem_zero(t);
                    }
                }
                break ;
            },
            Some(s) => {
                gen_pawn_from(list, tables, board, info, s);
            },
        }
    }
}

/// Every legal move of the side to move, each once, in an order that
/// depends on the position alone. Where the pawn that may be taken en
/// passant shields no diagonal of the mover's king, as in every position a
/// game can reach, these are the moves by the rules of chess.
pub fn generate_moves(tables: &Tables, board: &Board) -> (list: MoveList)
    requires
        tables.wf(),
        board.valid(),
    ensures
        forall|m: Move| #[trigger] list@.contains(m) <==> board.legal(m),
        list@.no_duplicates(),
        (board.en_passant is Some ==> board.ep_unshielded()) ==> (forall|m: Move| #[trigger]
            list@.contains(m) <==> board.lawful(m)),
{
    proof {
        if board.en_passant is Some ==> board.ep_unshielded() {
            assert forall|m: Move| board.legal(m) == board.lawful(m) by {
                crate::laws::lemma_legal_iff_lawful(*board, m);
            }
        }
    }
    let info = analyse(tables, board);
    let us = board.turn;
    let mut list = MoveList::new();
    proof {
        lemma_kinds_apart(*board);
    }
    gen_king(&mut list, tables, board, &info);
    if info.check_mask == 0 {
        proof {
            lemma_empty_iff(info.check_mask);
            assert forall|t: int| !board.check_ok(t) || !(0 <= t < 64) by {
                lemma_mem_zero(t);
            }
            assert forall|m: Move| #[trigger] list@.contains(m) <==> board.legal(m) by {
                lemma_pack_unpack(0, 0, 0, m);
            }
        }
        return list;
    }
    gen_pawns(&mut list, tables, board, &info);
    gen_knights(&mut list, tables, board, &info);
    gen_sliders(&mut list, tables, board, &info, board.pieces(PieceType::Bishop, us), true, false);
    gen_sliders(&mut list, tables, board, &info, board.pieces(PieceType::Rook, us), false, true);
    gen_sliders(&mut list, tables, board, &info, board.pieces(PieceType::Queen, us), true, true);
    list
}

/// A square holds a piece of one kind at most.
pub proof fn lemma_kinds_apart(board: Board)
    requires
        board.bitboard.disjoint(),
    ensures
        forall|a: PieceType, b: PieceType, c: Color, sq: int|
            a != b && #[trigger] mem(board.set_of(a, c), sq) ==> !#[trigger] mem(board.set_of(b, c), sq),
{
    assert forall|a: PieceType, b: PieceType, c: Color, sq: int|
        a != b && #[trigger] mem(board.set_of(a, c), sq) implies !#[trigger] mem(board.set_of(b, c), sq) by {
        let i = crate::bitboard::index_of(a, c);
        let j = crate::bitboard::index_of(b, c);
        if i < j {
            assert(mem(board.bitboard.pieces@[i], sq) ==> !mem(board.bitboard.pieces@[j], sq));
        } else {
            assert(mem(board.bitboard.pieces@[j], sq) ==> !mem(board.bitboard.pieces@[i], sq));
        }
    }
}

/// The squares that the legal moves from `s` go to.
pub open spec fn destinations(board: Board, s: int) -> u64 {
    bb_of(|t: int| exists|m: Move| #[trigger] board.legal(m) && m.src() == s && m.dst() == t)
}

/// The names of the members of `bb` at `pos` or above, from the lowest,
/// with commas between them; `first` says that no name stands before them.
pub open spec fn names_from(bb: u64, pos: int, first: bool) -> Seq<char>
    decreases 64 - pos,
{
    if pos >= 64 || pos < 0 {
        Seq::empty()
    } else if mem(bb, pos) {
        (if first {
            Seq::<char>::empty()
        } else {
            seq![',']
        }) + square_name(pos) + names_from(bb, pos + 1, false)
    } else {
        names_from(bb, pos + 1, first)
    }
}

/// Squares that are no members add nothing to the names.
proof fn lemma_names_skip(bb: u64, pos: int, to: int, first: bool)
    requires
        0 <= pos <= to <= 64,
        forall|u: int| pos <= u < to ==> !mem(bb, u),
    ensures
        names_from(bb, pos, first) == names_from(bb, to, first),
    decreases to - pos,
{
    if pos < to {
        lemma_names_skip(bb, pos + 1, to, first);
    }
}

/// The legal moves of one piece: where it stands, and the set of squares
/// it may go to.
#[derive(Debug)]
pub struct Moves {
    pub from: Square,
    pub to: Square,
}

impl Moves {
    /// The names of the destination squares, from the lowest, with commas
    /// between them.
    pub fn to_algebraic(&self) -> (r: String)
        ensures
            r@ == names_from(self.to.0, 0, true),
    {
        let mut out: Vec<char> = Vec::new();
        let mut it = BitIter(self.to.0);
        let mut first = true;
        let ghost mut p: int = 0;
        let ghost goal = names_from(self.to.0, 0, true);
        loop
            invariant
                0 <= p <= 64,
                goal == names_from(self.to.0, 0, true),
                forall|t: int| mem(it.0, t) == (mem(self.to.0, t) && t >= p),
                out@ + names_from(self.to.0, p, first) == goal,
            ensures
                out@ == goal,
            decreases it.0,
        {
            let ghost before = out@;
            let ghost rest = it.0;
            match it.next() {
                None => {
                    proof {
                        assert forall|u: int| p <= u < 64 implies !mem(self.to.0, u) by {
                            lemma_mem_zero(u);
                            assert(!mem(rest, u));
                        }
                        lemma_names_skip(self.to.0, p, 64, first);
                        assert(out@ + Seq::<char>::empty() =~= out@);
                    }
                    break ;
                },
                Some(sq) => {
                    proof {
                        assert forall|u: int| p <= u < sq implies !mem(self.to.0, u) by {
                            assert(!mem(rest, u));
                        }
                        assert(mem(rest, sq as int));
                        lemma_names_skip(self.to.0, p, sq as int, first);
                    }
                    if !first {
                        out.push(',');
                    }
                    crate::board::write_square_name(&mut out, sq);
                    proof {
                        assert(out@ + names_from(self.to.0, sq + 1, false) =~= before + names_from(
                            self.to.0,
                            sq as int,
                            first,
                        ));
                        p = sq + 1;
                    }
                    first = false;
                },
            }
        }
        string_of(&out)
    }
}

/// The legal moves of single pieces.
pub struct MoveGen;

impl MoveGen {
    /// The legal moves of the piece on `square`; `None` when there is none.
    pub fn get_moves(tables: &Tables, board: &Board, square: &Square) -> (r: Option<Moves>)
        requires
            tables.wf(),
            board.valid(),
            square.single(),
        ensures
            r is Some <==> destinations(*board, square.pos()) != 0,
            r is Some ==> r->Some_0.from == *square && r->Some_0.to.0 == destinations(
                *board,
                square.pos(),
            ),
    {
        let s = square.to_index();
        let list = generate_moves(tables, board);
        let mut acc = 0u64;
        let mut i: usize = 0;
        proof {
            assert forall|t: int| !mem(acc, t) by {
                lemma_mem_zero(t);
            }
        }
        while i < list.len()
            invariant
                i <= list@.len(),
                s < 64,
                forall|t: int|
                    mem(acc, t) == (exists|j: int|
                        0 <= j < i && (#[trigger] list@[j]).src() == s && list@[j].dst() == t),
            decreases list@.len() - i,
        {
            let mv = list.get(i);
            let ghost prev = acc;
            if mv.from() == s {
                let b = square_bb(mv.to());
                acc |= b;
                proof {
                    assert forall|t: int|
                        mem(acc, t) == (exists|j: int|
                            0 <= j < i + 1 && (#[trigger] list@[j]).src() == s && list@[j].dst()
                                == t) by {
                        lemma_mem_or(prev, b, t);
                        if mem(prev, t) {
                            let j = choose|j: int|
                                0 <= j < i && (#[trigger] list@[j]).src() == s && list@[j].dst()
                                    == t;
                            assert(0 <= j < i + 1 && list@[j].src() == s && list@[j].dst() == t);
                        }
                        if t == mv.dst() {
                            assert(list@[i as int].src() == s && list@[i as int].dst() == t);
                        }
                        if exists|j: int|
                            0 <= j < i + 1 && (#[trigger] list@[j]).src() == s && list@[j].dst()
                                == t {
                            let j = choose|j: int|
                                0 <= j < i + 1 && (#[trigger] list@[j]).src() == s && list@[j].dst()
                                    == t;
                            if j < i {
                                assert(mem(prev, t));
                            }
                        }
                    }
                }
            } else {
                proof {
                    assert forall|t: int|
                        mem(acc, t) == (exists|j: int|
                            0 <= j < i + 1 && (#[trigger] list@[j]).src() == s && list@[j].dst()
                                == t) by {
                        if mem(prev, t) {
                            let j = choose|j: int|
                                0 <= j < i && (#[trigger] list@[j]).src() == s && list@[j].dst()
                                    == t;
                            assert(0 <= j < i + 1 && list@[j].src() == s && list@[j].dst() == t);
                        }
                        if exists|j: int|
                            0 <= j < i + 1 && (#[trigger] list@[j]).src() == s && list@[j].dst()
                                == t {
                            let j = choose|j: int|
                                0 <= j < i + 1 && (#[trigger] list@[j]).src() == s && list@[j].dst()
                                    == t;
                            assert(j < i);
                        }
                    }
                }
            }
            i += 1;
        }
        proof {
            let p = |t: int|
                exists|m: Move| #[trigger] board.legal(m) && m.src() == s as int && m.dst() == t;
            assert forall|t: int| 0 <= t < 64 implies mem(acc, t) == p(t) by {
                if mem(acc, t) {
                    let j = choose|j: int|
                        0 <= j < list@.len() && (#[trigger] list@[j]).src() == s && list@[j].dst()
                            == t;
                    assert(list@.contains(list@[j]));
                    assert(board.legal(list@[j]));
                }
                if p(t) {
                    let m = choose|m: Move| #[trigger]
                        board.legal(m) && m.src() == s as int && m.dst() == t;
                    assert(list@.contains(m));
                    let j = choose|j: int| 0 <= j < list@.len() && list@[j] == m;
                    assert(list@[j].src() == s && list@[j].dst() == t);
                }
            }
            crate::bits::lemma_is_bb_of(acc, p);
        }
        if acc == 0 {
            None
        } else {
            Some(Moves { from: *square, to: Square(acc) })
        }
    }

    /// The legal moves of the pawn of `color` on `square`; `None` when no
    /// such pawn stands there or when it has no move.
    pub fn get_pawn_moves(tables: &Tables, board: &Board, square: &Square, color: Color) -> (r:
        Option<Moves>)
        requires
            tables.wf(),
            board.valid(),
            square.single(),
        ensures
            r is Some <==> board.bitboard.piece_at(square.0) == Some(Piece(PieceType::Pawn, color))
                && destinations(*board, square.pos()) != 0,
            r is Some ==> r->Some_0.from == *square && r->Some_0.to.0 == destinations(
                *board,
                square.pos(),
            ),
    {
        match board.get_piece(square) {
            Some(Piece(PieceType::Pawn, c)) => {
                if c == color {
                    MoveGen::get_moves(tables, board, square)
                } else {
                    None
                }
            },
            _ => None,
        }
    }

    /// The legal moves of the king on `square`; `None` when no king stands
    /// there or when it has no move.
    pub fn get_king_moves(tables: &Tables, board: &Board, square: &Square) -> (r: Option<Moves>)
        requires
            tables.wf(),
            board.valid(),
            square.single(),
        ensures
            r is Some <==> board.bitboard.piece_at(square.0) is Some && board.bitboard.piece_at(
                square.0,
            )->Some_0.0 == PieceType::King && destinations(*board, square.pos()) != 0,
            r is Some ==> r->Some_0.from == *square && r->Some_0.to.0 == destinations(
                *board,
                square.pos(),
            ),
    {
        match board.get_piece(square) {
            Some(Piece(PieceType::King, _)) => MoveGen::get_moves(tables, board, square),
            _ => None,
        }
    }

    /// The legal moves of the knight on `square`; `None` when no knight
    /// stands there or when it has no move.
    pub fn get_knight_moves(tables: &Tables, board: &Board, square: &Square) -> (r: Option<Moves>)
        requires
            tables.wf(),
            board.valid(),
            square.single(),
        ensures
            r is Some <==> board.bitboard.piece_at(square.0) is Some && board.bitboard.piece_at(
                square.0,
            )->Some_0.0 == PieceType::Knight && destinations(*board, square.pos()) != 0,
            r is Some ==> r->Some_0.from == *square && r->Some_0.to.0 == destinations(
                *board,
                square.pos(),
            ),
    {
        match board.get_piece(square) {
            Some(Piece(PieceType::Knight, _)) => MoveGen::get_moves(tables, board, square),
            _ => None,
        }
    }

    /// The members of `moves` on which no piece of `color` stands.
    pub fn filter_same_color_moves(board: &Board, moves: u64, color: Color) -> (r: u64)
        ensures
            r == moves & !board.side(color),
            forall|t: int| mem(r, t) == (mem(moves, t) && !mem(board.side(color), t)),
    {
        let own = board.occupancy(color);
        proof {
            assert forall|t: int| mem(moves & !own, t) == (mem(moves, t) && !mem(own, t)) by {
                lemma_mem_and(moves, !own, t);
                lemma_mem_not(own, t);
            }
        }
        moves & !own
    }
}

} // verus!
