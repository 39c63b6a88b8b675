use brainybishop::magic::{
    bishop_attacks, bishop_attacks_slow, index_to_occupancy, queen_attacks, rook_attacks,
    rook_attacks_slow, rook_mask, bishop_mask, MagicTables, SliderTable, ROOK_MAGICS,
};

fn magic() -> MagicTables {
    MagicTables::new().expect("the fixed multipliers are perfect hashes")
}

#[test]
fn test_rook_attacks_empty_board() {
    let m = magic();
    // Rook on e4 (square 28) on empty board
    let attacks = rook_attacks(&m, 28, 0);
    // Should attack entire e-file and 4th rank (minus e4 itself)
    let expected_count = 14; // 7 vertical + 7 horizontal
    assert_eq!(attacks.count_ones(), expected_count);
}

#[test]
fn test_rook_attacks_blocked() {
    let m = magic();
    // Rook on a1, blocker on a4
    let occ = 1u64 << 24; // a4
    let attacks = rook_attacks(&m, 0, occ);
    // Should attack a2, a3, a4 (blocked), b1-h1
    assert!(attacks & (1 << 8) != 0); // a2
    assert!(attacks & (1 << 16) != 0); // a3
    assert!(attacks & (1 << 24) != 0); // a4 (capture)
    assert!(attacks & (1 << 32) == 0); // a5 (blocked)
}

#[test]
fn test_bishop_attacks_empty_board() {
    let m = magic();
    // Bishop on e4 (square 28) on empty board
    let attacks = bishop_attacks(&m, 28, 0);
    // Should attack diagonals
    assert!(attacks.count_ones() == 13);
}

#[test]
fn test_bishop_attacks_blocked() {
    let m = magic();
    // Bishop on a1, blocker on c3
    let occ = 1u64 << 18; // c3
    let attacks = bishop_attacks(&m, 0, occ);
    // Should attack b2, c3 (blocked)
    assert!(attacks & (1 << 9) != 0); // b2
    assert!(attacks & (1 << 18) != 0); // c3 (capture)
    assert!(attacks & (1 << 27) == 0); // d4 (blocked)
}

#[test]
fn test_queen_attacks() {
    let m = magic();
    // Queen combines rook and bishop
    let occ = 0u64;
    let sq = 28; // e4
    let queen = queen_attacks(&m, sq, occ);
    let rook = rook_attacks(&m, sq, occ);
    let bishop = bishop_attacks(&m, sq, occ);
    assert_eq!(queen, rook | bishop);
}

#[test]
fn test_rook_attacks_exact_value() {
    let m = magic();
    // Rook on a1 with a blocker on a4 and one on c1.
    let occ = (1u64 << 24) | (1u64 << 2);
    let expected = (1u64 << 8) | (1 << 16) | (1 << 24) | (1 << 1) | (1 << 2);
    assert_eq!(rook_attacks(&m, 0, occ), expected);
    assert_eq!(rook_attacks_slow(0, occ), expected);
}

#[test]
fn test_bishop_attacks_exact_value() {
    let m = magic();
    // Bishop on d4 (27) with a blocker on f6 (45).
    let occ = 1u64 << 45;
    let expected = (1u64 << 36) | (1 << 45) // NE up to the blocker
        | (1 << 34) | (1 << 41) | (1 << 48) // NW
        | (1 << 20) | (1 << 13) | (1 << 6) // SE
        | (1 << 18) | (1 << 9) | (1 << 0); // SW
    assert_eq!(bishop_attacks(&m, 27, occ), expected);
    assert_eq!(bishop_attacks_slow(27, occ), expected);
}

#[test]
fn test_masks_leave_out_edges() {
    // Rook on a1: a2..a7 and b1..g1.
    assert_eq!(rook_mask(0), 0x000101010101017E);
    // Rook on e4: e2..e7 and b4..g4.
    assert_eq!(rook_mask(28), 0x001010106E101000);
    // Bishop on a1: b2..g7.
    assert_eq!(bishop_mask(0), 0x0040201008040200);
    assert_eq!(rook_mask(0).count_ones(), 12);
    assert_eq!(bishop_mask(27).count_ones(), 9);
}

#[test]
fn test_index_to_occupancy() {
    let mask = 0b1011_0100u64;
    assert_eq!(index_to_occupancy(0, mask), 0);
    assert_eq!(index_to_occupancy(1, mask), 0b100);
    assert_eq!(index_to_occupancy(2, mask), 0b1_0000);
    assert_eq!(index_to_occupancy(0b1010, mask), 0b1001_0000);
    assert_eq!(index_to_occupancy(0b1111, mask), mask);
    // Bits of the index beyond the mask's size fall away.
    assert_eq!(index_to_occupancy(0b1_0000, mask), 0);
}

#[test]
fn test_magic_lookup_matches_ray_walk_on_every_sub_occupancy() {
    let m = magic();
    for sq in 0..64usize {
        let mask = rook_mask(sq);
        let n = 1usize << mask.count_ones();
        for index in 0..n {
            let occ = index_to_occupancy(index, mask);
            assert_eq!(rook_attacks(&m, sq, occ), rook_attacks_slow(sq, occ));
        }
        let mask = bishop_mask(sq);
        let n = 1usize << mask.count_ones();
        for index in 0..n {
            let occ = index_to_occupancy(index, mask);
            assert_eq!(bishop_attacks(&m, sq, occ), bishop_attacks_slow(sq, occ));
        }
    }
}

#[test]
fn test_occupancy_outside_mask_is_ignored() {
    let m = magic();
    // h1 and a8 lie on the edge of the rays from a1.
    let occ = (1u64 << 7) | (1u64 << 56);
    assert_eq!(rook_attacks(&m, 0, occ), rook_attacks(&m, 0, 0));
    assert_eq!(rook_attacks(&m, 0, 0), 0x01010101010101FE);
}

#[test]
fn test_table_sizes() {
    let m = magic();
    assert_eq!(m.rook.attacks.len(), 102400);
    assert_eq!(m.bishop.attacks.len(), 5248);
    assert_eq!(m.rook.shifts[0], 52);
    assert_eq!(m.bishop.shifts[0], 58);
    assert_eq!(m.rook.offsets[1], 4096);
}

#[test]
fn test_build_rejects_colliding_multiplier() {
    // A multiplier of zero sends every sub-occupancy to slot 0.
    let mut magics = ROOK_MAGICS;
    magics[10] = 0;
    assert!(SliderTable::build(true, magics).is_none());
    assert!(SliderTable::build(true, ROOK_MAGICS).is_some());
}
