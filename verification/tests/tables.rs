use brainybishop::tables::{
    abs, generate_between, generate_king_attacks, generate_knight_attacks, generate_line,
    generate_pawn_attacks, generate_rays, sign, DIR_E, DIR_N, DIR_NE, DIR_NW, DIR_S, DIR_SE,
    DIR_SW, DIR_W, FILE_A, RANK_1,
};

#[test]
fn test_knight_attacks_corner() {
    let knight_attacks = generate_knight_attacks();
    // a1 knight can attack b3, c2
    assert_eq!(knight_attacks[0], (1 << 17) | (1 << 10));
    // h8 knight can attack g6, f7
    assert_eq!(knight_attacks[63], (1 << 46) | (1 << 53));
}

#[test]
fn test_knight_attacks_center() {
    // e4 (square 28) should have 8 attacks
    let attacks = generate_knight_attacks()[28];
    assert_eq!(attacks.count_ones(), 8);
}

#[test]
fn test_king_attacks_corner() {
    // a1 king can attack a2, b1, b2
    let expected = (1 << 1) | (1 << 8) | (1 << 9);
    assert_eq!(generate_king_attacks()[0], expected);
}

#[test]
fn test_king_attacks_center() {
    // e4 (square 28) should have 8 attacks
    let attacks = generate_king_attacks()[28];
    assert_eq!(attacks.count_ones(), 8);
}

#[test]
fn test_pawn_attacks() {
    let pawn_attacks = generate_pawn_attacks();
    // White pawn on e4 attacks d5, f5
    assert_eq!(pawn_attacks[0][28], (1 << 35) | (1 << 37));
    // Black pawn on e5 attacks d4, f4
    assert_eq!(pawn_attacks[1][36], (1 << 27) | (1 << 29));
}

#[test]
fn test_between_horizontal() {
    let between = generate_between();
    // Between a1 (0) and d1 (3) should be b1, c1
    assert_eq!(between[0][3], (1 << 1) | (1 << 2));
}

#[test]
fn test_between_vertical() {
    let between = generate_between();
    // Between a1 (0) and a4 (24) should be a2, a3
    assert_eq!(between[0][24], (1 << 8) | (1 << 16));
}

#[test]
fn test_between_diagonal() {
    let between = generate_between();
    // Between a1 (0) and d4 (27) should be b2, c3
    assert_eq!(between[0][27], (1 << 9) | (1 << 18));
}

#[test]
fn test_line_horizontal() {
    let line = generate_line();
    // Line through a1 and d1 should be the entire first rank
    let expected = RANK_1;
    assert_eq!(line[0][3], expected);
}

#[test]
fn test_line_vertical() {
    let line = generate_line();
    // Line through a1 and a4 should be the entire A file
    assert_eq!(line[0][24], FILE_A);
}

#[test]
fn test_pawn_attacks_on_edges() {
    let pawn_attacks = generate_pawn_attacks();
    // White pawn on a2 attacks b3 only; on h2, g3 only.
    assert_eq!(pawn_attacks[0][8], 1 << 17);
    assert_eq!(pawn_attacks[0][15], 1 << 22);
    // Nothing lies beyond the last rank.
    assert_eq!(pawn_attacks[0][60], 0);
    assert_eq!(pawn_attacks[1][4], 0);
}

#[test]
fn test_rays_from_d4() {
    let rays = generate_rays();
    let d4 = 27;
    assert_eq!(rays[DIR_N][d4], (1 << 35) | (1 << 43) | (1 << 51) | (1 << 59));
    assert_eq!(rays[DIR_S][d4], (1 << 19) | (1 << 11) | (1 << 3));
    assert_eq!(rays[DIR_E][d4], (1 << 28) | (1 << 29) | (1 << 30) | (1 << 31));
    assert_eq!(rays[DIR_W][d4], (1 << 26) | (1 << 25) | (1 << 24));
    assert_eq!(rays[DIR_NE][d4], (1 << 36) | (1 << 45) | (1 << 54) | (1 << 63));
    assert_eq!(rays[DIR_NW][d4], (1 << 34) | (1 << 41) | (1 << 48));
    assert_eq!(rays[DIR_SE][d4], (1 << 20) | (1 << 13) | (1 << 6));
    assert_eq!(rays[DIR_SW][d4], (1 << 18) | (1 << 9) | (1 << 0));
}

#[test]
fn test_rays_stop_at_the_edge() {
    let rays = generate_rays();
    assert_eq!(rays[DIR_N][63], 0);
    assert_eq!(rays[DIR_E][63], 0);
    assert_eq!(rays[DIR_NE][7], 0);
    assert_eq!(rays[DIR_SW][0], 0);
    assert_eq!(rays[DIR_W][7], 0x7F);
}

#[test]
fn test_between_and_line_unaligned() {
    let between = generate_between();
    let line = generate_line();
    // a1 and b3 share no rank, file or diagonal.
    assert_eq!(between[0][17], 0);
    assert_eq!(line[0][17], 0);
    // A square with itself.
    assert_eq!(between[12][12], 0);
    assert_eq!(line[12][12], 0);
    // Neighbours have nothing between them.
    assert_eq!(between[0][1], 0);
    // Between is symmetric.
    assert_eq!(between[3][0], between[0][3]);
}

#[test]
fn test_line_diagonal() {
    let line = generate_line();
    // Through b2 and d4: the long diagonal.
    assert_eq!(line[9][27], 0x8040201008040201);
    // Through a8 and b7: the other long diagonal.
    assert_eq!(line[56][49], 0x0102040810204080);
}

#[test]
fn test_abs_and_sign() {
    assert_eq!(abs(-5), 5);
    assert_eq!(abs(7), 7);
    assert_eq!(abs(0), 0);
    assert_eq!(sign(-3), -1);
    assert_eq!(sign(0), 0);
    assert_eq!(sign(9), 1);
}
