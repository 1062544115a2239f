use oxide::definitions::{
    in_between, in_between_calculate, king_attacks, knight_attacks, pawn_attacks, queen_attacks,
    rank_bb, AntiDiagonal, Diagonal, File, Rank, Side, Square, BB,
};

#[test]
fn test_in_between() {
    assert_eq!(
        in_between(Square::C1, Square::C4),
        Square::C2.to_bb() | Square::C3.to_bb()
    );
    assert_eq!(
        in_between(Square::D3, Square::H3),
        Square::E3.to_bb() | Square::F3.to_bb() | Square::G3.to_bb()
    );
    assert_eq!(in_between(Square::A1, Square::C3), Square::B2.to_bb());
    assert_eq!(
        in_between(Square::D5, Square::G2),
        Square::E4.to_bb() | Square::F3.to_bb()
    );

    assert_eq!(in_between(Square::F6, Square::F6), BB::empty());
    assert_eq!(in_between(Square::F6, Square::G6), BB::empty());
    assert_eq!(in_between(Square::F6, Square::G4), BB::empty());

    for i in 0..64 {
        for j in 0..64 {
            test_in_between_symmetry(i, j);
        }
    }
}

fn test_in_between_symmetry(sq1: usize, sq2: usize) {
    let sq1 = Square::from_index(sq1);
    let sq2 = Square::from_index(sq2);
    assert_eq!(in_between(sq1, sq2), in_between(sq2, sq1));
}

#[test]
fn in_between_excludes_both_ends() {
    for i in 0..64 {
        for j in 0..64 {
            let a = Square::from_index(i);
            let b = Square::from_index(j);
            let mask = in_between_calculate(a, b);
            assert!(!mask.contains(a));
            assert!(!mask.contains(b));
        }
    }
}

#[test]
fn in_between_on_anti_diagonal() {
    assert_eq!(
        in_between(Square::H1, Square::A8),
        Square::G2.to_bb()
            | Square::F3.to_bb()
            | Square::E4.to_bb()
            | Square::D5.to_bb()
            | Square::C6.to_bb()
            | Square::B7.to_bb()
    );
}

#[test]
fn pawn_attacks_from_b3() {
    assert_eq!(
        pawn_attacks(Side::White, Square::B3),
        Square::A4.to_bb() | Square::C4.to_bb()
    );
    assert_eq!(
        pawn_attacks(Side::Black, Square::B3),
        Square::A2.to_bb() | Square::C2.to_bb()
    );
}

#[test]
fn pawn_attacks_at_the_edge() {
    assert_eq!(pawn_attacks(Side::White, Square::H2), Square::G3.to_bb());
    assert_eq!(pawn_attacks(Side::White, Square::C8), BB::empty());
}

#[test]
fn knight_and_king_attacks() {
    assert_eq!(
        knight_attacks(Square::A1),
        Square::B3.to_bb() | Square::C2.to_bb()
    );
    assert_eq!(knight_attacks(Square::D4).0.count_ones(), 8);
    assert_eq!(
        king_attacks(Square::H8),
        Square::G8.to_bb() | Square::G7.to_bb() | Square::H7.to_bb()
    );
    assert_eq!(queen_attacks(Square::D4).0.count_ones(), 27);
}

#[test]
fn square_coordinates() {
    assert_eq!(Square::G2.file(), File::G);
    assert_eq!(Square::G2.rank(), Rank::Two);
    assert_eq!(Square::G2.diagonal(), Diagonal::F1H3);
    assert_eq!(Square::B2.antidiagonal(), AntiDiagonal::A3C1);
    assert_eq!(Square::from_coord(File::E, Rank::Four), Square::E4);
    assert_eq!(Square::E4.index(), 28);
    assert_eq!(Square::H8.to_bb(), BB(1u64 << 63));
}

#[test]
fn safe_from_index_bounds() {
    assert_eq!(Square::safe_from_index(63), Ok(Square::H8));
    assert_eq!(Square::safe_from_index(64), Err(String::from("Invalid square 64")));
}

#[test]
fn bitboard_operations() {
    let mut bb = Square::C3.to_bb() | Square::A1.to_bb() | Square::H8.to_bb();
    assert_eq!(bb.lsb(), Square::A1);
    assert_eq!(bb.poplsb(), Square::A1);
    assert_eq!(bb.poplsb(), Square::C3);
    assert_eq!(bb, Square::H8.to_bb());
    assert_eq!(!BB::empty(), BB::full());
    assert_eq!(BB::full() ^ Square::A1.to_bb(), BB(u64::MAX - 1));
    assert_eq!(Square::A1.to_bb().shift_up(8), Square::A2.to_bb());
    assert_eq!(Square::A2.to_bb().shift_down(8), Square::A1.to_bb());
    assert_eq!(rank_bb(Rank::One), BB(0xff));
    assert!(BB::empty().is_empty());
    assert!(!Square::A1.to_bb().is_empty());
}

#[test]
fn side_negation() {
    assert_eq!(!Side::White, Side::Black);
    assert_eq!(Side::Black.opposite(), Side::White);
}
