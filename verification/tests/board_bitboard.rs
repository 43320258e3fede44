use rfish_engine::board::bitboard::{
    distance, king_attacks, knight_attacks, pawn_attacks_from, Bitboard, FILE_A, FILE_H, RANK_1,
    RANK_8,
};
use rfish_engine::board::types::{Color, Direction, File, PieceType, Rank, Square};

#[test]
fn set_operations_agree_with_membership() {
    let mut b = Bitboard::empty();
    b.set(Square::A1);
    b.set(Square::H8);
    assert_eq!(b.count(), 2);
    assert!(b.contains(Square::A1) && b.contains(Square::H8));
    assert_eq!(b.lsb(), Square::A1);
    assert_eq!(b.msb(), Square::H8);
    assert!(b.more_than_one());
    b.clear(Square::A1);
    assert!(b.exactly_one());
}

#[test]
fn iteration_visits_every_member_once_ascending() {
    let b = Bitboard(FILE_A) | Bitboard(RANK_1);
    let seen: Vec<Square> = b.to_vec();
    assert_eq!(seen.len(), b.count() as usize);
    assert!(seen.windows(2).all(|w| w[0] < w[1]));
    for sq in &seen {
        assert!(b.contains(*sq));
    }
    let mut it = b.iter();
    let mut walked = Vec::new();
    while let Some(sq) = it.next() {
        walked.push(sq);
    }
    assert_eq!(walked, seen);
}

#[test]
fn shifts_drop_wrapping_members() {
    assert_eq!(Bitboard(FILE_H).shift(Direction::East), Bitboard::empty());
    assert_eq!(Bitboard(FILE_A).shift(Direction::West), Bitboard::empty());
    assert_eq!(Bitboard(RANK_8).shift(Direction::North), Bitboard::empty());
    assert_eq!(Bitboard(RANK_1).shift(Direction::South), Bitboard::empty());
    assert_eq!(Bitboard(FILE_A).shift(Direction::East), Bitboard(FILE_A << 1));
}

#[test]
fn step_attack_counts_match_the_geometry() {
    let d4 = Square::make(File::new(3), Rank::new(3));
    assert_eq!(knight_attacks(Square::A1).count(), 2);
    assert_eq!(knight_attacks(d4).count(), 8);
    assert_eq!(king_attacks(Square::A1).count(), 3);
    assert_eq!(king_attacks(d4).count(), 8);
    let total: u32 = Square::all().into_iter().map(|s| knight_attacks(s).count()).sum();
    assert_eq!(total, 336);
}

#[test]
fn pawn_attacks_face_the_right_way() {
    assert_eq!(
        pawn_attacks_from(Color::White, Square::A1),
        Bitboard::from_square(Square::new(9))
    );
    assert_eq!(pawn_attacks_from(Color::White, Square::A8), Bitboard::empty());
    assert_eq!(pawn_attacks_from(Color::Black, Square::A1), Bitboard::empty());
    for sq in Square::all() {
        for c in Color::ALL {
            assert_eq!(Bitboard::from_square(sq).pawn_attacks(c), pawn_attacks_from(c, sq));
        }
    }
}

#[test]
fn distance_is_chebyshev() {
    assert_eq!(distance(Square::A1, Square::A1), 0);
    assert_eq!(distance(Square::A1, Square::H8), 7);
    assert_eq!(distance(Square::A1, Square::new(9)), 1);
    for a in Square::all() {
        for b in Square::all() {
            assert_eq!(distance(a, b), a.distance(b));
        }
    }
}

#[test]
fn piece_types_are_distinct() {
    assert_eq!(PieceType::REAL.len(), 6);
}

#[test]
fn a_set_is_shown_as_a_grid() {
    let mut b = Bitboard::empty();
    b.set(Square::A1);
    b.set(Square::H8);
    let shown = b.to_string();
    let lines: Vec<&str> = shown.lines().collect();
    assert_eq!(lines.len(), 18);
    assert_eq!(lines[0], "+---+---+---+---+---+---+---+---+");
    assert_eq!(lines[1], "|   |   |   |   |   |   |   | X | 8");
    assert_eq!(lines[3], "|   |   |   |   |   |   |   |   | 7");
    assert_eq!(lines[15], "| X |   |   |   |   |   |   |   | 1");
    assert_eq!(lines[16], lines[0]);
    assert_eq!(lines[17], "  a   b   c   d   e   f   g   h");
}
