use rfish_engine::board::bitboard::Bitboard;
use rfish_engine::board::position::Position;
use rfish_engine::board::startpos::START_FEN;
use rfish_engine::board::types::{Color, File, Piece, Rank, Square};
use rfish_engine::eval::nnue::features::{
    halfka_active, halfka_index, halfka_mirror, orient, threat_mirror, HALFKA_DIMENSIONS,
    PP_DIMENSIONS, PP_INDEX_BASE, THREAT_AND_PP_DIMENSIONS, THREAT_DIMENSIONS,
};
use rfish_engine::eval::nnue::pawn_pairs::{pawn_pair_active, pawn_pair_band, pawn_pair_index, push_pairs};
use rfish_engine::eval::nnue::threat_features::{threat_active, threat_index, ThreatTables};

fn at(file: usize, rank: usize) -> Square {
    Square::make(File::new(file), Rank::new(rank))
}

#[test]
fn the_dimension_counts_are_the_ones_the_file_encodes() {
    assert_eq!(HALFKA_DIMENSIONS, 22528);
    assert_eq!(THREAT_DIMENSIONS, 59808);
    assert_eq!(PP_DIMENSIONS, 4560);
    assert_eq!(PP_INDEX_BASE, THREAT_DIMENSIONS);
    assert_eq!(THREAT_AND_PP_DIMENSIONS, 64368);
    let _ = ThreatTables::build();
}

#[test]
fn every_halfka_index_is_in_range_for_every_reachable_placement() {
    for k in 0..64 {
        for s in 0..64 {
            for pc in [Piece::W_PAWN, Piece::B_QUEEN, Piece::W_KING, Piece::B_KING] {
                for p in Color::ALL {
                    let i = halfka_index(p, Square::new(s), pc, Square::new(k));
                    assert!(i < HALFKA_DIMENSIONS as u32, "{i} out of range");
                }
            }
        }
    }
}

#[test]
fn the_two_orientations_are_opposites() {
    for i in 0..64 {
        let s = Square::new(i);
        assert_ne!(halfka_mirror(s), threat_mirror(s));
        assert!(halfka_mirror(s) == 0 || halfka_mirror(s) == 7);
    }
    assert_eq!(halfka_mirror(Square::A1), 7);
    assert_eq!(threat_mirror(Square::A1), 0);
}

#[test]
fn a_square_is_turned_by_file_and_rank() {
    assert_eq!(orient(Square::A1, true, false), Square::H1);
    assert_eq!(orient(Square::A1, false, true), Square::A8);
    assert_eq!(orient(Square::A1, true, true), Square::H8);
    assert_eq!(orient(Square::A1, false, false), Square::A1);
}

#[test]
fn every_threat_index_from_a_real_position_is_in_range() {
    let t = ThreatTables::build();
    for fen in [
        START_FEN,
        "r3k2r/p1ppqpb1/bn2pnp1/3PN3/1p2P3/2N2Q1p/PPPBBPPP/R3K2R w KQkq - 0 1",
        "k7/2n1n3/1nbNbn2/2NbRBn1/1nbRQR2/2NBRBN1/3N1N2/7K w - - 0 1",
        "K7/8/8/BNQNQNB1/N5N1/R1Q1q2r/n5n1/bnqnqnbk w - - 0 1",
    ] {
        let pos = Position::from_fen(fen, false).expect("valid");
        for p in Color::ALL {
            let mut v = Vec::new();
            threat_active(&t, &pos, p, &mut v);
            let mut w = Vec::new();
            pawn_pair_active(&pos, p, &mut w);
            for i in v {
                assert!(i < THREAT_DIMENSIONS, "{fen}: threat index {i} out of range");
            }
            for i in w {
                assert!(
                    (PP_INDEX_BASE..PP_INDEX_BASE + PP_DIMENSIONS).contains(&i),
                    "{fen}: pawn-pair index {i} out of range"
                );
            }
        }
    }
}

#[test]
fn a_pawn_pair_index_is_symmetric() {
    let ksq = at(4, 0);
    let a = at(3, 3);
    let b = at(4, 4);
    for p in Color::ALL {
        assert_eq!(
            pawn_pair_index(p, Color::White, a, b, Color::Black, ksq),
            pawn_pair_index(p, Color::Black, b, a, Color::White, ksq)
        );
    }
}

#[test]
fn the_pawn_pair_band_is_three_files_wide() {
    let d4 = at(3, 3);
    let band = pawn_pair_band(d4);
    assert!(band.contains(at(2, 4)));
    assert!(band.contains(at(4, 1)));
    assert!(!band.contains(d4));
    assert!(!band.contains(at(3, 0)), "rank 1 is excluded");
    assert!(!band.contains(at(3, 7)), "rank 8 is excluded");
    assert!(!band.contains(at(1, 3)), "two files away is excluded");
    assert_eq!(band.count(), 17);
}

#[test]
fn the_pairs_that_touch_a_change_are_the_only_ones() {
    let white = Bitboard::from_square(Square::A2) | Bitboard::from_square(Square::B2) | Bitboard::from_square(Square::H2);
    let black = Bitboard::from_square(Square::B7);
    let mut all = Vec::new();
    push_pairs(white, black, Bitboard(u64::MAX), Color::White, Square::E1, &mut all);
    assert_eq!(all.len(), 3);
    let mut some = Vec::new();
    push_pairs(white, black, Bitboard::from_square(Square::A2), Color::White, Square::E1, &mut some);
    assert_eq!(some.len(), 2);
    assert!(some.iter().all(|f| all.contains(f)));
}

#[test]
fn the_start_position_has_the_expected_feature_counts() {
    let pos = Position::from_fen(START_FEN, false).expect("valid");
    let mut halfka = Vec::new();
    halfka_active(&pos, Color::White, &mut halfka);
    assert_eq!(halfka.len(), 32, "one feature per piece on the board");

    let mut pp = Vec::new();
    pawn_pair_active(&pos, Color::White, &mut pp);
    assert_eq!(pp.len(), 36);
    let mut sorted = pp.clone();
    sorted.sort_unstable();
    sorted.dedup();
    assert_eq!(sorted.len(), pp.len());
}

#[test]
fn the_two_perspectives_see_different_features() {
    let t = ThreatTables::build();
    let pos = Position::from_fen(
        "r3k2r/p1ppqpb1/bn2pnp1/3PN3/1p2P3/2N2Q1p/PPPBBPPP/R3K2R w KQkq - 0 1",
        false,
    )
    .expect("valid");
    let mut w = Vec::new();
    threat_active(&t, &pos, Color::White, &mut w);
    let mut b = Vec::new();
    threat_active(&t, &pos, Color::Black, &mut b);
    assert_eq!(w.len(), b.len(), "both sides see the same threats, differently indexed");
    assert_ne!(w, b);
}

#[test]
fn a_threat_is_one_of_the_active_ones() {
    let t = ThreatTables::build();
    let pos = Position::from_fen("4k3/8/8/3n4/8/8/8/3RK3 w - - 0 1", false).expect("valid");
    let mut active = Vec::new();
    threat_active(&t, &pos, Color::White, &mut active);
    let i = threat_index(
        &t,
        Color::White,
        Piece::W_ROOK,
        Square::D1,
        Square::D5,
        Piece::B_KNIGHT,
        Square::E1,
    );
    assert!(active.contains(&i));
}

#[test]
fn different_facts_have_different_features() {
    let ksq = Square::E1;
    let pieces = [
        Piece::W_PAWN,
        Piece::W_KNIGHT,
        Piece::W_BISHOP,
        Piece::W_ROOK,
        Piece::W_QUEEN,
        Piece::W_KING,
        Piece::B_PAWN,
        Piece::B_KNIGHT,
        Piece::B_BISHOP,
        Piece::B_ROOK,
        Piece::B_QUEEN,
    ];
    let mut seen = std::collections::HashSet::new();
    for s in 0..64 {
        for pc in pieces {
            assert!(seen.insert(halfka_index(Color::White, Square::new(s), pc, ksq)));
        }
    }
    assert_eq!(seen.len(), 704);

    let mut pairs = std::collections::HashSet::new();
    let inside: Vec<usize> = (8..56).collect();
    for (i, &x) in inside.iter().enumerate() {
        for &y in &inside[i + 1..] {
            for c in Color::ALL {
                for d in Color::ALL {
                    let f = pawn_pair_index(Color::White, c, Square::new(x), Square::new(y), d, ksq);
                    assert!(pairs.insert(f), "{x} {y}");
                }
            }
        }
    }

    let t = ThreatTables::build();
    let mut threats = std::collections::HashSet::new();
    for x in 0..64 {
        for y in 0..64 {
            let (dx, dy) = ((x % 8i32 - y % 8).abs(), (x / 8 - y / 8).abs());
            if (dx, dy) != (1, 2) && (dx, dy) != (2, 1) {
                continue;
            }
            for d in [Piece::W_PAWN, Piece::B_PAWN, Piece::W_ROOK, Piece::B_QUEEN] {
                let f = threat_index(
                    &t,
                    Color::White,
                    Piece::W_KNIGHT,
                    Square::new(x as usize),
                    Square::new(y as usize),
                    d,
                    ksq,
                );
                assert!(f < THREAT_DIMENSIONS);
                assert!(threats.insert(f), "{x} {y} {d:?}");
            }
        }
    }
    assert_eq!(threats.len(), 4 * 336);
}
