use rfish_engine::board::attacks::{
    aligned, between_bb, bishop_attacks, both_attacks_bb, line_bb, queen_attacks, ray_pass_bb,
    rook_attacks,
};
use rfish_engine::board::bitboard::{Bitboard, FILE_A, RANK_1};
use rfish_engine::board::magics::{relevant_mask, sliders, subsets, walk, Prng};
use rfish_engine::board::types::{Color, File, PieceType, Rank, Square};

fn at(file: usize, rank: usize) -> Square {
    Square::make(File::new(file), Rank::new(rank))
}

fn sq(name: &str) -> Square {
    let b = name.as_bytes();
    at((b[0] - b'a') as usize, (b[1] - b'1') as usize)
}

fn set(names: &[&str]) -> Bitboard {
    names.iter().fold(Bitboard::empty(), |acc, n| acc | Bitboard::from_square(sq(n)))
}

#[test]
fn magic_lookups_agree_with_the_ray_walk() {
    let tables = sliders();
    for sq in Square::all() {
        for rook in [true, false] {
            let mask = relevant_mask(rook, sq).bits();
            for occ in subsets(mask) {
                let expected = walk(rook, sq, Bitboard(occ));
                let got = if rook {
                    tables.rook(sq, Bitboard(occ))
                } else {
                    tables.bishop(sq, Bitboard(occ))
                };
                assert_eq!(got, expected, "square {}, occ {occ:#x}", sq.to_string());
            }
        }
    }
}

#[test]
fn every_square_gets_a_magic_number() {
    let tables = sliders();
    assert!(tables.rooks.magics.iter().all(|m| m.is_some()));
    assert!(tables.bishops.magics.iter().all(|m| m.is_some()));
    assert_eq!(tables.rooks.table.len(), 0x1_9000);
    assert_eq!(tables.bishops.table.len(), 0x1480);
}

#[test]
fn the_tables_answer_for_every_kind_of_piece() {
    let tables = sliders();
    let occ = set(&["d4", "f6", "c3", "d7"]);
    for s in Square::all() {
        assert_eq!(tables.queen(s, occ), queen_attacks(s, occ));
        assert_eq!(tables.both(s, occ), both_attacks_bb(s, occ));
        assert_eq!(tables.from(Color::Black, PieceType::Pawn, s, occ).count() <= 2, true);
        assert_eq!(tables.piece(PieceType::Rook, s, occ), rook_attacks(s, occ));
        assert_eq!(tables.piece(PieceType::King, s, occ).count() >= 3, true);
    }
}

#[test]
fn irrelevant_occupancy_is_ignored() {
    for sq in Square::all() {
        let mask = relevant_mask(true, sq);
        let noise = Bitboard(!mask.0) & Bitboard(!Bitboard::from_square(sq).0);
        assert_eq!(
            rook_attacks(sq, Bitboard::empty()),
            rook_attacks(sq, noise & Bitboard(!mask.0))
        );
    }
}

#[test]
fn empty_board_slider_reach_is_the_full_ray() {
    for sq in Square::all() {
        assert_eq!(rook_attacks(sq, Bitboard::empty()).count(), 14);
        let b = bishop_attacks(sq, Bitboard::empty()).count();
        assert!((7..=13).contains(&b), "bishop on {} reaches {b}", sq.to_string());
    }
    assert_eq!(queen_attacks(Square::A1, Bitboard::empty()).count(), 21);
}

#[test]
fn between_includes_the_destination_and_excludes_the_origin() {
    let a1 = Square::A1;
    let d1 = at(3, 0);
    let b = between_bb(a1, d1);
    assert!(!b.contains(a1));
    assert!(b.contains(d1));
    assert!(b.contains(at(1, 0)) && b.contains(at(2, 0)));
    let knight_sq = at(1, 2);
    assert_eq!(between_bb(a1, knight_sq), Bitboard::from_square(knight_sq));
}

#[test]
fn line_spans_the_whole_ray_and_is_symmetric() {
    assert_eq!(line_bb(Square::A1, Square::H1), Bitboard(RANK_1));
    assert_eq!(line_bb(Square::A1, Square::A8), Bitboard(FILE_A));
    assert!(line_bb(Square::A1, at(1, 2)).is_empty());
    for a in Square::all() {
        for b in Square::all() {
            assert_eq!(line_bb(a, b), line_bb(b, a));
        }
    }
    assert!(aligned(Square::A1, at(3, 0), Square::H1));
    assert!(!aligned(Square::A1, at(3, 0), Square::A8));
}

#[test]
fn subsets_enumerates_each_subset_exactly_once() {
    let mask = 0b1011_0110u64;
    let all: Vec<u64> = subsets(mask);
    assert_eq!(all.len(), 1 << mask.count_ones());
    let mut sorted = all.clone();
    sorted.sort_unstable();
    sorted.dedup();
    assert_eq!(sorted.len(), all.len());
    assert!(all.iter().all(|s| s & !mask == 0));
}

#[test]
fn the_generator_is_deterministic() {
    let mut a = Prng(728);
    let mut b = Prng(728);
    for _ in 0..10 {
        assert_eq!(a.sparse_u64(), b.sparse_u64());
    }
    assert_ne!(a.next_u64(), a.next_u64());
}

#[test]
fn a_ray_passes_through_the_far_square_to_the_edge() {
    let f = |a: &str, b: &str| ray_pass_bb(sq(a), sq(b));
    assert_eq!(f("a1", "a4"), set(&["a2", "a3", "a4", "a5", "a6", "a7", "a8"]), "file");
    assert_eq!(f("a1", "d4"), set(&["b2", "c3", "d4", "e5", "f6", "g7", "h8"]), "diagonal");
    assert_eq!(f("a1", "d1"), set(&["b1", "c1", "d1", "e1", "f1", "g1", "h1"]), "rank");
    assert_eq!(f("h8", "e5"), set(&["g7", "f6", "e5", "d4", "c3", "b2", "a1"]), "reversed");
    assert_eq!(f("a1", "b3"), Bitboard::empty(), "not on a shared ray");
    assert_eq!(f("d4", "d4"), Bitboard::empty(), "a square shares no ray with itself");
}

#[test]
fn both_attacks_agrees_with_the_separate_lookups() {
    let occ = set(&["d4", "f6"]);
    for s in Square::all() {
        let (b, r) = both_attacks_bb(s, occ);
        assert_eq!(b, bishop_attacks(s, occ), "{s:?} bishop");
        assert_eq!(r, rook_attacks(s, occ), "{s:?} rook");
    }
}

#[test]
fn every_square_has_a_magic_number() {
    let tables = sliders();
    for (table, widths) in [(&tables.rooks, 10..=12u32), (&tables.bishops, 5..=9u32)] {
        assert_eq!(table.magics.len(), 64);
        let mut offset = 0;
        for m in &table.magics {
            let m = m.expect("found");
            assert!(widths.contains(&m.mask.count_ones()));
            assert_eq!(m.shift, 64 - m.mask.count_ones());
            assert_eq!(m.offset, offset);
            offset += 1usize << m.mask.count_ones();
        }
        assert_eq!(table.table.len(), offset);
    }
}
