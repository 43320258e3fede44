use std::collections::HashMap;

use rfish_engine::board::bitboard::Bitboard;
use rfish_engine::board::legal_moves::{generate_legal, parse_uci_move};
use rfish_engine::board::position::Position;
use rfish_engine::board::startpos::START_FEN;
use rfish_engine::board::threats::update_piece_threats;
use rfish_engine::board::types::{Color, File, Piece, PieceType, Rank, Square};
use rfish_engine::eval::nnue::features::THREAT_DIMENSIONS;
use rfish_engine::eval::nnue::pawn_pairs::{pawn_pair_active, pawn_pair_delta};
use rfish_engine::eval::nnue::threat_features::{
    threat_active, threat_delta, threat_index, ThreatTables,
};
use rfish_engine::eval::nnue::transformer::EvalScratch;
use rfish_engine::eval::nnue::weights::FeatureTransformer;

/// The threat features active in `pos`, one sorted list per perspective.
fn active(t: &ThreatTables, pos: &Position) -> [Vec<u32>; 2] {
    let mut out = [Vec::new(), Vec::new()];
    for p in Color::ALL {
        threat_active(t, pos, p, &mut out[p.index()]);
        out[p.index()].sort_unstable();
    }
    out
}

/// `pos` with the man on `s` taken off, through a FEN round trip.
fn without(pos: &Position, s: Square) -> Option<Position> {
    let mut rows = Vec::new();
    for rank in (0..8).rev() {
        let mut row = String::new();
        let mut gap = 0;
        for file in 0..8 {
            let sq = Square::make(File::new(file), Rank::new(rank));
            let pc = pos.piece_on(sq);
            if pc == Piece::NONE || sq == s {
                gap += 1;
                continue;
            }
            if gap > 0 {
                row.push_str(&gap.to_string());
                gap = 0;
            }
            row.push(pc.to_char() as char);
        }
        if gap > 0 {
            row.push_str(&gap.to_string());
        }
        rows.push(row);
    }
    let stm = if pos.side_to_move() == Color::White { "w" } else { "b" };
    Position::from_fen(&format!("{} {stm} - - 0 1", rows.join("/")), false).ok()
}

#[test]
fn a_placement_delta_equals_the_difference_of_the_two_full_sets() {
    const FENS: [&str; 6] = [
        "rnbqkbnr/pppppppp/8/8/8/8/PPPPPPPP/RNBQKBNR w KQkq - 0 1",
        "r3k2r/p1ppqpb1/bn2pnp1/3PN3/1p2P3/2N2Q1p/PPPBBPPP/R3K2R w KQkq - 0 1",
        "8/2p5/3p4/KP5r/1R3p1k/8/4P1P1/8 w - - 0 1",
        "r2q1rk1/pP1p2pp/Q4n2/bbp1p3/Np6/1B3NBn/pPPP1PPP/R3K2R b KQ - 0 1",
        "2r3k1/1q1nbppp/r3p3/3pP3/pPpP4/P1Q2N2/2RN1PPP/2R4K b - b3 0 1",
        "8/8/8/2q5/3B4/8/5K1k/8 w - - 0 1",
    ];
    let t = ThreatTables::build();
    let mut checked = 0usize;
    for fen in FENS {
        let pos = Position::from_fen(fen, false).expect("valid fen");
        let full = active(&t, &pos);
        let ksq = [pos.king_square(Color::White), pos.king_square(Color::Black)];
        for s in pos.occupied().to_vec() {
            let pc = pos.piece_on(s);
            if pc.piece_type() == PieceType::King {
                continue;
            }
            let Some(reduced) = without(&pos, s) else { continue };
            let base = active(&t, &reduced);
            let mut delta = Vec::new();
            update_piece_threats(&pos, pc, true, s, &mut delta, Bitboard::all(), true);
            for p in [Color::White, Color::Black] {
                let i = p.index();
                let mut got = base[i].clone();
                for d in &delta {
                    let idx =
                        threat_index(&t, p, d.attacker(), d.from(), d.to(), d.attacked(), ksq[i]);
                    if idx >= THREAT_DIMENSIONS {
                        continue;
                    }
                    if d.is_add() {
                        got.push(idx);
                    } else {
                        let at = got
                            .iter()
                            .position(|&x| x == idx)
                            .unwrap_or_else(|| panic!("{fen}: {s:?} removes an absent {idx}"));
                        got.remove(at);
                    }
                }
                got.sort_unstable();
                assert_eq!(
                    got, full[i],
                    "{fen}: {pc:?} on {s:?}, perspective {p:?}: delta does not rebuild the full set"
                );
            }
            checked += 1;
        }
    }
    assert!(checked > 100, "only {checked} placements exercised");
}

fn full(t: &ThreatTables, pos: &Position) -> [Vec<u32>; 2] {
    let mut out = [Vec::new(), Vec::new()];
    for p in Color::ALL {
        threat_active(t, pos, p, &mut out[p.index()]);
        pawn_pair_active(pos, p, &mut out[p.index()]);
    }
    out
}

fn counts(v: &[u32]) -> HashMap<u32, i32> {
    let mut m = HashMap::new();
    for &f in v {
        *m.entry(f).or_insert(0) += 1;
    }
    m
}

#[test]
fn the_recorded_delta_carries_the_child_set_for_both_feature_kinds() {
    const FENS: [&str; 6] = [
        "r3k2r/p1ppqpb1/bn2pnp1/3PN3/1p2P3/2N2Q1p/PPPBBPPP/R3K2R w KQkq - 0 1",
        "rnbqkbnr/pppppppp/8/8/8/8/PPPPPPPP/RNBQKBNR w KQkq - 0 1",
        "8/2p5/3p4/KP5r/1R3p1k/8/4P1P1/8 w - - 0 1",
        "r2q1rk1/pP1p2pp/Q4n2/bbp1p3/Np6/1B3NBn/pPPP1PPP/R3K2R b KQ - 0 1",
        "2r3k1/1q1nbppp/r3p3/3pP3/pPpP4/P1Q2N2/2RN1PPP/2R4K b - b3 0 1",
        "n1n5/PPPk4/8/8/8/8/4Kppp/5N1N b - - 0 1",
    ];
    let t = ThreatTables::build();
    let mut checked = 0usize;
    for fen in FENS {
        let parent = Position::from_fen(fen, false).expect("valid fen");
        let before = full(&t, &parent);
        for &m in generate_legal(&parent).as_slice() {
            let mut child = parent.clone();
            let mut dts = Vec::new();
            let gives_check = child.gives_check(m);
            let dpp = child.do_move_recording(m, gives_check, Some(&mut dts));

            let ksq = [child.king_square(Color::White), child.king_square(Color::Black)];
            let mut adds: [Vec<u32>; 2] = [Vec::new(), Vec::new()];
            let mut subs: [Vec<u32>; 2] = [Vec::new(), Vec::new()];
            for p in Color::ALL {
                let i = p.index();
                threat_delta(&t, &dts, p, ksq[i], &mut adds[i], &mut subs[i]);
                pawn_pair_delta(&dpp, p, ksq[i], &mut adds[i], &mut subs[i]);
            }

            let after = full(&t, &child);
            for p in Color::ALL {
                let i = p.index();
                if ksq[i] != parent.king_square(p) {
                    continue;
                }
                let mut got = counts(&before[i]);
                for (&f, &n) in &counts(&adds[i]) {
                    *got.entry(f).or_insert(0) += n;
                }
                for (&f, &n) in &counts(&subs[i]) {
                    *got.entry(f).or_insert(0) -= n;
                }
                got.retain(|_, n| *n != 0);
                assert_eq!(
                    got,
                    counts(&after[i]),
                    "{fen}: after {m:?}, perspective {p:?}: the delta does not carry the child set"
                );
            }
            checked += 1;
        }
    }
    assert!(checked > 100, "only {checked} moves exercised");
}

#[test]
fn rolling_a_line_forward_reaches_what_a_refresh_reaches() {
    let mut ft = FeatureTransformer::new();
    for (i, w) in ft.weights.iter_mut().enumerate() {
        *w = ((i * 7919) % 61) as i16 - 30;
    }
    for (i, w) in ft.threat_and_pp_weights.iter_mut().enumerate() {
        *w = ((i * 104_729) % 41) as i8 - 20;
    }
    for (i, w) in ft.psqt_weights.iter_mut().enumerate() {
        *w = ((i * 31) % 97) as i32 - 48;
    }
    for (i, w) in ft.threat_and_pp_psqt_weights.iter_mut().enumerate() {
        *w = ((i * 17) % 53) as i32 - 26;
    }

    for pick in 0..7usize {
        let mut pos = Position::from_fen(
            "r3k2r/p1ppqpb1/bn2pnp1/3PN3/1p2P3/2N2Q1p/PPPBBPPP/R3K2R w KQkq - 0 1",
            false,
        )
        .expect("valid fen");
        let mut walk = EvalScratch::default();
        let _ = ft.transform(&pos, 0, 0, &mut walk);

        for ply in 1..12usize {
            let list = generate_legal(&pos);
            if list.is_empty() {
                break;
            }
            let m = list.as_slice()[pick % list.len()];
            let gives_check = pos.gives_check(m);
            let dts = walk.record_threats(ply);
            let dpp = pos.do_move_recording(m, gives_check, Some(dts));
            walk.record(ply, &pos, pos.key(), dpp);

            let rolled = ft.transform(&pos, 0, ply, &mut walk);
            let rolled_out = walk.transformed().to_vec();

            let mut fresh = EvalScratch::default();
            let refreshed = ft.transform(&pos, 0, 0, &mut fresh);
            assert_eq!(rolled, refreshed, "pick {pick}, ply {ply}, after {m:?}: PSQT differs");
            assert_eq!(
                rolled_out,
                fresh.transformed().to_vec(),
                "pick {pick}, ply {ply}, after {m:?}: accumulator differs"
            );
        }
    }
}

#[test]
fn recording_makes_the_move_it_records() {
    let mut plain = Position::from_fen(START_FEN, false).expect("valid fen");
    let mut recorded = plain.clone();
    let m = parse_uci_move(&plain, "e2e4").expect("legal");
    plain.do_move(m);
    let dpp = recorded.do_move_recording(m, false, None);
    assert_eq!(plain.fen(), recorded.fen());
    assert_eq!(plain.key(), recorded.key());
    assert_eq!(dpp.before[0].0, 0xFF00);
    assert_eq!(dpp.after[0].0, 0x1000_EF00);
    assert_eq!(dpp.before[1].0, dpp.after[1].0);
    assert!(!dpp.is_unchanged());
}
