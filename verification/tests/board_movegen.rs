use rfish_engine::board::legal_moves::{
    generate_legal, has_legal_move, move_to_uci, parse_uci_move,
};
use rfish_engine::board::movegen::{generate, generate_into, GenType, MoveList, MoveSink};
use rfish_engine::board::perft::{perft, perft_divide};
use rfish_engine::board::position::Position;
use rfish_engine::board::startpos::START_FEN;
use rfish_engine::board::types::{Color, Move, MoveType};

const KIWIPETE: &str = "r3k2r/p1ppqpb1/bn2pnp1/3PN3/1p2P3/2N2Q1p/PPPBBPPP/R3K2R w KQkq - 0 1";

#[test]
fn perft_matches_the_reference_positions() {
    let cases: &[(&str, &[u64])] = &[
        (START_FEN, &[20, 400, 8902, 197_281, 4_865_609]),
        (KIWIPETE, &[48, 2039, 97_862, 4_085_603]),
        ("8/2p5/3p4/KP5r/1R3p1k/8/4P1P1/8 w - - 0 1", &[14, 191, 2812, 43_238, 674_624]),
        (
            "r3k2r/Pppp1ppp/1b3nbN/nP6/BBP1P3/q4N2/Pp1P2PP/R2Q1RK1 w kq - 0 1",
            &[6, 264, 9467, 422_333],
        ),
        (
            "rnbq1k1r/pp1Pbppp/2p5/8/2B5/8/PPP1NnPP/RNBQK2R w KQ - 1 8",
            &[44, 1486, 62_379, 2_103_487],
        ),
        (
            "r4rk1/1pp1qppp/p1np1n2/2b1p1B1/2B1P1b1/P1NP1N2/1PP1QPPP/R4RK1 w - - 0 10",
            &[46, 2079, 89_890, 3_894_594],
        ),
    ];

    for (fen, expected) in cases {
        let mut pos = Position::from_fen(fen, false).expect("reference FEN is valid");
        assert!(pos.is_regular(), "{fen}");
        for (i, &want) in expected.iter().enumerate() {
            let depth = i as u32 + 1;
            let got = perft(&mut pos, depth);
            assert_eq!(got, want, "{fen} at depth {depth}");
        }
    }
}

#[test]
fn perft_matches_the_chess960_positions() {
    let cases: &[(&str, &[u64])] = &[
        (
            "bqnb1rkr/pp3ppp/3ppn2/2p5/5P2/P2P4/NPP1P1PP/BQ1BNRKR w HFhf - 2 9",
            &[21, 528, 12_189, 326_672],
        ),
        (
            "2nnrbkr/p1qppppp/8/1ppb4/6PP/3PP3/PPP2P2/BQNNRBKR w HEhe - 1 9",
            &[21, 807, 18_002, 667_366],
        ),
        (
            "b1q1rrkb/pppppppp/3nn3/8/P7/1PPP4/4PPPP/BQNNRKRB w GE - 1 9",
            &[20, 479, 10_471, 273_318],
        ),
    ];
    for (fen, expected) in cases {
        let mut pos = Position::from_fen(fen, true).expect("reference FEN is valid");
        assert!(pos.is_regular(), "{fen}");
        for (i, &want) in expected.iter().enumerate() {
            let depth = i as u32 + 1;
            assert_eq!(perft(&mut pos, depth), want, "{fen} at depth {depth}");
        }
    }
}

#[test]
fn a_divided_count_lists_every_move_and_adds_up() {
    let mut pos = Position::startpos();
    let (moves, total) = perft_divide(&mut pos, 3);
    assert_eq!(total, 8902);
    assert_eq!(moves.len(), 20);
    assert_eq!(moves.iter().map(|m| m.1).sum::<u64>(), total);
    let (singles, count) = perft_divide(&mut pos, 0);
    assert_eq!(count, 20);
    assert!(singles.iter().all(|m| m.1 == 1));
    assert_eq!(pos.fen(), START_FEN);
    // Each row is the count from the position its move leads to.
    let (rows, total) = perft_divide(&mut pos, 3);
    assert_eq!(total, perft(&mut pos, 3));
    for (row, m) in rows.iter().zip(generate_legal(&pos).as_slice()) {
        assert_eq!(row.0, *m);
        let mut next = pos.clone();
        next.do_move(*m);
        assert_eq!(row.1, perft(&mut next, 2));
    }
}

#[test]
fn a_position_that_play_cannot_reach_is_not_regular() {
    // In standard chess a castling rook begins in the corner.
    let pos = Position::from_fen("4k3/8/8/8/8/8/8/4K1R1 w K - 0 1", false).expect("valid");
    assert!(!pos.is_regular());
    assert!(Position::startpos().is_regular());
    // A target whose pawn cannot have come from its first square does no harm.
    let pos = Position::from_fen("4k3/3q4/8/3pP3/8/8/8/4K3 w - d6 0 1", false).expect("valid");
    assert!(pos.is_regular());
}

#[test]
fn generators_partition_the_move_set() {
    let fens = [
        START_FEN,
        KIWIPETE,
        "8/2p5/3p4/KP5r/1R3p1k/8/4P1P1/8 w - - 0 1",
        "rnbq1k1r/pp1Pbppp/2p5/8/2B5/8/PPP1NnPP/RNBQK2R w KQ - 1 8",
    ];
    for fen in fens {
        let pos = Position::from_fen(fen, false).expect("valid");
        if pos.in_check() {
            continue;
        }
        let mut all: Vec<Move> = generate(&pos, GenType::NonEvasions).as_slice().to_vec();
        let mut split: Vec<Move> = generate(&pos, GenType::Captures).as_slice().to_vec();
        split.extend(generate(&pos, GenType::Quiets).as_slice().iter().copied());
        all.sort_unstable();
        split.sort_unstable();
        assert_eq!(all, split, "{fen}: captures + quiets must partition the move set");
    }
}

#[test]
fn evasions_answer_every_check_and_nothing_else() {
    let pos = Position::from_fen("4k3/8/8/8/8/8/4r3/4K3 w - - 0 1", false).expect("valid");
    assert!(pos.in_check());
    let legal = generate_legal(&pos);
    assert!(!legal.is_empty());
    for &m in legal.as_slice() {
        let mut child = pos.clone();
        child.do_move(m);
        let ksq = child.king_square(Color::White);
        assert!((child.attackers_to(ksq) & child.colored(Color::Black)).is_empty());
    }
}

#[test]
fn checkmate_and_stalemate_have_no_legal_moves() {
    let mate = Position::from_fen(
        "rnb1kbnr/pppp1ppp/8/4p3/6Pq/5P2/PPPPP2P/RNBQKBNR w KQkq - 1 3",
        false,
    )
    .expect("valid");
    assert!(mate.in_check());
    assert!(!has_legal_move(&mate));

    let stale = Position::from_fen("7k/5Q2/6K1/8/8/8/8/8 b - - 0 1", false).expect("valid");
    assert!(!stale.in_check());
    assert!(!has_legal_move(&stale));
}

#[test]
fn en_passant_is_generated_and_legal_only_when_it_is() {
    let pos = Position::from_fen("4k3/8/8/3pP3/8/8/8/4K3 w - d6 0 1", false).expect("valid");
    assert_eq!(pos.ep_square().to_string(), "d6");
    assert!(generate_legal(&pos)
        .as_slice()
        .iter()
        .any(|m| m.move_type() == MoveType::EnPassant));

    let pinned = Position::from_fen("8/8/8/K2pP2r/8/8/8/7k w - d6 0 1", false).expect("valid");
    assert!(!generate_legal(&pinned)
        .as_slice()
        .iter()
        .any(|m| m.move_type() == MoveType::EnPassant));
}

#[test]
fn uci_move_notation_round_trips() {
    let pos = Position::from_fen("r3k2r/8/8/8/8/8/8/R3K2R w KQkq - 0 1", false).expect("valid");
    for &m in generate_legal(&pos).as_slice() {
        let text = move_to_uci(&pos, m);
        assert_eq!(parse_uci_move(&pos, &text), Some(m), "{text}");
    }
    assert!(generate_legal(&pos).as_slice().iter().any(|&m| move_to_uci(&pos, m) == "e1g1"));
    assert_eq!(parse_uci_move(&pos, "e1e5"), None);
    assert_eq!(move_to_uci(&pos, Move::none()), "(none)");
    assert_eq!(move_to_uci(&pos, Move::null()), "0000");
}

#[test]
fn move_list_retains_in_order_and_bounds_its_capacity() {
    let mut list = MoveList::new();
    for i in 1..10u16 {
        list.push_move(Move::from_raw(i));
    }
    list.retain(|m| m.raw() % 2 == 0);
    assert_eq!(
        list.as_slice().iter().copied().map(Move::raw).collect::<Vec<_>>(),
        vec![2, 4, 6, 8]
    );
}

#[test]
fn pseudo_legality_holds_of_every_generated_move() {
    let pos = Position::from_fen(KIWIPETE, false).expect("valid");
    let mut list = MoveList::new();
    generate_into(&pos, GenType::NonEvasions, &mut list);
    for &m in list.as_slice() {
        assert!(pos.pseudo_legal(m), "{}", m.to_string());
    }
    assert!(!pos.pseudo_legal(Move::none()));
}

fn texts(pos: &Position, gt: GenType) -> Vec<String> {
    let mut all: Vec<String> =
        generate(pos, gt).as_slice().iter().map(|&m| move_to_uci(pos, m)).collect();
    all.sort();
    all
}

#[test]
fn every_kind_answers_a_check() {
    let pos = Position::from_fen("4k3/8/8/8/8/8/P3r3/4K3 w - - 0 1", false).expect("valid");
    assert_eq!(texts(&pos, GenType::Quiets), ["e1d1", "e1d2", "e1f1", "e1f2"]);
    assert_eq!(texts(&pos, GenType::Captures), ["e1e2"]);
    assert_eq!(texts(&pos, GenType::NonEvasions), texts(&pos, GenType::Evasions));
    // A promotion that blocks a check is a capture when it makes a queen.
    let pos = Position::from_fen("K6r/3P4/8/8/8/8/8/4k3 w - - 0 1", false).expect("valid");
    assert_eq!(texts(&pos, GenType::Captures), ["d7d8q"]);
    assert_eq!(
        texts(&pos, GenType::Quiets),
        ["a8a7", "a8b7", "a8b8", "d7d8b", "d7d8n", "d7d8r"]
    );
    // In double check only the king moves, to the squares that the kind asks for.
    let pos = Position::from_fen("4k3/8/8/8/8/3n4/4r3/4K3 w - - 0 1", false).expect("valid");
    assert_eq!(texts(&pos, GenType::Captures), ["e1e2"]);
    assert_eq!(texts(&pos, GenType::Quiets), ["e1d1", "e1d2", "e1f1", "e1f2"]);
}

#[test]
fn a_plain_move_carries_no_promotion_piece() {
    let pos = Position::startpos();
    assert!(pos.pseudo_legal(Move::from_raw(796)));
    assert!(!pos.pseudo_legal(Move::from_raw(4892)));
}

#[test]
fn an_en_passant_capture_that_leaves_a_check_is_not_legal() {
    let pos = Position::from_fen("4k3/8/8/3pP3/8/3n4/8/4K3 w - d6 0 1", false).expect("valid");
    let taken = generate(&pos, GenType::Evasions)
        .as_slice()
        .iter()
        .copied()
        .find(|m| m.move_type() == MoveType::EnPassant)
        .expect("generated");
    assert!(!pos.legal(taken));
    assert!(!generate_legal(&pos).contains(taken));
    // Taking the pawn that gives check is legal.
    let pos = Position::from_fen("4k3/8/8/3pP3/4K3/8/8/8 w - d6 0 1", false).expect("valid");
    assert!(parse_uci_move(&pos, "e5d6").is_some());
}

const VARIED: [&str; 8] = [
    START_FEN,
    KIWIPETE,
    "8/2p5/3p4/KP5r/1R3p1k/8/4P1P1/8 w - - 0 1",
    "r3k2r/Pppp1ppp/1b3nbN/nP6/BBP1P3/q4N2/Pp1P2PP/R2Q1RK1 w kq - 0 1",
    "rnbq1k1r/pp1Pbppp/2p5/8/2B5/8/PPP1NnPP/RNBQK2R w KQ - 1 8",
    "4k3/8/8/3pP3/8/3n4/8/4K3 w - d6 0 1",
    "K6r/3P4/8/8/8/8/8/4k3 w - - 0 1",
    "4k3/8/8/8/8/3n4/4r3/4K3 w - - 0 1",
];

#[test]
fn no_move_is_generated_twice() {
    for fen in VARIED {
        let pos = Position::from_fen(fen, false).expect("valid");
        for gt in [GenType::Captures, GenType::Quiets, GenType::NonEvasions, GenType::Evasions] {
            let mut found = texts(&pos, gt);
            let all = found.len();
            found.dedup();
            assert_eq!(found.len(), all, "{fen}");
        }
        let legal = generate_legal(&pos);
        let moves = legal.as_slice();
        for (i, m) in moves.iter().enumerate() {
            assert!(!moves[i + 1..].contains(m), "{fen}");
        }
    }
}

#[test]
fn captures_and_quiets_are_all_there_is_in_check_too() {
    for fen in VARIED {
        let pos = Position::from_fen(fen, false).expect("valid");
        let all = if pos.in_check() { GenType::Evasions } else { GenType::NonEvasions };
        let mut parts = texts(&pos, GenType::Captures);
        parts.extend(texts(&pos, GenType::Quiets));
        parts.sort();
        assert_eq!(parts, texts(&pos, all), "{fen}");
    }
}

#[test]
fn legal_moves_are_the_ones_that_leave_the_king_safe() {
    for fen in VARIED {
        let pos = Position::from_fen(fen, false).expect("valid");
        let us = pos.side_to_move();
        let all = if pos.in_check() { GenType::Evasions } else { GenType::NonEvasions };
        let legal = generate_legal(&pos);
        for m in generate(&pos, all).as_slice().iter().copied() {
            if m.move_type() == MoveType::Castling {
                continue;
            }
            let mut next = pos.clone();
            next.do_move(m);
            let attacked = next.attacked_by(next.occupied(), us.flip(), next.king_square(us));
            assert_eq!(legal.contains(m), !attacked, "{fen}");
        }
    }
}

#[test]
fn a_check_is_foretold_exactly_when_it_comes() {
    let mut checks = 0;
    for fen in VARIED {
        let pos = Position::from_fen(fen, false).expect("valid");
        for m in generate_legal(&pos).as_slice().iter().copied() {
            let mut next = pos.clone();
            next.do_move(m);
            let them = next.side_to_move();
            let attacked =
                next.attacked_by(next.occupied(), them.flip(), next.king_square(them));
            assert_eq!(pos.gives_check(m), attacked, "{fen}");
            assert_eq!(next.in_check(), attacked, "{fen}");
            checks += usize::from(attacked);
        }
    }
    assert!(checks > 0);
}
