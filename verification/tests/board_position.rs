use rfish_engine::board::bitboard::Bitboard;
use rfish_engine::board::fen::FenError;
use rfish_engine::board::legal_moves::{generate_legal, move_to_uci, parse_uci_move};
use rfish_engine::board::position::Position;
use rfish_engine::board::startpos::START_FEN;
use rfish_engine::board::types::{CastlingRights, Color, Move, PieceType, Square, Value};

const KIWIPETE: &str = "r3k2r/p1ppqpb1/bn2pnp1/3PN3/1p2P3/2N2Q1p/PPPBBPPP/R3K2R w KQkq - 0 1";

fn find(pos: &Position, uci: &str) -> Move {
    generate_legal(pos)
        .as_slice()
        .iter()
        .copied()
        .find(|m| m.to_string() == uci)
        .unwrap_or_else(|| panic!("{uci} is legal here"))
}

#[test]
fn flipping_twice_is_the_identity() {
    for fen in [
        START_FEN,
        KIWIPETE,
        "rnbqkbnr/ppp1p1pp/8/3pPp2/8/8/PPPP1PPP/RNBQKBNR w KQkq f6 0 3",
        "8/2p5/3p4/KP5r/1R3p1k/8/4P1P1/8 w - - 0 1",
    ] {
        let original = Position::from_fen(fen, false).expect("valid");
        let mut p = original.clone();
        p.flip().expect("a legal position mirrors to a legal position");
        assert_ne!(p.fen(), original.fen(), "{fen} flipped to itself");
        p.flip().expect("and back");
        assert_eq!(p.fen(), original.fen(), "{fen} did not survive two flips");
    }
}

#[test]
fn a_flip_swaps_the_side_to_move_and_keeps_the_material() {
    let mut p = Position::from_fen(KIWIPETE, false).expect("valid");
    let before = p.side_to_move();
    let pieces = p.piece_total();
    p.flip().expect("valid");
    assert_ne!(p.side_to_move(), before);
    assert_eq!(p.piece_total(), pieces, "a mirror must not create or destroy pieces");
}

#[test]
fn start_position_round_trips_through_fen() {
    let pos = Position::startpos();
    assert_eq!(pos.fen(), START_FEN);
    assert_eq!(pos.piece_total(), 32);
    assert_eq!(pos.count(Color::White, PieceType::Pawn), 8);
    assert_eq!(pos.side_to_move(), Color::White);
    assert!(pos.can_castle(CastlingRights::any()));
    assert!(!pos.in_check());
}

#[test]
fn the_start_position_is_what_its_record_sets_up() {
    let built = Position::startpos();
    let read = Position::from_fen(START_FEN, false).expect("valid");
    assert_eq!(built.key(), read.key());
    assert_eq!(built.fen(), read.fen());
    assert_eq!(Position::default().fen(), START_FEN);
}

#[test]
fn malformed_fens_are_rejected_with_a_reason() {
    assert_eq!(Position::from_fen("", false).unwrap_err(), FenError::Board);
    assert_eq!(
        Position::from_fen("8/8/8/8/8/8/8/8 w - - 0 1", false).unwrap_err(),
        FenError::Kings
    );
    assert_eq!(
        Position::from_fen("4k3/8/8/8/8/8/8/4K2R x KQ - 0 1", false).unwrap_err(),
        FenError::SideToMove
    );
    assert!(Position::from_fen("4k3/8/8/8/8/8/8/4K1R1 b - - 0 1", false).is_ok());
    assert_eq!(
        Position::from_fen("4k1R1/8/8/8/8/8/8/4K3 w - - 0 1", false).unwrap_err(),
        FenError::OppositeCheck
    );
}

#[test]
fn the_remaining_fen_defects_are_named() {
    assert_eq!(
        Position::from_fen("4k3/8/8/8/8/8/8/4K3 w K - 0 1", false).unwrap_err(),
        FenError::Castling
    );
    assert_eq!(
        Position::from_fen("4k3/8/8/8/8/8/8/4K3 w - e9 0 1", false).unwrap_err(),
        FenError::EnPassant
    );
    assert_eq!(FenError::Kings.message(), "each side must have exactly one king");
    let mut pos = Position::startpos();
    assert_eq!(pos.set("9/8/8/8/8/8/8/8 w - - 0 1", false), Err(FenError::Board));
    assert_eq!(pos.piece_total(), 0);
    assert_eq!(pos.set(KIWIPETE, false), Ok(()));
    assert_eq!(pos.fen(), KIWIPETE);
}

#[test]
fn make_unmake_restores_every_field() {
    let fens = [
        START_FEN,
        KIWIPETE,
        "8/2p5/3p4/KP5r/1R3p1k/8/4P1P1/8 w - - 0 1",
        "r3k2r/Pppp1ppp/1b3nbN/nP6/BBP1P3/q4N2/Pp1P2PP/R2Q1RK1 w kq - 0 1",
    ];
    for fen in fens {
        let pos = Position::from_fen(fen, false).expect("test FEN is valid");
        for &m in generate_legal(&pos).as_slice() {
            let mut child = pos.clone();
            child.do_move(m);
            assert!(child.state_is_consistent(), "{fen} after {m:?}");
            child.undo_move(m);
            assert_eq!(child.fen(), pos.fen(), "{fen} after {m:?}");
            assert_eq!(child.key(), pos.key(), "{fen} after {m:?}");
        }
    }
}

#[test]
fn null_move_is_its_own_inverse() {
    let mut pos = Position::startpos();
    let before = pos.fen();
    let key = pos.key();
    pos.do_null_move();
    assert_ne!(pos.key(), key);
    assert_eq!(pos.side_to_move(), Color::Black);
    pos.undo_null_move();
    assert_eq!(pos.fen(), before);
    assert_eq!(pos.key(), key);
}

#[test]
fn incremental_key_matches_recomputation_over_a_line() {
    let mut pos = Position::startpos();
    for uci in ["e2e4", "e7e5", "g1f3", "b8c6", "f1b5", "a7a6"] {
        let m = find(&pos, uci);
        pos.do_move(m);
        assert!(pos.state_is_consistent(), "after {uci}");
    }
}

#[test]
fn en_passant_square_is_only_set_when_the_capture_exists() {
    let mut pos = Position::startpos();
    let m = find(&pos, "e2e4");
    pos.do_move(m);
    assert!(pos.ep_square().is_none());
    assert!(pos.fen().contains(" - 0 1"));
}

#[test]
fn castling_rights_die_when_a_rook_is_captured() {
    let pos = Position::from_fen("r3k2r/8/8/8/8/8/8/R3K2R w KQkq - 0 1", false).expect("valid");
    let m = find(&pos, "a1a8");
    let mut child = pos.clone();
    child.do_move(m);
    assert!(!child.can_castle(CastlingRights::queen_side(Color::Black)));
    assert!(child.can_castle(CastlingRights::king_side(Color::Black)));
    assert!(!child.can_castle(CastlingRights::queen_side(Color::White)));
    assert!(child.state_is_consistent());
}

#[test]
fn see_ranks_an_exchange_by_material() {
    let pos = Position::from_fen("4k3/8/8/3q4/4P3/8/8/4K3 w - - 0 1", false).expect("valid");
    let m = find(&pos, "e4d5");
    assert!(pos.see_ge(m, Value(0)));
    assert!(pos.see_ge(m, Value(2537)));
    assert!(!pos.see_ge(m, Value(2539)));
}

#[test]
fn repetition_is_detected_and_signed() {
    let mut pos = Position::startpos();
    for uci in ["g1f3", "g8f6", "f3g1", "f6g8", "g1f3", "g8f6", "f3g1", "f6g8"] {
        let m = find(&pos, uci);
        pos.do_move(m);
    }
    assert!(pos.has_repeated());
    assert!(pos.st().repetition != 0);
}

#[test]
fn records_read_back() {
    for fen in [
        "r3k2r/p1ppqpb1/bn2pnp1/3PN3/1p2P3/2N2Q1p/PPPBBPPP/R3K2R w KQkq - 0 1",
        "rnbqkbnr/ppp1p1pp/8/3pPp2/8/8/PPPP1PPP/RNBQKBNR w KQkq f6 0 3",
        "8/2p5/3p4/KP5r/1R3p1k/8/4P1P1/8 b - - 17 42",
        "4k3/8/8/8/8/8/8/4K2R w K - 99 120",
    ] {
        let pos = Position::from_fen(fen, false).expect("valid");
        assert_eq!(pos.fen(), fen);
        let again = Position::from_fen(&pos.fen(), false).expect("valid");
        assert_eq!(again.key(), pos.key());
    }
    let shuffled = "1rk2r2/8/8/8/8/8/8/1RK2R2 w FBfb - 0 1";
    let pos = Position::from_fen(shuffled, true).expect("valid");
    assert_eq!(pos.fen(), shuffled);
}

#[test]
fn a_position_is_shown_as_a_diagram() {
    let pos = Position::from_fen(START_FEN, false).expect("valid");
    let shown = pos.to_string();
    let lines: Vec<&str> = shown.lines().collect();
    assert_eq!(lines[0], "");
    assert_eq!(lines[1], " +---+---+---+---+---+---+---+---+");
    assert_eq!(lines[2], " | r | n | b | q | k | b | n | r | 8");
    assert_eq!(lines[6], " |   |   |   |   |   |   |   |   | 6");
    assert_eq!(lines[16], " | R | N | B | Q | K | B | N | R | 1");
    assert_eq!(lines[18], "   a   b   c   d   e   f   g   h");
    assert_eq!(lines[20], format!("Fen: {START_FEN}"));
    assert_eq!(lines[21], format!("Key: {:016X}", pos.key()));
    assert_eq!(lines.len(), 22);
}

#[test]
fn a_flipped_position_is_the_mirror_image() {
    let mut pos = Position::from_fen(KIWIPETE, false).expect("valid");
    pos.flip().expect("legal");
    assert_eq!(
        pos.fen(),
        "r3k2r/pppbbppp/2n2q1P/1P2p3/3pn3/BN2PNP1/P1PPQPB1/R3K2R b KQkq - 0 1"
    );
}

fn play(pos: &mut Position, line: &[&str]) {
    for uci in line {
        let m = parse_uci_move(pos, uci).expect("legal");
        pos.do_move(m);
    }
}

#[test]
fn a_repetition_one_move_away_is_seen() {
    let mut pos = Position::startpos();
    assert!(!pos.has_repeated());
    play(&mut pos, &["g1f3", "g8f6"]);
    assert!(!pos.has_repeated());
    play(&mut pos, &["f3g1"]);
    assert!(pos.has_repeated(), "f6g8 returns to the start");
    assert!(!pos.repeated_since_reset(), "nothing has occurred twice yet");
    play(&mut pos, &["f6g8"]);
    assert!(pos.repeated_since_reset());
    play(&mut pos, &["e2e4"]);
    assert!(!pos.has_repeated());
    assert!(!pos.repeated_since_reset());
}

#[test]
fn a_king_takes_only_what_is_left_alone() {
    let fen = "8/8/4k3/3p4/8/8/3R4/3RK3 w - - 0 1";
    let pos = Position::from_fen(fen, false).expect("valid");
    let m = parse_uci_move(&pos, "d2d5").expect("legal");
    assert!(pos.see_ge(m, Value(0)));
    // Without the second rook the king takes back.
    let pos = Position::from_fen("8/8/4k3/3p4/8/8/3R4/4K3 w - - 0 1", false).expect("valid");
    let m = parse_uci_move(&pos, "d2d5").expect("legal");
    assert!(!pos.see_ge(m, Value(0)));
    // What wins a threshold wins every lower one.
    let mut won = true;
    for t in -2000..2000 {
        let now = pos.see_ge(m, Value(t));
        assert!(won || !now, "threshold {t}");
        won = now;
    }
    // A castling move counts as even, however low the threshold.
    let pos = Position::from_fen("4k3/8/8/8/8/8/8/4K2R w K - 0 1", false).expect("valid");
    let m = parse_uci_move(&pos, "e1g1").expect("legal");
    assert!(pos.see_ge(m, Value(i32::MIN)));
    assert!(!pos.see_ge(m, Value(1)));
}

#[test]
fn setting_up_leaves_nothing_of_the_past() {
    let mut used = Position::from_fen(KIWIPETE, false).expect("valid");
    play(&mut used, &["e1g1", "e8c8"]);
    let fen = "4k3/8/8/8/8/8/4P3/4K2R w K - 3 20";
    used.set(fen, false).expect("valid");
    let fresh = Position::from_fen(fen, false).expect("valid");
    assert_eq!(format!("{used:?}"), format!("{fresh:?}"));
    assert_eq!(used.states.len(), 1);
}

#[test]
fn positions_of_a_game_read_back() {
    let mut pos = Position::startpos();
    for uci in ["e2e4", "c7c5", "g1f3", "d7d5", "e4d5", "e8d7", "f1c4", "b7b5", "e1g1"] {
        let m = parse_uci_move(&pos, uci).expect("legal");
        assert_eq!(move_to_uci(&pos, m), uci);
        pos.do_move(m);
        assert!(pos.state_is_consistent());
        assert!(pos.is_regular());
        let back = Position::from_fen(&pos.fen(), false).expect("valid");
        assert_eq!(back.fen(), pos.fen());
        assert_eq!(back.key(), pos.key());
    }
}

#[test]
fn blockers_are_own_pieces_only() {
    // A black knight shields the white king from a black rook: it is no piece of White's.
    let pos = Position::from_fen("k3r3/8/8/8/4n3/8/8/4K3 w - - 0 1", false).expect("valid");
    assert_eq!(pos.blockers_for_king(Color::White), Bitboard(0));
    let (screens, _) = pos.slider_blockers(Color::Black, Square::E1);
    assert!(screens.contains(Square::E4));
    // A white knight on the same square is pinned.
    let pos = Position::from_fen("k3r3/8/8/8/4N3/8/8/4K3 w - - 0 1", false).expect("valid");
    assert_eq!(pos.blockers_for_king(Color::White), Bitboard::from_square(Square::E4));
    assert_eq!(pos.blockers_for_king(Color::Black), Bitboard(0));
    // A check that an enemy blocker uncovers is still foretold.
    let pos = Position::from_fen("k3r3/8/8/8/4n3/8/8/4K3 b - - 0 1", false).expect("valid");
    assert!(pos.gives_check(find(&pos, "e4c5")));
    assert!(!pos.gives_check(find(&pos, "e8d8")));
}

#[test]
fn a_repetition_of_the_root_counts_once() {
    let mut pos = Position::startpos();
    for uci in ["g1f3", "g8f6", "f3g1", "f6g8"] {
        let m = find(&pos, uci);
        pos.do_move(m);
    }
    assert_eq!(pos.st().repetition, 4);
    // The position four plies back is the root of a search at ply four, and history at ply three.
    assert!(pos.is_draw(5));
    assert!(pos.is_draw(4));
    assert!(pos.is_repetition(4));
    assert!(!pos.is_draw(3));
    for uci in ["g1f3", "g8f6", "f3g1", "f6g8"] {
        let m = find(&pos, uci);
        pos.do_move(m);
    }
    // The third occurrence draws wherever the root is.
    assert_eq!(pos.st().repetition, -4);
    assert!(pos.is_draw(0));
}
