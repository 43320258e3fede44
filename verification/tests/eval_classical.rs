use rfish_engine::board::position::Position;
use rfish_engine::board::startpos::START_FEN;
use rfish_engine::board::types::{
    Color, File, Rank, Square, Value, BISHOP_VALUE, KNIGHT_VALUE, PAWN_VALUE, ROOK_VALUE,
};
use rfish_engine::eval::classical::{evaluate, front_span};
use rfish_engine::eval::nnue::transformer::EvalScratch;
use rfish_engine::eval::{blend, damp, draw_value, is_material_draw, material_only};

fn score(fen: &str) -> i32 {
    let pos = Position::from_fen(fen, false).expect("valid");
    evaluate(&pos).0
}

fn at(file: usize, rank: usize) -> Square {
    Square::make(File::new(file), Rank::new(rank))
}

#[test]
fn the_start_position_is_symmetric_up_to_the_tempo_bonus() {
    assert_eq!(score(START_FEN), 15);
    assert_eq!(score("rnbqkbnr/pppppppp/8/8/8/8/PPPPPPPP/RNBQKBNR b KQkq - 0 1"), 15);
}

#[test]
fn material_dominates_everything_else() {
    assert!(score("4k3/8/8/8/8/8/8/R3K3 w - - 0 1") > ROOK_VALUE - 200);
}

#[test]
fn a_passed_pawn_beats_a_blocked_one() {
    let passed = score("4k3/8/8/4P3/8/8/8/4K3 w - - 0 1");
    let blocked = score("4k3/3ppp2/8/4P3/8/8/8/4K3 w - - 0 1");
    assert!(passed > 0);
    assert!(passed - PAWN_VALUE > blocked - 3 * PAWN_VALUE);
}

#[test]
fn doubled_pawns_are_worse_than_spread_ones() {
    let doubled = score("4k3/8/8/8/4P3/4P3/8/4K3 w - - 0 1");
    let spread = score("4k3/8/8/8/3P4/4P3/8/4K3 w - - 0 1");
    assert!(spread > doubled);
}

#[test]
fn the_bishop_pair_is_worth_more_than_two_bishops_apart() {
    let pair = score("4k3/8/8/8/8/8/8/2B1KB2 w - - 0 1");
    let split = score("4k3/8/8/8/8/8/8/2B1KN2 w - - 0 1");
    assert!(pair - 2 * BISHOP_VALUE > split - BISHOP_VALUE - KNIGHT_VALUE);
}

#[test]
fn the_king_prefers_the_centre_only_in_the_endgame() {
    let centre = score("8/8/8/3K4/8/8/8/7k w - - 0 1");
    let corner = score("8/8/8/8/8/8/8/K6k w - - 0 1");
    assert!(centre > corner);
}

#[test]
fn front_span_covers_three_files_ahead() {
    let span = front_span(Color::White, at(3, 1));
    assert!(span.contains(at(3, 4)));
    assert!(span.contains(at(2, 4)));
    assert!(span.contains(at(4, 4)));
    assert!(!span.contains(at(1, 4)));
    assert!(!span.contains(at(3, 0)));
}

#[test]
fn the_front_span_of_black_looks_down() {
    let span = front_span(Color::Black, at(0, 6));
    assert!(span.contains(at(0, 5)));
    assert!(span.contains(at(1, 1)));
    assert!(!span.contains(at(0, 7)));
    assert!(!span.contains(at(2, 5)));
    assert_eq!(span.count(), 12);
}

fn eval_classical(pos: &Position) -> Value {
    let mut scratch = EvalScratch::default();
    rfish_engine::eval::evaluate(pos, None, &mut scratch, Value(0))
}

fn eval_fen(fen: &str) -> i32 {
    eval_classical(&Position::from_fen(fen, false).expect("valid")).0
}

#[test]
fn the_start_position_is_close_to_equal() {
    let v = eval_fen(START_FEN);
    assert!(v.abs() < 100, "start position scored {v}");
}

#[test]
fn evaluation_is_antisymmetric_under_a_colour_flip() {
    let pairs = [
        ("4k3/8/8/8/8/8/4P3/4K3 w - - 0 1", "4k3/4p3/8/8/8/8/8/4K3 b - - 0 1"),
        ("r3k3/8/8/8/8/8/8/4K3 w - - 0 1", "4k3/8/8/8/8/8/8/R3K3 b - - 0 1"),
    ];
    for (a, b) in pairs {
        assert_eq!(eval_fen(a), eval_fen(b), "{a} vs {b}");
    }
}

#[test]
fn an_extra_queen_is_worth_more_than_an_extra_pawn() {
    let pawn = eval_fen("4k3/8/8/8/8/8/4P3/4K3 w - - 0 1");
    let queen = eval_fen("4k3/8/8/8/8/8/3Q4/4K3 w - - 0 1");
    assert!(queen > pawn);
    assert!(pawn > 0);
}

#[test]
fn insufficient_material_is_recognised() {
    for fen in [
        "4k3/8/8/8/8/8/8/4K3 w - - 0 1",
        "4k3/8/8/8/8/8/8/4KB2 w - - 0 1",
        "4k3/8/8/8/8/8/8/4KN2 w - - 0 1",
    ] {
        let pos = Position::from_fen(fen, false).expect("valid");
        assert!(is_material_draw(&pos), "{fen}");
    }
    for fen in ["4k3/8/8/8/8/8/4P3/4K3 w - - 0 1", "4k3/8/8/8/8/8/8/4KR2 w - - 0 1"] {
        let pos = Position::from_fen(fen, false).expect("valid");
        assert!(!is_material_draw(&pos), "{fen}");
    }
}

#[test]
fn the_rule50_damping_shrinks_an_advantage() {
    let fresh = eval_fen("4k3/8/8/8/8/8/3Q4/4K3 w - - 0 1");
    let stale = eval_fen("4k3/8/8/8/8/8/3Q4/4K3 w - - 90 60");
    assert!(stale < fresh);
}

#[test]
fn damping_takes_a_share_for_every_half_move() {
    assert_eq!(damp(Value(0), 50).0, 0);
    assert_eq!(damp(Value(1000), 0).0, 1000);
    assert!(damp(Value(1000), 40).0 < 1000);
    assert!(damp(Value(-1000), 40).0 > -1000);
    assert_eq!(damp(Value(1000), 40).0, -damp(Value(-1000), 40).0);
    assert_eq!(draw_value().0, 0);
}

#[test]
fn two_bishops_of_one_colour_cannot_win() {
    let same = Position::from_fen("4kb2/8/8/8/8/8/8/2B1K3 w - - 0 1", false).expect("valid");
    let other = Position::from_fen("2b1k3/8/8/8/8/8/8/2B1K3 w - - 0 1", false).expect("valid");
    assert!(is_material_draw(&same));
    assert!(!is_material_draw(&other));
}

#[test]
fn blending_nothing_gives_nothing() {
    assert_eq!(blend(Value(0), Value(0), Value(0), 0).0, 0);
    let low = blend(Value(100), Value(100), Value(0), 1000).0;
    let high = blend(Value(100), Value(100), Value(0), 20000).0;
    assert!(high > low);
    assert!(low > 0);
}

#[test]
fn two_bishops_of_one_colour_are_a_dead_draw() {
    for fen in ["4k3/8/8/8/8/8/8/B1B1K3 w - - 0 1", "4kb2/8/8/8/8/8/8/2B1K3 w - - 0 1"] {
        assert!(is_material_draw(&Position::from_fen(fen, false).expect("valid")), "{fen}");
    }
    let fen = "2b1k3/8/8/8/8/8/8/2B1K3 w - - 0 1";
    assert!(!is_material_draw(&Position::from_fen(fen, false).expect("valid")));
}

#[test]
fn material_alone_counts_round_values() {
    let start = Position::from_fen(START_FEN, false).expect("valid");
    assert_eq!(material_only(&start).0, 0);
    let fen = "4k3/p7/8/8/8/8/1P4N1/RB2K2Q w - - 99 80";
    let ahead = Position::from_fen(fen, false).expect("valid");
    assert_eq!(material_only(&ahead).0, 320 + 330 + 500 + 900);
    let behind = Position::from_fen(&fen.replace(" w ", " b "), false).expect("valid");
    assert_eq!(material_only(&behind).0, -2050);
    let pawns = Position::from_fen("4k3/pp6/8/8/8/8/P7/4K3 w - - 0 1", false).expect("valid");
    assert_eq!(material_only(&pawns).0, -100);
}

#[test]
fn a_flip_leaves_the_score_of_the_side_to_move() {
    for fen in [
        START_FEN,
        "r3k2r/p1ppqpb1/bn2pnp1/3PN3/1p2P3/2N2Q1p/PPPBBPPP/R3K2R w KQkq - 0 1",
        "4k3/8/8/3pP3/8/8/8/4K3 w - d6 7 9",
    ] {
        let pos = Position::from_fen(fen, false).expect("valid");
        let mut flipped = pos.clone();
        assert!(flipped.flip().is_ok());
        assert_ne!(flipped.fen(), pos.fen());
        assert_eq!(evaluate(&flipped), evaluate(&pos), "{fen}");
    }
    // The right is written by the rook's file, which names no rook on the king's rank.
    let pos = Position::from_fen("4k3/8/8/8/4K3/8/8/R7 w Q - 0 1", true).expect("valid");
    let mut kept = pos.clone();
    assert!(kept.flip().is_err());
    assert_eq!(kept.fen(), pos.fen());
    assert_eq!(evaluate(&kept), evaluate(&pos));
}
