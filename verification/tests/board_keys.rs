use rfish_engine::board::cuckoo;
use rfish_engine::board::types::{CastlingRights, Color, File, Move, Piece, PieceType, Rank, Square};
use rfish_engine::board::zobrist::{build, castling, en_passant, next_key, no_pawns, psq, side};

const PIECES: [Piece; 12] = [
    Piece::W_PAWN,
    Piece::W_KNIGHT,
    Piece::W_BISHOP,
    Piece::W_ROOK,
    Piece::W_QUEEN,
    Piece::W_KING,
    Piece::B_PAWN,
    Piece::B_KNIGHT,
    Piece::B_BISHOP,
    Piece::B_ROOK,
    Piece::B_QUEEN,
    Piece::B_KING,
];

#[test]
fn first_and_last_draws_match_upstream() {
    let (_, first) = next_key(1_070_372);
    assert_eq!(psq(Piece::W_PAWN, Square::A1), first);
    assert_ne!(first, 0);
    let again = build();
    assert_eq!(again.side, side());
    assert_eq!(again.no_pawns, no_pawns());
}

#[test]
fn promotion_ranks_are_zeroed_for_pawns() {
    for f in 0..8 {
        assert_eq!(psq(Piece::W_PAWN, Square::make(File::new(f), Rank::new(7))), 0);
        assert_eq!(psq(Piece::B_PAWN, Square::make(File::new(f), Rank::new(0))), 0);
        assert_ne!(psq(Piece::W_PAWN, Square::make(File::new(f), Rank::new(1))), 0);
        assert_ne!(psq(Piece::B_PAWN, Square::make(File::new(f), Rank::new(6))), 0);
    }
}

#[test]
fn encoding_gaps_are_never_drawn_for() {
    let tables = build();
    for gap in [0usize, 7, 8, 15] {
        assert!(tables.psq[gap].iter().all(|&k| k == 0), "piece slot {gap} was drawn for");
    }
}

#[test]
fn every_real_piece_square_key_is_distinct() {
    let tables = build();
    let mut keys = Vec::new();
    for pc in PIECES {
        for sq in Square::all() {
            let k = tables.psq(pc, sq);
            if k != 0 {
                keys.push(k);
            }
        }
    }
    keys.extend((0..8).map(|f| en_passant(File::new(f))));
    keys.extend((0..16).map(|i| castling(CastlingRights::from_raw(i as u8))));
    keys.push(side());
    keys.push(no_pawns());

    let before = keys.len();
    keys.sort_unstable();
    keys.dedup();
    assert_eq!(keys.len(), before, "a Zobrist key is used twice");
}

#[test]
fn castling_index_covers_every_rights_nibble() {
    let tables = build();
    assert_eq!(castling(CastlingRights::none()), tables.castling[0]);
    assert_eq!(castling(CastlingRights::any()), tables.castling[15]);
    let both_white =
        CastlingRights::king_side(Color::White).union(CastlingRights::queen_side(Color::White));
    assert_eq!(both_white, CastlingRights::for_color(Color::White));
}

#[test]
fn piece_rows_are_indexed_by_the_packed_encoding() {
    assert_eq!(Piece::new(Color::Black, PieceType::King), Piece::B_KING);
    assert_ne!(psq(Piece::B_KING, Square::A1), psq(Piece::W_KING, Square::A1));
}

#[test]
fn the_table_holds_every_reversible_move() {
    let t = cuckoo::build(&build());
    let filled = t.mv.iter().filter(|m| !m.is_none()).count();
    assert_eq!(filled, cuckoo::MOVE_COUNT);
    assert!(t.overflow.is_empty());
}

#[test]
fn every_stored_key_is_reachable() {
    let t = cuckoo::build(&build());
    for i in 0..cuckoo::SIZE {
        if t.mv[i].is_none() {
            continue;
        }
        let key = t.key[i];
        assert!(
            cuckoo::h1(key) == i || cuckoo::h2(key) == i,
            "slot {i} is reachable by neither hash"
        );
        assert_eq!(cuckoo::lookup(&t, key), Some(t.mv[i]));
    }
}

#[test]
fn a_known_move_round_trips() {
    let t = cuckoo::build(&build());
    let s1 = Square::make(File::new(1), Rank::new(0));
    let s2 = Square::make(File::new(2), Rank::new(2));
    let key = psq(Piece::W_KNIGHT, s1) ^ psq(Piece::W_KNIGHT, s2) ^ side();
    let m = cuckoo::lookup(&t, key).expect("b1-c3 is a reversible knight move");
    assert_eq!((m.from(), m.to()), (s1, s2));
}

#[test]
fn a_key_that_no_move_produces_is_not_found() {
    let t = cuckoo::build(&build());
    assert_eq!(cuckoo::lookup(&t, side()), None);
    // Slot 0 is free, and a free slot has the zero key.
    assert_eq!(cuckoo::lookup(&t, 0), Some(Move::none()));
}
