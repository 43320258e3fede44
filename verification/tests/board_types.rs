use rfish_engine::board::types::{Color, Move, MoveType, Piece, PieceType, Rank, Square, SquareOrNone};

#[test]
fn the_sentinel_is_not_a_square() {
    assert!(SquareOrNone::NONE.is_none());
    assert_eq!(SquareOrNone::NONE.square(), None);
    for sq in Square::all() {
        assert_ne!(sq.raw(), SquareOrNone::NONE.raw());
        assert_eq!(sq.some().square(), Some(sq));
    }
}

#[test]
fn square_coordinates_round_trip() {
    for sq in Square::all() {
        assert_eq!(Square::make(sq.file(), sq.rank()), sq);
        assert_eq!(sq.flip_rank().flip_rank(), sq);
        assert_eq!(sq.flip_file().flip_file(), sq);
    }
    assert_eq!(Square::A1.to_string(), "a1");
    assert_eq!(Square::H8.to_string(), "h8");
}

#[test]
fn relative_rank_is_own_side_first() {
    assert_eq!(Square::A1.relative_rank(Color::White), Rank::R1);
    assert_eq!(Square::A1.relative_rank(Color::Black), Rank::R8);
    assert_eq!(Square::A8.relative_rank(Color::Black), Rank::R1);
}

#[test]
fn piece_encoding_packs_colour_above_type() {
    for c in Color::ALL {
        for pt in PieceType::REAL {
            let pc = Piece::new(c, pt);
            assert_eq!(pc.color(), c);
            assert_eq!(pc.piece_type(), pt);
            assert_eq!(Piece::from_char(pc.to_char()), Some(pc));
        }
    }
    assert!(Piece::NONE.is_none());
}

#[test]
fn move_encoding_round_trips() {
    let m = Move::typed(MoveType::Promotion, Square::A8, Square::H8, PieceType::Queen);
    assert_eq!(m.from(), Square::A8);
    assert_eq!(m.to(), Square::H8);
    assert_eq!(m.move_type(), MoveType::Promotion);
    assert_eq!(m.promotion_type(), PieceType::Queen);
    assert!(m.is_ok());
    assert!(!Move::none().is_ok());
    assert!(!Move::null().is_ok());
    assert_eq!(m.to_string(), "a8h8q");
}

#[test]
fn move_from_raw_is_total() {
    for v in 0..=u16::MAX {
        assert_eq!(Move::from_raw(v).raw(), v);
    }
}

#[test]
fn null_and_none_are_the_from_equals_to_encodings() {
    assert_eq!(Move::none().from(), Move::none().to());
    assert_eq!(Move::null().from(), Move::null().to());
}
