//! Setting up a position leaves nothing of what was there before.

use vstd::prelude::*;
use crate::board::bitboard::Bitboard;
use crate::board::bits;
use crate::board::fen;
use crate::board::fen::{Rights, Setup};
use crate::board::placement;
use crate::board::position::Position;
use crate::board::position;
use crate::board::state::StateInfo;
use crate::board::types::{CastlingRights, Color, Piece, PieceType, SquareOrNone};

verus! {

/// A rook is recorded for the rights that are held, and for no others.
pub open spec fn rooks_of_rights(x: Rights) -> bool {
    &&& x.rook_square.len() == 16
    &&& forall|n: int|
        0 <= n < 16 && #[trigger] x.rook_square[n] != SquareOrNone::NONE ==> exists|
            c: Color,
            ks: bool,
        |
            x.rights.has(#[trigger] CastlingRights::wing(c, ks)) && CastlingRights::wing(
                c,
                ks,
            ).nibble() == n
}

/// Every letter of the castling field records a rook and the right that goes with it.
proof fn lemma_scan(t: Seq<u8>, i: int, b: Seq<Piece>, x: Rights)
    requires
        rooks_of_rights(x),
        fen::scan_castling(t, i, b, x) is Some,
    ensures
        rooks_of_rights(fen::scan_castling(t, i, b, x)->0),
    decreases t.len() - i,
{
    if i < t.len() {
        let us = fen::letter_color(t[i]);
        let r = fen::named_rook(b, t[i]);
        let y = fen::record(x, b, us, r);
        let cr = CastlingRights::wing(us, r > placement::king(b, us));
        assert forall|n: int|
            0 <= n < 16 && #[trigger] y.rook_square[n] != SquareOrNone::NONE implies exists|
            c: Color,
            ks: bool,
        |
            y.rights.has(#[trigger] CastlingRights::wing(c, ks)) && CastlingRights::wing(
                c,
                ks,
            ).nibble() == n by {
            if n == cr.nibble() {
                assert(y.rights.has(CastlingRights::wing(us, r > placement::king(b, us))));
            } else {
                assert(x.rook_square[n] != SquareOrNone::NONE);
                let (c, ks) = choose|c: Color, ks: bool|
                    x.rights.has(#[trigger] CastlingRights::wing(c, ks)) && CastlingRights::wing(
                        c,
                        ks,
                    ).nibble() == n;
                assert(y.rights.has(CastlingRights::wing(c, ks)));
            }
        }
        lemma_scan(t, i + 1, b, y);
    }
}

/// Words with the same members are the same.
proof fn lemma_same_set(a: Bitboard, b: Bitboard)
    requires
        forall|i: int| #[trigger] a.has(i) == b.has(i),
    ensures
        a == b,
{
    assert forall|i: int| 0 <= i < 64 implies #[trigger] bits::bit(a.0, i) == bits::bit(b.0, i) by {
        assert(a.has(i) == b.has(i));
    }
    bits::lemma_ext(a.0, b.0);
}

/// The paths that the rights ask for are the same.
proof fn lemma_paths(p: Position, q: Position, su: Setup, chess960: bool)
    requires
        fen::is_set_up(&p, su, chess960),
        fen::is_set_up(&q, su, chess960),
        rooks_of_rights(su.castling),
    ensures
        p.castling == q.castling,
{
    assert forall|n: int| 0 <= n < 16 implies #[trigger] p.castling.path@[n]
        == q.castling.path@[n] by {
        if su.castling.rook_square[n] != SquareOrNone::NONE {
            let (c, ks) = choose|c: Color, ks: bool|
                su.castling.rights.has(#[trigger] CastlingRights::wing(c, ks))
                    && CastlingRights::wing(c, ks).nibble() == n;
            assert(p.castling.right_wf(su.b, c, ks));
            assert(q.castling.right_wf(su.b, c, ks));
            lemma_same_set(p.castling.path@[n], q.castling.path@[n]);
        }
    }
    assert(p.castling.rook_square =~= q.castling.rook_square);
    assert(p.castling.path =~= q.castling.path);
    assert(p.castling.mask =~= q.castling.mask);
}

/// The states hold the same words.
proof fn lemma_states(a: StateInfo, b: StateInfo, board: Seq<Piece>, stm: Color)
    requires
        a.tallied(board),
        b.tallied(board),
        a.keyed(board, stm),
        b.keyed(board, stm),
        a.surveyed(board, stm),
        b.surveyed(board, stm),
        a.checked(board, stm),
        b.checked(board, stm),
        a.castling_rights == b.castling_rights,
        a.ep_square == b.ep_square,
        a.rule50 == b.rule50,
        a.plies_from_null == b.plies_from_null,
        a.captured_piece == b.captured_piece,
        a.repetition == b.repetition,
    ensures
        a == b,
{
    lemma_same_set(a.checkers, b.checkers);
    assert forall|c: Color| a.blockers@[#[trigger] c.idx()] == b.blockers@[c.idx()]
        && a.pinners@[c.idx()] == b.pinners@[c.idx()] by {
        lemma_same_set(a.blockers@[c.idx()], b.blockers@[c.idx()]);
        lemma_same_set(a.pinners@[c.idx()], b.pinners@[c.idx()]);
    }
    assert forall|pt: PieceType| a.check_squares@[#[trigger] pt.idx()]
        == b.check_squares@[pt.idx()] by {
        lemma_same_set(a.check_squares@[pt.idx()], b.check_squares@[pt.idx()]);
    }
    assert(Color::White.idx() == 0 && Color::Black.idx() == 1);
    assert(a.blockers =~= b.blockers);
    assert(a.pinners =~= b.pinners);
    assert forall|i: int| 0 <= i < 7 implies #[trigger] a.check_squares@[i] == b.check_squares@[i] by {
        let pt = PieceType::of_index(i);
        assert(pt.idx() == i);
    }
    assert(a.check_squares =~= b.check_squares);
    assert(a.non_pawn_key =~= b.non_pawn_key);
    assert(a.non_pawn_material =~= b.non_pawn_material);
}

/// Setting up a record gives the same position whatever was there before: nothing of the past
/// is left.
pub proof fn law_setting_up_leaves_no_trace(p: Position, q: Position, s: Seq<u8>, chess960: bool)
    requires
        fen::read_fen(s) matches Ok(su) && fen::is_set_up(&p, su, chess960) && fen::is_set_up(
            &q,
            su,
            chess960,
        ),
    ensures
        p.same(&q),
{
    let su = fen::read_fen(s)->Ok_0;
    let field = fen::or_dash(crate::board::text::word(s, 2));
    assert(rooks_of_rights(fen::no_rights()));
    if field != seq![45u8] {
        lemma_scan(field, 0, su.b, fen::no_rights());
    }
    assert(rooks_of_rights(su.castling));
    lemma_paths(p, q, su, chess960);
    lemma_states(p.top(), q.top(), su.b, su.stm);
    assert(p.states@ =~= q.states@);
}

} // verus!
