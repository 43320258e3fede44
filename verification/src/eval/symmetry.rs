//! The classical evaluation treats the two sides alike.

use vstd::prelude::*;
use crate::board::attacks;
use crate::board::bitboard;
use crate::board::fen;
use crate::board::mirror;
use crate::board::movegen;
use crate::board::placement;
use crate::board::position::Position;
use crate::board::records;
use crate::board::types;
use crate::board::types::{Color, Piece, PieceType, Square};
use crate::eval;
use crate::eval::classical;

verus! {

proof fn lemma_covers_one_way(b: Seq<Piece>, c: Color, t: int)
    requires
        placement::clean(b),
        0 <= t < 64,
        classical::pawn_covers(b, c, t),
    ensures
        classical::pawn_covers(fen::mirrored(b), c.opp(), Square::mirrored(t)),
{
    let q = choose|q: int|
        0 <= q < 64 && b[q] == Piece::of(c, PieceType::Pawn) && #[trigger] bitboard::pawn_hits(
            c,
            q,
            t,
        );
    mirror::law_mirroring_undoes_itself(q);
    mirror::law_mirroring_undoes_itself(t);
    mirror::lemma_piece_mirrored(b, q);
    assert(bitboard::pawn_hits(c.opp(), Square::mirrored(q), Square::mirrored(t)));
}

proof fn lemma_covers(b: Seq<Piece>, c: Color, t: int)
    requires
        placement::clean(b),
        0 <= t < 64,
    ensures
        classical::pawn_covers(fen::mirrored(b), c.opp(), Square::mirrored(t))
            == classical::pawn_covers(b, c, t),
{
    mirror::law_mirrored_placements(b);
    mirror::law_mirroring_undoes_itself(t);
    if classical::pawn_covers(b, c, t) {
        lemma_covers_one_way(b, c, t);
    }
    if classical::pawn_covers(fen::mirrored(b), c.opp(), Square::mirrored(t)) {
        lemma_covers_one_way(fen::mirrored(b), c.opp(), Square::mirrored(t));
    }
}

proof fn lemma_usable(b: Seq<Piece>, c: Color, pt: PieceType, i: int, t: int)
    requires
        placement::clean(b),
        0 <= i < 64,
        0 <= t < 64,
        pt != PieceType::Pawn,
    ensures
        classical::usable(fen::mirrored(b), c.opp(), pt, Square::mirrored(i), Square::mirrored(t))
            == classical::usable(b, c, pt, i, t),
{
    mirror::lemma_hits_mirrored(b, Color::White, pt, i, t);
    mirror::lemma_piece_mirrored(b, t);
    mirror::lemma_recolored(b[t]);
    lemma_covers(b, c.opp(), t);
    assert(b[t] == Piece::NONE || b[t].is_real());
    assert(attacks::hits(
        Color::White,
        pt,
        placement::occ(fen::mirrored(b)),
        Square::mirrored(i),
        Square::mirrored(t),
    ) == attacks::hits(
        Color::Black,
        pt,
        placement::occ(fen::mirrored(b)),
        Square::mirrored(i),
        Square::mirrored(t),
    ));
}

/// The size of a set of squares is a sum.
proof fn lemma_size(p: spec_fn(int) -> bool, g: spec_fn(int) -> int, i: int)
    requires
        0 <= i <= 64,
        forall|t: int|
            0 <= t < 64 ==> #[trigger] g(t) == (if p(t) {
                1int
            } else {
                0int
            }),
    ensures
        mirror::sum_upto(g, i) + movegen::squares_from(p, i).len() == mirror::sum_upto(g, 64),
    decreases 64 - i,
{
    if i < 64 {
        lemma_size(p, g, i + 1);
        assert(g(i) == (if p(i) {
            1int
        } else {
            0int
        }));
    }
}

proof fn lemma_mobility(b: Seq<Piece>, c: Color, pt: PieceType, i: int)
    requires
        placement::clean(b),
        0 <= i < 64,
        pt != PieceType::Pawn,
    ensures
        classical::mobility(fen::mirrored(b), c.opp(), pt, Square::mirrored(i))
            == classical::mobility(b, c, pt, i),
{
    let m = fen::mirrored(b);
    let k = Square::mirrored(i);
    let p = |t: int| classical::usable(b, c, pt, i, t);
    let q = |t: int| classical::usable(m, c.opp(), pt, k, t);
    let g = |t: int|
        if p(t) {
            1int
        } else {
            0int
        };
    let h = |t: int|
        if q(t) {
            1int
        } else {
            0int
        };
    assert forall|t: int| 0 <= t < 64 implies #[trigger] h(t) == g(Square::mirrored(t)) by {
        mirror::law_mirroring_undoes_itself(t);
        lemma_usable(b, c, pt, i, Square::mirrored(t));
    }
    mirror::lemma_sum_mirrored(g, h);
    lemma_size(p, g, 0);
    lemma_size(q, h, 0);
}

/// The structure of the pawns, one way round.
proof fn lemma_doubled_one_way(b: Seq<Piece>, c: Color, i: int)
    requires
        placement::clean(b),
        0 <= i < 64,
        classical::doubled(b, c, i),
    ensures
        classical::doubled(fen::mirrored(b), c.opp(), Square::mirrored(i)),
{
    let j = choose|j: int|
        0 <= j < 64 && j != i && j % 8 == i % 8 && #[trigger] b[j] == Piece::of(
            c,
            PieceType::Pawn,
        );
    mirror::law_mirroring_undoes_itself(i);
    mirror::law_mirroring_undoes_itself(j);
    mirror::lemma_piece_mirrored(b, j);
    assert(fen::mirrored(b)[Square::mirrored(j)] == Piece::of(c.opp(), PieceType::Pawn));
}

proof fn lemma_isolated_one_way(b: Seq<Piece>, c: Color, i: int)
    requires
        placement::clean(b),
        0 <= i < 64,
        classical::isolated(b, c, i),
    ensures
        classical::isolated(fen::mirrored(b), c.opp(), Square::mirrored(i)),
{
    let m = fen::mirrored(b);
    mirror::law_mirroring_undoes_itself(i);
    assert forall|j: int|
        0 <= j < 64 && (j % 8 == Square::mirrored(i) % 8 + 1 || j % 8 == Square::mirrored(i) % 8
            - 1) implies #[trigger] m[j] != Piece::of(c.opp(), PieceType::Pawn) by {
        mirror::law_mirroring_undoes_itself(j);
        mirror::lemma_piece_mirrored(b, Square::mirrored(j));
        mirror::lemma_recolored(b[Square::mirrored(j)]);
        assert(b[Square::mirrored(j)] != Piece::of(c, PieceType::Pawn));
        assert(c.opp().opp() == c);
    }
}

proof fn lemma_passed_one_way(b: Seq<Piece>, c: Color, i: int)
    requires
        placement::clean(b),
        0 <= i < 64,
        classical::passed(b, c, i),
    ensures
        classical::passed(fen::mirrored(b), c.opp(), Square::mirrored(i)),
{
    let m = fen::mirrored(b);
    mirror::law_mirroring_undoes_itself(i);
    assert forall|t: int| #[trigger]
        classical::ahead(c.opp(), Square::mirrored(i), t) implies m[t] != Piece::of(
        c.opp().opp(),
        PieceType::Pawn,
    ) by {
        mirror::law_mirroring_undoes_itself(t);
        mirror::lemma_piece_mirrored(b, Square::mirrored(t));
        mirror::lemma_recolored(b[Square::mirrored(t)]);
        assert(classical::ahead(c, i, Square::mirrored(t)));
        assert(c.opp().opp() == c);
    }
}

proof fn lemma_pawn(b: Seq<Piece>, c: Color, i: int, midgame: bool)
    requires
        placement::clean(b),
        0 <= i < 64,
    ensures
        classical::pawn_value(fen::mirrored(b), c.opp(), Square::mirrored(i), midgame)
            == classical::pawn_value(b, c, i, midgame),
{
    let m = fen::mirrored(b);
    let k = Square::mirrored(i);
    mirror::law_mirrored_placements(b);
    mirror::law_mirroring_undoes_itself(i);
    assert(c.opp().opp() == c);
    if classical::doubled(b, c, i) {
        lemma_doubled_one_way(b, c, i);
    }
    if classical::doubled(m, c.opp(), k) {
        lemma_doubled_one_way(m, c.opp(), k);
    }
    if classical::isolated(b, c, i) {
        lemma_isolated_one_way(b, c, i);
    }
    if classical::isolated(m, c.opp(), k) {
        lemma_isolated_one_way(m, c.opp(), k);
    }
    if classical::passed(b, c, i) {
        lemma_passed_one_way(b, c, i);
    }
    if classical::passed(m, c.opp(), k) {
        lemma_passed_one_way(m, c.opp(), k);
    }
}

proof fn lemma_square(b: Seq<Piece>, c: Color, i: int, midgame: bool)
    requires
        placement::clean(b),
        0 <= i < 64,
    ensures
        classical::square_value(fen::mirrored(b), c.opp(), Square::mirrored(i), midgame)
            == classical::square_value(b, c, i, midgame),
{
    mirror::law_mirroring_undoes_itself(i);
    mirror::lemma_piece_mirrored(b, i);
    mirror::lemma_recolored(b[i]);
    lemma_pawn(b, c, i, midgame);
    if b[i].kind() != PieceType::Pawn {
        lemma_mobility(b, c, b[i].kind(), i);
    }
}

proof fn lemma_side_sum(
    b: Seq<Piece>,
    c: Color,
    midgame: bool,
    g: spec_fn(int) -> int,
    n: int,
)
    requires
        forall|i: int| 0 <= i < n ==> #[trigger] g(i) == classical::square_value(b, c, i, midgame),
    ensures
        classical::side_upto(b, c, midgame, n) == mirror::sum_upto(g, n),
    decreases n,
{
    if n > 0 {
        lemma_side_sum(b, c, midgame, g, n - 1);
        assert(g(n - 1) == classical::square_value(b, c, n - 1, midgame));
    }
}

proof fn lemma_side(b: Seq<Piece>, c: Color, midgame: bool)
    requires
        placement::clean(b),
    ensures
        classical::side_score(fen::mirrored(b), c.opp(), midgame) == classical::side_score(
            b,
            c,
            midgame,
        ),
{
    let m = fen::mirrored(b);
    let g = |i: int| classical::square_value(b, c, i, midgame);
    let h = |i: int| classical::square_value(m, c.opp(), i, midgame);
    assert forall|i: int| 0 <= i < 64 implies #[trigger] h(i) == g(Square::mirrored(i)) by {
        mirror::law_mirroring_undoes_itself(i);
        lemma_square(b, c, Square::mirrored(i), midgame);
    }
    mirror::lemma_sum_mirrored(g, h);
    lemma_side_sum(b, c, midgame, g, 64);
    lemma_side_sum(m, c.opp(), midgame, h, 64);
    mirror::lemma_count_mirrored(b, c.opp(), PieceType::Bishop);
    assert(c.opp().opp() == c);
}

proof fn lemma_phase_sum(b: Seq<Piece>, g: spec_fn(int) -> int, n: int)
    requires
        forall|i: int| 0 <= i < n ==> #[trigger] g(i) == classical::phase_weight(b[i].kind()),
    ensures
        classical::phase_upto(b, n) == mirror::sum_upto(g, n),
    decreases n,
{
    if n > 0 {
        lemma_phase_sum(b, g, n - 1);
        assert(g(n - 1) == classical::phase_weight(b[n - 1].kind()));
    }
}

proof fn lemma_phase(b: Seq<Piece>)
    requires
        placement::clean(b),
    ensures
        classical::phase(fen::mirrored(b)) == classical::phase(b),
{
    let m = fen::mirrored(b);
    let g = |i: int| classical::phase_weight(b[i].kind());
    let h = |i: int| classical::phase_weight(m[i].kind());
    assert forall|i: int| 0 <= i < 64 implies #[trigger] h(i) == g(Square::mirrored(i)) by {
        mirror::law_mirroring_undoes_itself(i);
        mirror::lemma_piece_mirrored(b, Square::mirrored(i));
        mirror::lemma_recolored(b[Square::mirrored(i)]);
    }
    mirror::lemma_sum_mirrored(g, h);
    lemma_phase_sum(b, g, 64);
    lemma_phase_sum(m, h, 64);
}

/// The mirror image of a placement is worth as much to the other side as the placement to the
/// one: the evaluation does not know which colour it plays.
pub proof fn law_the_evaluation_treats_the_sides_alike(b: Seq<Piece>, stm: Color)
    requires
        placement::clean(b),
    ensures
        classical::score_of(fen::mirrored(b), stm.opp()) == classical::score_of(b, stm),
{
    let m = fen::mirrored(b);
    lemma_side(b, Color::White, true);
    lemma_side(b, Color::White, false);
    lemma_side(b, Color::Black, true);
    lemma_side(b, Color::Black, false);
    lemma_phase(b);
    let mg = classical::side_score(b, Color::White, true) - classical::side_score(
        b,
        Color::Black,
        true,
    );
    let eg = classical::side_score(b, Color::White, false) - classical::side_score(
        b,
        Color::Black,
        false,
    );
    let ph = classical::phase(b);
    assert((-mg) * ph + (-eg) * (24 - ph) == -(mg * ph + eg * (24 - ph))) by (nonlinear_arith);
    let x = mg * ph + eg * (24 - ph);
    assert(types::trunc_div(-x, 24) == -types::trunc_div(x, 24));
    assert(classical::balance(m) == -classical::balance(b));
}

/// A position evaluates as it does after a flip, whether or not its mirrored record is accepted:
/// the score is that of the side to move.
pub proof fn law_a_flipped_position_evaluates_alike(p: Position, q: Position)
    requires
        p.wf(),
        match fen::read_fen(vstd::utf8::encode_utf8(p.record_text(true))) {
            Ok(su) => fen::is_set_up(&q, su, p.chess960),
            Err(_) => q.same(&p),
        },
    ensures
        classical::score_of(q.board@, q.side_to_move) == classical::score_of(
            p.board@,
            p.side_to_move,
        ),
        eval::damped(
            classical::score_of(q.board@, q.side_to_move),
            q.top().rule50 as int,
        ) == eval::damped(
            classical::score_of(p.board@, p.side_to_move),
            p.top().rule50 as int,
        ),
{
    if let Ok(su) = fen::read_fen(vstd::utf8::encode_utf8(p.record_text(true))) {
        records::law_flipped_placements_are_mirrored(p, su);
        law_the_evaluation_treats_the_sides_alike(p.board@, p.side_to_move);
    }
}

} // verus!
