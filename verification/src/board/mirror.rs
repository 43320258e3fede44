//! A placement and its mirror image: what stands, attacks and counts in one does so in the
//! other, with the colours exchanged.

use vstd::prelude::*;
use crate::board::attacks;
use crate::board::bitboard;
use crate::board::bits;
use crate::board::fen;
use crate::board::placement;
use crate::board::safety;
use crate::board::tally;
use crate::board::types::{Color, Piece, PieceType, Square};

verus! {

// ---------------------------------------------------------------------------
// Squares
// ---------------------------------------------------------------------------

/// Mirroring keeps the file, turns the rank round, and undoes itself.
pub proof fn law_mirroring_undoes_itself(i: int)
    requires
        0 <= i < 64,
    ensures
        0 <= Square::mirrored(i) < 64,
        Square::mirrored(i) / 8 == 7 - i / 8,
        Square::mirrored(i) % 8 == i % 8,
        Square::mirrored(Square::mirrored(i)) == i,
{
}

/// The sum of `g` over the first `n` squares.
pub open spec fn sum_upto(g: spec_fn(int) -> int, n: int) -> int
    decreases n,
{
    if n <= 0 {
        0
    } else {
        sum_upto(g, n - 1) + g(n - 1)
    }
}

proof fn lemma_rank_sum(g: spec_fn(int) -> int, r: int)
    requires
        0 <= r < 8,
    ensures
        sum_upto(g, 8 * r + 8) == sum_upto(g, 8 * r) + g(8 * r) + g(8 * r + 1) + g(8 * r + 2) + g(
            8 * r + 3,
        ) + g(8 * r + 4) + g(8 * r + 5) + g(8 * r + 6) + g(8 * r + 7),
{
    reveal_with_fuel(sum_upto, 9);
}

/// The sum of `g` over one rank.
pub open spec fn rank_sum(g: spec_fn(int) -> int, r: int) -> int {
    g(8 * r) + g(8 * r + 1) + g(8 * r + 2) + g(8 * r + 3) + g(8 * r + 4) + g(8 * r + 5) + g(
        8 * r + 6,
    ) + g(8 * r + 7)
}

proof fn lemma_ranks_sum(g: spec_fn(int) -> int)
    ensures
        sum_upto(g, 64) == rank_sum(g, 0) + rank_sum(g, 1) + rank_sum(g, 2) + rank_sum(g, 3)
            + rank_sum(g, 4) + rank_sum(g, 5) + rank_sum(g, 6) + rank_sum(g, 7),
{
    lemma_rank_sum(g, 0);
    lemma_rank_sum(g, 1);
    lemma_rank_sum(g, 2);
    lemma_rank_sum(g, 3);
    lemma_rank_sum(g, 4);
    lemma_rank_sum(g, 5);
    lemma_rank_sum(g, 6);
    lemma_rank_sum(g, 7);
}

/// A sum over the board does not change when the board is mirrored.
pub proof fn lemma_sum_mirrored(g: spec_fn(int) -> int, h: spec_fn(int) -> int)
    requires
        forall|i: int| 0 <= i < 64 ==> #[trigger] h(i) == g(Square::mirrored(i)),
    ensures
        sum_upto(h, 64) == sum_upto(g, 64),
{
    lemma_ranks_sum(g);
    lemma_ranks_sum(h);
    assert forall|r: int| 0 <= r < 8 implies #[trigger] rank_sum(h, r) == rank_sum(g, 7 - r) by {
        assert forall|f: int| 0 <= f < 8 implies #[trigger] h(8 * r + f) == g(8 * (7 - r) + f) by {
            assert((8 * r + f) / 8 == r && (8 * r + f) % 8 == f);
        }
        assert(h(8 * r + 0) == g(8 * (7 - r) + 0));
        assert(h(8 * r + 1) == g(8 * (7 - r) + 1));
        assert(h(8 * r + 2) == g(8 * (7 - r) + 2));
        assert(h(8 * r + 3) == g(8 * (7 - r) + 3));
        assert(h(8 * r + 4) == g(8 * (7 - r) + 4));
        assert(h(8 * r + 5) == g(8 * (7 - r) + 5));
        assert(h(8 * r + 6) == g(8 * (7 - r) + 6));
        assert(h(8 * r + 7) == g(8 * (7 - r) + 7));
    }
    assert(rank_sum(h, 0) == rank_sum(g, 7));
    assert(rank_sum(h, 1) == rank_sum(g, 6));
    assert(rank_sum(h, 2) == rank_sum(g, 5));
    assert(rank_sum(h, 3) == rank_sum(g, 4));
    assert(rank_sum(h, 4) == rank_sum(g, 3));
    assert(rank_sum(h, 5) == rank_sum(g, 2));
    assert(rank_sum(h, 6) == rank_sum(g, 1));
    assert(rank_sum(h, 7) == rank_sum(g, 0));
}

pub proof fn lemma_sum_same(g: spec_fn(int) -> int, h: spec_fn(int) -> int, n: int)
    requires
        forall|i: int| 0 <= i < n ==> #[trigger] g(i) == h(i),
    ensures
        sum_upto(g, n) == sum_upto(h, n),
    decreases n,
{
    if n > 0 {
        lemma_sum_same(g, h, n - 1);
        assert(g(n - 1) == h(n - 1));
    }
}

// ---------------------------------------------------------------------------
// Placements
// ---------------------------------------------------------------------------

pub proof fn lemma_recolored(pc: Piece)
    ensures
        fen::recolored(fen::recolored(pc)) == pc,
        fen::recolored(pc).kind() == pc.kind(),
        fen::recolored(pc).is_real() == pc.is_real(),
        pc.is_real() ==> fen::recolored(pc).side() == pc.side().opp(),
        (fen::recolored(pc) == Piece::NONE) == (pc == Piece::NONE),
        forall|c: Color, pt: PieceType|
            pt != PieceType::NoType ==> (fen::recolored(pc) == #[trigger] Piece::of(c, pt)) == (pc
                == Piece::of(c.opp(), pt)),
{
}

/// The mirror image of a placement is one, and its mirror image is the placement.
pub proof fn law_mirrored_placements(b: Seq<Piece>)
    requires
        placement::clean(b),
    ensures
        placement::clean(fen::mirrored(b)),
        fen::mirrored(fen::mirrored(b)) == b,
        forall|i: int|
            0 <= i < 64 ==> #[trigger] fen::mirrored(b)[i] == fen::recolored(
                b[Square::mirrored(i)],
            ),
{
    let m = fen::mirrored(b);
    assert forall|i: int| 0 <= i < 64 implies #[trigger] m[i] == Piece::NONE || m[i].is_real() by {
        law_mirroring_undoes_itself(i);
        lemma_recolored(b[Square::mirrored(i)]);
        assert(b[Square::mirrored(i)] == Piece::NONE || b[Square::mirrored(i)].is_real());
    }
    assert forall|i: int| 0 <= i < 64 implies fen::mirrored(m)[i] == b[i] by {
        law_mirroring_undoes_itself(i);
        lemma_recolored(b[i]);
    }
    assert(fen::mirrored(m) =~= b);
}

proof fn lemma_count_sum(b: Seq<Piece>, pc: Piece, g: spec_fn(int) -> int, n: int)
    requires
        forall|i: int|
            0 <= i < n ==> #[trigger] g(i) == (if b[i] == pc {
                1int
            } else {
                0int
            }),
    ensures
        tally::count_upto(b, pc, n) == sum_upto(g, n),
    decreases n,
{
    if n > 0 {
        lemma_count_sum(b, pc, g, n - 1);
        assert(g(n - 1) == (if b[n - 1] == pc {
            1int
        } else {
            0int
        }));
    }
}

/// As many pieces stand in the one as of the other colour in the other.
pub proof fn lemma_count_mirrored(b: Seq<Piece>, c: Color, pt: PieceType)
    requires
        placement::clean(b),
        pt != PieceType::NoType,
    ensures
        tally::count_of(fen::mirrored(b), Piece::of(c, pt)) == tally::count_of(
            b,
            Piece::of(c.opp(), pt),
        ),
{
    let m = fen::mirrored(b);
    let g = |i: int|
        if b[i] == Piece::of(c.opp(), pt) {
            1int
        } else {
            0int
        };
    let h = |i: int|
        if m[i] == Piece::of(c, pt) {
            1int
        } else {
            0int
        };
    law_mirrored_placements(b);
    lemma_count_sum(b, Piece::of(c.opp(), pt), g, 64);
    lemma_count_sum(m, Piece::of(c, pt), h, 64);
    assert forall|i: int| 0 <= i < 64 implies #[trigger] h(i) == g(Square::mirrored(i)) by {
        lemma_recolored(b[Square::mirrored(i)]);
    }
    lemma_sum_mirrored(g, h);
}

/// The piece on a mirrored square.
pub proof fn lemma_piece_mirrored(b: Seq<Piece>, i: int)
    requires
        placement::clean(b),
        0 <= i < 64,
    ensures
        fen::mirrored(b)[Square::mirrored(i)] == fen::recolored(b[i]),
{
    law_mirroring_undoes_itself(i);
}

/// One king each.
pub proof fn lemma_kings_kept(b: Seq<Piece>)
    requires
        placement::clean(b),
        placement::kings(b),
    ensures
        placement::kings(fen::mirrored(b)),
{
    lemma_count_mirrored(b, Color::White, PieceType::King);
    lemma_count_mirrored(b, Color::Black, PieceType::King);
}

/// The kings stand on mirrored squares.
pub proof fn lemma_kings_mirrored(b: Seq<Piece>, c: Color)
    requires
        placement::clean(b),
        placement::kings(b),
    ensures
        0 <= placement::king(b, c) < 64,
        placement::king(fen::mirrored(b), c.opp()) == Square::mirrored(placement::king(b, c)),
{
    let m = fen::mirrored(b);
    lemma_kings_kept(b);
    placement::lemma_king(b, c);
    placement::lemma_king(m, c.opp());
    let k = placement::king(b, c);
    assert(b[k] == Piece::of(c, PieceType::King));
    law_mirroring_undoes_itself(k);
    lemma_piece_mirrored(b, k);
    assert(m[Square::mirrored(k)] == Piece::of(c.opp(), PieceType::King));
}

/// The bits of the two occupancies.
pub proof fn lemma_occ_mirrored(b: Seq<Piece>, i: int)
    requires
        placement::clean(b),
        0 <= i < 64,
    ensures
        bits::bit(placement::occ(fen::mirrored(b)), Square::mirrored(i)) == bits::bit(
            placement::occ(b),
            i,
        ),
{
    let m = fen::mirrored(b);
    safety::lemma_occupancy(b);
    safety::lemma_occupancy(m);
    law_mirrored_placements(b);
    law_mirroring_undoes_itself(i);
    lemma_recolored(b[i]);
    assert(m[Square::mirrored(i)] == fen::recolored(b[i]));
    assert(bits::bit(placement::occ(b), i) == (b[i] != Piece::NONE));
    assert(bits::bit(placement::occ(m), Square::mirrored(i)) == (m[Square::mirrored(i)]
        != Piece::NONE));
}

// ---------------------------------------------------------------------------
// Attacks
// ---------------------------------------------------------------------------

proof fn lemma_between_mirrored(s: int, u: int, t: int)
    requires
        0 <= s < 64,
        0 <= u < 64,
        0 <= t < 64,
    ensures
        attacks::between(Square::mirrored(s), Square::mirrored(u), Square::mirrored(t))
            == attacks::between(s, u, t),
{
    law_mirroring_undoes_itself(s);
    law_mirroring_undoes_itself(u);
    law_mirroring_undoes_itself(t);
}

proof fn lemma_clear_one_way(b: Seq<Piece>, s: int, t: int)
    requires
        placement::clean(b),
        0 <= s < 64,
        0 <= t < 64,
        attacks::clear(placement::occ(b), s, t),
    ensures
        attacks::clear(placement::occ(fen::mirrored(b)), Square::mirrored(s), Square::mirrored(t)),
{
    let w = placement::occ(fen::mirrored(b));
    assert forall|v: int| #[trigger]
        attacks::between(Square::mirrored(s), v, Square::mirrored(t)) implies !bits::bit(w, v) by {
        let u = Square::mirrored(v);
        law_mirroring_undoes_itself(v);
        lemma_between_mirrored(s, u, t);
        lemma_occ_mirrored(b, u);
        assert(attacks::between(s, u, t));
    }
}

proof fn lemma_clear_mirrored(b: Seq<Piece>, s: int, t: int)
    requires
        placement::clean(b),
        0 <= s < 64,
        0 <= t < 64,
    ensures
        attacks::clear(placement::occ(fen::mirrored(b)), Square::mirrored(s), Square::mirrored(t))
            == attacks::clear(placement::occ(b), s, t),
{
    let m = fen::mirrored(b);
    law_mirrored_placements(b);
    law_mirroring_undoes_itself(s);
    law_mirroring_undoes_itself(t);
    if attacks::clear(placement::occ(b), s, t) {
        lemma_clear_one_way(b, s, t);
    }
    if attacks::clear(placement::occ(m), Square::mirrored(s), Square::mirrored(t)) {
        lemma_clear_one_way(m, Square::mirrored(s), Square::mirrored(t));
    }
}

/// A piece attacks in the one what the other colour's piece attacks in the other.
pub proof fn lemma_hits_mirrored(b: Seq<Piece>, c: Color, pt: PieceType, s: int, t: int)
    requires
        placement::clean(b),
        0 <= s < 64,
        0 <= t < 64,
    ensures
        attacks::hits(
            c.opp(),
            pt,
            placement::occ(fen::mirrored(b)),
            Square::mirrored(s),
            Square::mirrored(t),
        ) == attacks::hits(c, pt, placement::occ(b), s, t),
{
    law_mirroring_undoes_itself(s);
    law_mirroring_undoes_itself(t);
    lemma_clear_mirrored(b, s, t);
    let ms = Square::mirrored(s);
    let mt = Square::mirrored(t);
    assert(attacks::rook_line(ms, mt) == attacks::rook_line(s, t));
    assert(attacks::bishop_line(ms, mt) == attacks::bishop_line(s, t));
    assert(bitboard::knight_hits(ms, mt) == bitboard::knight_hits(s, t));
    assert(bitboard::king_hits(ms, mt) == bitboard::king_hits(s, t));
    assert(bitboard::pawn_hits(c.opp(), ms, mt) == bitboard::pawn_hits(c, s, t));
}

proof fn lemma_attacked_one_way(b: Seq<Piece>, c: Color, t: int)
    requires
        placement::clean(b),
        0 <= t < 64,
        placement::attacked(b, placement::occ(b), c, t),
    ensures
        placement::attacked(
            fen::mirrored(b),
            placement::occ(fen::mirrored(b)),
            c.opp(),
            Square::mirrored(t),
        ),
{
    let m = fen::mirrored(b);
    let w = placement::occ(b);
    let s = choose|s: int| #[trigger]
        placement::attacks_through(b, w, s, t) && b[s].side() == c;
    law_mirrored_placements(b);
    law_mirroring_undoes_itself(s);
    lemma_recolored(b[s]);
    lemma_hits_mirrored(b, c, b[s].kind(), s, t);
    assert(m[Square::mirrored(s)] == fen::recolored(b[s]));
    assert(placement::attacks_through(m, placement::occ(m), Square::mirrored(s), Square::mirrored(t)));
}

/// A square is attacked in the one when its mirror image is in the other.
pub proof fn lemma_attacked_mirrored(b: Seq<Piece>, c: Color, t: int)
    requires
        placement::clean(b),
        0 <= t < 64,
    ensures
        placement::attacked(
            fen::mirrored(b),
            placement::occ(fen::mirrored(b)),
            c.opp(),
            Square::mirrored(t),
        ) == placement::attacked(b, placement::occ(b), c, t),
{
    let m = fen::mirrored(b);
    law_mirrored_placements(b);
    law_mirroring_undoes_itself(t);
    if placement::attacked(b, placement::occ(b), c, t) {
        lemma_attacked_one_way(b, c, t);
    }
    if placement::attacked(m, placement::occ(m), c.opp(), Square::mirrored(t)) {
        lemma_attacked_one_way(m, c.opp(), Square::mirrored(t));
    }
}

} // verus!
