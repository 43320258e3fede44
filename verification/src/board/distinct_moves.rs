//! No move is generated twice.

use vstd::prelude::*;
use crate::board::attacks;
use crate::board::bitboard;
use crate::board::legal_moves;
use crate::board::movegen;
use crate::board::movegen::{GenType, Node};
use crate::board::placement;
use crate::board::types::{
    CastlingRights, Direction, Move, MoveType, Piece, PieceType, Square, SquareOrNone,
};

verus! {

/// Lists that a predicate tells apart have no move in common.
proof fn lemma_apart(a: Seq<Move>, b: Seq<Move>, p: spec_fn(Move) -> bool)
    requires
        a.no_duplicates(),
        b.no_duplicates(),
        forall|i: int| 0 <= i < a.len() ==> p(#[trigger] a[i]),
        forall|i: int| 0 <= i < b.len() ==> !p(#[trigger] b[i]),
    ensures
        (a + b).no_duplicates(),
{
    let s = a + b;
    assert forall|i: int, j: int| 0 <= i < s.len() && 0 <= j < s.len() && i != j implies s[i]
        != s[j] by {
        if i < a.len() {
            assert(p(a[i]));
            if j >= a.len() {
                assert(!p(b[j - a.len()]));
            }
        } else {
            assert(!p(b[i - a.len()]));
            if j < a.len() {
                assert(p(a[j]));
            }
        }
    }
}

/// The squares are listed in ascending order.
proof fn lemma_ascending(p: spec_fn(int) -> bool, i: int)
    requires
        0 <= i <= 64,
    ensures
        forall|k: int, l: int|
            0 <= k < l < movegen::squares_from(p, i).len() ==> movegen::squares_from(p, i)[k]
                < movegen::squares_from(p, i)[l],
    decreases 64 - i,
{
    if i < 64 {
        lemma_ascending(p, i + 1);
        legal_moves::lemma_squares_sound(p, i + 1);
        let tail = movegen::squares_from(p, i + 1);
        let all = movegen::squares_from(p, i);
        if p(i) {
            assert forall|k: int, l: int| 0 <= k < l < all.len() implies all[k] < all[l] by {
                assert(all[l] == tail[l - 1]);
                if k > 0 {
                    assert(all[k] == tail[k - 1]);
                }
            }
        }
    }
}

proof fn lemma_from_distinct(from: int, q: spec_fn(int) -> bool)
    requires
        0 <= from < 64,
    ensures
        movegen::moves_from(from, movegen::squares(q)).no_duplicates(),
{
    lemma_ascending(q, 0);
    legal_moves::lemma_squares_sound(q, 0);
    let tos = movegen::squares(q);
    let s = movegen::moves_from(from, tos);
    assert forall|i: int, j: int| 0 <= i < s.len() && 0 <= j < s.len() && i != j implies s[i]
        != s[j] by {
        assert(s[i] == movegen::plain(from, tos[i]));
        assert(s[j] == movegen::plain(from, tos[j]));
        legal_moves::lemma_pack(MoveType::Normal, from, tos[i], PieceType::Knight);
        legal_moves::lemma_pack(MoveType::Normal, from, tos[j], PieceType::Knight);
    }
}

proof fn lemma_by_distinct(d: int, q: spec_fn(int) -> bool)
    requires
        forall|t: int| 0 <= t < 64 && #[trigger] q(t) ==> 0 <= t - d < 64,
    ensures
        movegen::moves_by(d, movegen::squares(q)).no_duplicates(),
{
    lemma_ascending(q, 0);
    legal_moves::lemma_squares_sound(q, 0);
    let tos = movegen::squares(q);
    let s = movegen::moves_by(d, tos);
    assert forall|i: int, j: int| 0 <= i < s.len() && 0 <= j < s.len() && i != j implies s[i]
        != s[j] by {
        assert(s[i] == movegen::plain(tos[i] - d, tos[i]));
        assert(s[j] == movegen::plain(tos[j] - d, tos[j]));
        assert(q(tos[i]) && q(tos[j]));
        legal_moves::lemma_pack(MoveType::Normal, tos[i] - d, tos[i], PieceType::Knight);
        legal_moves::lemma_pack(MoveType::Normal, tos[j] - d, tos[j], PieceType::Knight);
    }
}

/// What all moves of a list that step by `d` have in common.
proof fn lemma_by_fields(d: int, q: spec_fn(int) -> bool)
    requires
        forall|t: int| 0 <= t < 64 && #[trigger] q(t) ==> 0 <= t - d < 64,
    ensures
        forall|i: int|
            0 <= i < movegen::moves_by(d, movegen::squares(q)).len() ==> {
                let m = #[trigger] movegen::moves_by(d, movegen::squares(q))[i];
                m.kind() == MoveType::Normal && m.dst() - m.src() == d && q(m.dst())
            },
{
    legal_moves::lemma_squares_sound(q, 0);
    let tos = movegen::squares(q);
    let s = movegen::moves_by(d, tos);
    assert forall|i: int| 0 <= i < s.len() implies {
        let m = #[trigger] s[i];
        m.kind() == MoveType::Normal && m.dst() - m.src() == d && q(m.dst())
    } by {
        assert(s[i] == movegen::plain(tos[i] - d, tos[i]));
        assert(q(tos[i]));
        legal_moves::lemma_pack(MoveType::Normal, tos[i] - d, tos[i], PieceType::Knight);
    }
}

/// The promotions of one step are different moves, with the step's squares.
proof fn lemma_four(gt: GenType, captures: bool, from: int, to: int)
    requires
        0 <= from < 64,
        0 <= to < 64,
    ensures
        movegen::promotions(gt, captures, from, to).no_duplicates(),
        forall|i: int|
            0 <= i < movegen::promotions(gt, captures, from, to).len() ==> {
                let m = #[trigger] movegen::promotions(gt, captures, from, to)[i];
                m.kind() == MoveType::Promotion && m.src() == from && m.dst() == to
            },
{
    legal_moves::lemma_pack(MoveType::Promotion, from, to, PieceType::Queen);
    legal_moves::lemma_pack(MoveType::Promotion, from, to, PieceType::Rook);
    legal_moves::lemma_pack(MoveType::Promotion, from, to, PieceType::Bishop);
    legal_moves::lemma_pack(MoveType::Promotion, from, to, PieceType::Knight);
}

proof fn lemma_promotions_distinct(gt: GenType, captures: bool, d: int, tos: Seq<int>)
    requires
        forall|k: int| 0 <= k < tos.len() ==> 0 <= #[trigger] tos[k] < 64 && 0 <= tos[k] - d < 64,
        forall|k: int, l: int| 0 <= k < l < tos.len() ==> tos[k] < tos[l],
    ensures
        movegen::promotions_by(gt, captures, d, tos).no_duplicates(),
        forall|i: int|
            0 <= i < movegen::promotions_by(gt, captures, d, tos).len() ==> {
                let m = #[trigger] movegen::promotions_by(gt, captures, d, tos)[i];
                m.kind() == MoveType::Promotion && m.dst() - m.src() == d && tos.contains(m.dst())
            },
    decreases tos.len(),
{
    let all = movegen::promotions_by(gt, captures, d, tos);
    if tos.len() > 0 {
        let rest = tos.drop_first();
        assert forall|k: int| 0 <= k < rest.len() implies 0 <= #[trigger] rest[k] < 64 && 0
            <= rest[k] - d < 64 by {
            assert(rest[k] == tos[k + 1]);
        }
        lemma_promotions_distinct(gt, captures, d, rest);
        lemma_four(gt, captures, tos[0] - d, tos[0]);
        let here = movegen::promotions(gt, captures, tos[0] - d, tos[0]);
        let more = movegen::promotions_by(gt, captures, d, rest);
        let p = |m: Move| m.dst() == tos[0];
        assert forall|i: int| 0 <= i < more.len() implies !p(#[trigger] more[i]) by {
            let k = choose|k: int| 0 <= k < rest.len() && rest[k] == more[i].dst();
            assert(rest[k] == tos[k + 1]);
        }
        lemma_apart(here, more, p);
        assert forall|i: int| 0 <= i < all.len() implies {
            let m = #[trigger] all[i];
            m.kind() == MoveType::Promotion && m.dst() - m.src() == d && tos.contains(m.dst())
        } by {
            if i < here.len() {
                assert(all[i] == here[i]);
                assert(tos[0] == all[i].dst());
            } else {
                assert(all[i] == more[i - here.len()]);
                let k = choose|k: int| 0 <= k < rest.len() && rest[k] == all[i].dst();
                assert(tos[k + 1] == all[i].dst());
            }
        }
    }
}

/// A list of promotions onto the squares of a set.
proof fn lemma_promoting_distinct(n: Node, gt: GenType, captures: bool, d: Direction, q: spec_fn(int) -> bool)
    requires
        forall|t: int| 0 <= t < 64 && #[trigger] q(t) ==> movegen::pawn_arrives(n.b, n.stm, d, true, t),
    ensures
        ({
            let s = movegen::promotions_by(gt, captures, d.delta(), movegen::squares(q));
            &&& s.no_duplicates()
            &&& forall|i: int|
                0 <= i < s.len() ==> (#[trigger] s[i]).kind() == MoveType::Promotion && s[i].dst()
                    - s[i].src() == d.delta() && n.b[s[i].src()] == Piece::of(
                    n.stm,
                    PieceType::Pawn,
                )
        }),
{
    legal_moves::lemma_squares_sound(q, 0);
    lemma_ascending(q, 0);
    let tos = movegen::squares(q);
    assert forall|k: int| 0 <= k < tos.len() implies 0 <= #[trigger] tos[k] < 64 && 0 <= tos[k]
        - d.delta() < 64 by {
        assert(q(tos[k]));
    }
    lemma_promotions_distinct(gt, captures, d.delta(), tos);
    let s = movegen::promotions_by(gt, captures, d.delta(), tos);
    assert forall|i: int| 0 <= i < s.len() implies (#[trigger] s[i]).kind() == MoveType::Promotion
        && s[i].dst() - s[i].src() == d.delta() && n.b[s[i].src()] == Piece::of(
        n.stm,
        PieceType::Pawn,
    ) by {
        let k = choose|k: int| 0 <= k < tos.len() && tos[k] == s[i].dst();
        assert(q(tos[k]));
    }
}

/// The step of a move.
spec fn step(m: Move) -> int {
    m.dst() - m.src()
}

/// The list holds pawn moves, none of them twice.
spec fn pawn_list(n: Node, s: Seq<Move>) -> bool {
    &&& s.no_duplicates()
    &&& forall|i: int|
        0 <= i < s.len() ==> n.b[(#[trigger] s[i]).src()] == Piece::of(n.stm, PieceType::Pawn)
}

proof fn lemma_pawn_lists(n: Node, a: Seq<Move>, b: Seq<Move>, p: spec_fn(Move) -> bool)
    requires
        pawn_list(n, a),
        pawn_list(n, b),
        forall|i: int| 0 <= i < a.len() ==> p(#[trigger] a[i]),
        forall|i: int| 0 <= i < b.len() ==> !p(#[trigger] b[i]),
    ensures
        pawn_list(n, a + b),
{
    lemma_apart(a, b, p);
    assert forall|i: int| 0 <= i < (a + b).len() implies n.b[(#[trigger] (a + b)[i]).src()]
        == Piece::of(n.stm, PieceType::Pawn) by {
        if i < a.len() {
            assert(n.b[a[i].src()] == Piece::of(n.stm, PieceType::Pawn));
        } else {
            assert(n.b[b[i - a.len()].src()] == Piece::of(n.stm, PieceType::Pawn));
        }
    }
}

proof fn lemma_pushes_distinct(n: Node, gt: GenType)
    ensures
        pawn_list(n, n.pushes(gt)),
        forall|i: int|
            0 <= i < n.pushes(gt).len() ==> (#[trigger] n.pushes(gt)[i]).kind()
                == MoveType::Normal && step(n.pushes(gt)[i]) % 8 == 0,
{
    let u = Direction::forward(n.stm).delta();
    if gt != GenType::Captures {
        let q1 = |t: int| n.single_push(t) && n.push_counts(gt, t);
        let q2 = |t: int| n.double_push(t) && n.push_counts(gt, t);
        let a = movegen::moves_by(u, movegen::squares(q1));
        let b = movegen::moves_by(2 * u, movegen::squares(q2));
        lemma_by_distinct(u, q1);
        lemma_by_fields(u, q1);
        lemma_by_distinct(2 * u, q2);
        lemma_by_fields(2 * u, q2);
        assert forall|i: int| 0 <= i < b.len() implies n.b[(#[trigger] b[i]).src()] == Piece::of(
            n.stm,
            PieceType::Pawn,
        ) by {
            assert(n.double_push(b[i].dst()));
        }
        lemma_pawn_lists(n, a, b, |m: Move| step(m) == u);
        assert forall|i: int| 0 <= i < (a + b).len() implies (#[trigger] (a + b)[i]).kind()
            == MoveType::Normal && step((a + b)[i]) % 8 == 0 by {
            if i < a.len() {
                assert((a + b)[i] == a[i]);
            } else {
                assert((a + b)[i] == b[i - a.len()]);
            }
        }
    }
}

proof fn lemma_promoting_all(n: Node, gt: GenType)
    ensures
        pawn_list(n, n.promoting(gt)),
        forall|i: int|
            0 <= i < n.promoting(gt).len() ==> (#[trigger] n.promoting(gt)[i]).kind()
                == MoveType::Promotion,
{
    let r = movegen::right_of(n.stm);
    let l = movegen::left_of(n.stm);
    let u = Direction::forward(n.stm);
    let q1 = |t: int| movegen::pawn_arrives(n.b, n.stm, r, true, t) && n.prey(gt, t);
    let q2 = |t: int| movegen::pawn_arrives(n.b, n.stm, l, true, t) && n.prey(gt, t);
    let q3 = |t: int|
        movegen::pawn_arrives(n.b, n.stm, u, true, t) && n.b[t] == Piece::NONE && n.push_counts(
            gt,
            t,
        );
    lemma_promoting_distinct(n, gt, true, r, q1);
    lemma_promoting_distinct(n, gt, true, l, q2);
    lemma_promoting_distinct(n, gt, false, u, q3);
    let a = movegen::promotions_by(gt, true, r.delta(), movegen::squares(q1));
    let b = movegen::promotions_by(gt, true, l.delta(), movegen::squares(q2));
    let c = movegen::promotions_by(gt, false, u.delta(), movegen::squares(q3));
    lemma_pawn_lists(n, a, b, |m: Move| step(m) == r.delta());
    assert forall|i: int| 0 <= i < (a + b).len() implies (#[trigger] (a + b)[i]).kind()
        == MoveType::Promotion && step((a + b)[i]) != u.delta() by {
        if i < a.len() {
            assert((a + b)[i] == a[i]);
        } else {
            assert((a + b)[i] == b[i - a.len()]);
        }
    }
    lemma_pawn_lists(n, a + b, c, |m: Move| step(m) != u.delta());
    let s = a + b + c;
    assert forall|i: int| 0 <= i < s.len() implies (#[trigger] s[i]).kind()
        == MoveType::Promotion by {
        if i < (a + b).len() {
            assert(s[i] == (a + b)[i]);
        } else {
            assert(s[i] == c[i - (a + b).len()]);
        }
    }
}

proof fn lemma_ep_distinct(n: Node, gt: GenType)
    ensures
        pawn_list(n, n.en_passant(gt)),
        forall|i: int|
            0 <= i < n.en_passant(gt).len() ==> (#[trigger] n.en_passant(gt)[i]).kind()
                == MoveType::EnPassant,
{
    broadcast use Square::lemma_idx;

    if let SquareOrNone::At(e) = n.ep {
        let q = |s: int|
            bitboard::pawn_hits(n.stm.opp(), e.idx(), s) && n.b[s] == Piece::of(
                n.stm,
                PieceType::Pawn,
            ) && Square::rel_rank(s, n.stm) != 6;
        lemma_ascending(q, 0);
        legal_moves::lemma_squares_sound(q, 0);
        let froms = movegen::squares(q);
        let s = movegen::ep_captures(e.idx(), froms);
        assert forall|i: int| 0 <= i < s.len() implies (#[trigger] s[i]).kind()
            == MoveType::EnPassant && s[i].src() == froms[i] && q(froms[i]) by {
            assert(s[i] == Move::pack(MoveType::EnPassant, froms[i], e.idx(), PieceType::Knight));
            assert(q(froms[i]));
            legal_moves::lemma_pack(MoveType::EnPassant, froms[i], e.idx(), PieceType::Knight);
        }
        assert forall|i: int, j: int| 0 <= i < s.len() && 0 <= j < s.len() && i != j implies s[i]
            != s[j] by {
            assert(s[i].src() == froms[i] && s[j].src() == froms[j]);
        }
    }
}

proof fn lemma_captures_distinct(n: Node, gt: GenType)
    ensures
        pawn_list(n, n.pawn_captures(gt)),
        forall|i: int|
            0 <= i < n.pawn_captures(gt).len() ==> {
                let m = #[trigger] n.pawn_captures(gt)[i];
                m.kind() == MoveType::EnPassant || (m.kind() == MoveType::Normal && step(m) % 8
                    != 0)
            },
{
    let r = movegen::right_of(n.stm);
    let l = movegen::left_of(n.stm);
    if gt != GenType::Quiets {
        let q1 = |t: int| movegen::pawn_arrives(n.b, n.stm, r, false, t) && n.prey(gt, t);
        let q2 = |t: int| movegen::pawn_arrives(n.b, n.stm, l, false, t) && n.prey(gt, t);
        let a = movegen::moves_by(r.delta(), movegen::squares(q1));
        let b = movegen::moves_by(l.delta(), movegen::squares(q2));
        let e = n.en_passant(gt);
        lemma_by_distinct(r.delta(), q1);
        lemma_by_fields(r.delta(), q1);
        lemma_by_distinct(l.delta(), q2);
        lemma_by_fields(l.delta(), q2);
        lemma_ep_distinct(n, gt);
        lemma_pawn_lists(n, a, b, |m: Move| step(m) == r.delta());
        assert forall|i: int| 0 <= i < (a + b).len() implies (#[trigger] (a + b)[i]).kind()
            == MoveType::Normal && step((a + b)[i]) % 8 != 0 by {
            if i < a.len() {
                assert((a + b)[i] == a[i]);
            } else {
                assert((a + b)[i] == b[i - a.len()]);
            }
        }
        lemma_pawn_lists(n, a + b, e, |m: Move| m.kind() == MoveType::Normal);
        let s = a + b + e;
        assert forall|i: int| 0 <= i < s.len() implies {
            let m = #[trigger] s[i];
            m.kind() == MoveType::EnPassant || (m.kind() == MoveType::Normal && step(m) % 8 != 0)
        } by {
            if i < (a + b).len() {
                assert(s[i] == (a + b)[i]);
            } else {
                assert(s[i] == e[i - (a + b).len()]);
            }
        }
    }
}

proof fn lemma_pawns_distinct(n: Node, gt: GenType)
    ensures
        pawn_list(n, n.pawn_moves(gt)),
{
    let a = n.pushes(gt);
    let b = n.promoting(gt);
    let c = n.pawn_captures(gt);
    lemma_pushes_distinct(n, gt);
    lemma_promoting_all(n, gt);
    lemma_captures_distinct(n, gt);
    lemma_pawn_lists(n, a, b, |m: Move| m.kind() == MoveType::Normal);
    let p = |m: Move|
        m.kind() == MoveType::Promotion || (m.kind() == MoveType::Normal && step(m) % 8 == 0);
    assert forall|i: int| 0 <= i < (a + b).len() implies p(#[trigger] (a + b)[i]) by {
        if i < a.len() {
            assert((a + b)[i] == a[i]);
        } else {
            assert((a + b)[i] == b[i - a.len()]);
        }
    }
    lemma_pawn_lists(n, a + b, c, p);
}

proof fn lemma_steps_distinct(n: Node, gt: GenType, pt: PieceType, froms: Seq<int>)
    requires
        forall|k: int| 0 <= k < froms.len() ==> 0 <= #[trigger] froms[k] < 64,
        forall|k: int, l: int| 0 <= k < l < froms.len() ==> froms[k] < froms[l],
    ensures
        n.steps_of(gt, pt, froms).no_duplicates(),
        forall|i: int|
            0 <= i < n.steps_of(gt, pt, froms).len() ==> {
                let m = #[trigger] n.steps_of(gt, pt, froms)[i];
                m.kind() == MoveType::Normal && froms.contains(m.src())
            },
    decreases froms.len(),
{
    let all = n.steps_of(gt, pt, froms);
    if froms.len() > 0 {
        let rest = froms.drop_first();
        assert forall|k: int| 0 <= k < rest.len() implies 0 <= #[trigger] rest[k] < 64 by {
            assert(rest[k] == froms[k + 1]);
        }
        lemma_steps_distinct(n, gt, pt, rest);
        let s = froms[0];
        let q = |t: int| attacks::hits(n.stm, pt, placement::occ(n.b), s, t) && n.target(gt, t);
        lemma_from_distinct(s, q);
        legal_moves::lemma_squares_sound(q, 0);
        let tos = movegen::squares(q);
        let here = n.piece_steps(gt, pt, s);
        let more = n.steps_of(gt, pt, rest);
        assert forall|i: int| 0 <= i < here.len() implies (#[trigger] here[i]).kind()
            == MoveType::Normal && here[i].src() == s by {
            assert(here[i] == movegen::plain(s, tos[i]));
            legal_moves::lemma_pack(MoveType::Normal, s, tos[i], PieceType::Knight);
        }
        let p = |m: Move| m.src() == s;
        assert forall|i: int| 0 <= i < more.len() implies !p(#[trigger] more[i]) by {
            let k = choose|k: int| 0 <= k < rest.len() && rest[k] == more[i].src();
            assert(rest[k] == froms[k + 1]);
        }
        lemma_apart(here, more, p);
        assert forall|i: int| 0 <= i < all.len() implies {
            let m = #[trigger] all[i];
            m.kind() == MoveType::Normal && froms.contains(m.src())
        } by {
            if i < here.len() {
                assert(all[i] == here[i]);
                assert(froms[0] == all[i].src());
            } else {
                assert(all[i] == more[i - here.len()]);
                let k = choose|k: int| 0 <= k < rest.len() && rest[k] == all[i].src();
                assert(froms[k + 1] == all[i].src());
            }
        }
    }
}

/// The list holds moves of pieces of one kind, none of them twice.
spec fn kind_list(n: Node, s: Seq<Move>, pt: PieceType) -> bool {
    &&& s.no_duplicates()
    &&& forall|i: int|
        0 <= i < s.len() ==> n.b[(#[trigger] s[i]).src()].kind() == pt && s[i].kind()
            == MoveType::Normal
}

proof fn lemma_pieces_distinct(n: Node, gt: GenType, pt: PieceType)
    requires
        pt != PieceType::NoType,
    ensures
        kind_list(n, n.piece_moves(gt, pt), pt),
{
    let q = |s: int| n.b[s] == Piece::of(n.stm, pt);
    lemma_ascending(q, 0);
    legal_moves::lemma_squares_sound(q, 0);
    let froms = movegen::squares(q);
    lemma_steps_distinct(n, gt, pt, froms);
    let s = n.piece_moves(gt, pt);
    assert forall|i: int| 0 <= i < s.len() implies n.b[(#[trigger] s[i]).src()].kind() == pt
        && s[i].kind() == MoveType::Normal by {
        let k = choose|k: int| 0 <= k < froms.len() && froms[k] == s[i].src();
        assert(q(froms[k]));
    }
}

proof fn lemma_king_distinct(n: Node, gt: GenType)
    requires
        placement::is_king_square(n.b, n.stm, placement::king(n.b, n.stm)),
    ensures
        kind_list(n, n.king_moves(gt), PieceType::King),
{
    let k = placement::king(n.b, n.stm);
    let q = |t: int| bitboard::king_hits(k, t) && movegen::wanted(n.b, n.stm, gt, t);
    lemma_from_distinct(k, q);
    legal_moves::lemma_squares_sound(q, 0);
    let tos = movegen::squares(q);
    let s = n.king_moves(gt);
    assert forall|i: int| 0 <= i < s.len() implies n.b[(#[trigger] s[i]).src()].kind()
        == PieceType::King && s[i].kind() == MoveType::Normal by {
        assert(s[i] == movegen::plain(k, tos[i]));
        legal_moves::lemma_pack(MoveType::Normal, k, tos[i], PieceType::Knight);
    }
}

proof fn lemma_castling_distinct(n: Node, gt: GenType)
    requires
        placement::is_king_square(n.b, n.stm, placement::king(n.b, n.stm)),
        n.castling.wf(n.b, n.rights),
    ensures
        n.castling_moves(gt).no_duplicates(),
        forall|i: int|
            0 <= i < n.castling_moves(gt).len() ==> (#[trigger] n.castling_moves(gt)[i]).kind()
                == MoveType::Castling,
{
    broadcast use Square::lemma_idx;

    let k = placement::king(n.b, n.stm);
    assert forall|ks: bool, i: int| 0 <= i < n.castle_move(ks).len() implies {
        let m = #[trigger] n.castle_move(ks)[i];
        m.kind() == MoveType::Castling && (m.dst() > k) == ks
    } by {
        let cr = CastlingRights::wing(n.stm, ks);
        assert(n.castling.right_wf(n.b, n.stm, ks));
        let r = n.castling.rook_square@[cr.nibble()]->At_0.idx();
        legal_moves::lemma_pack(MoveType::Castling, k, r, PieceType::Knight);
    }
    lemma_apart(n.castle_move(true), n.castle_move(false), |m: Move| m.dst() > k);
    let s = n.castle_move(true) + n.castle_move(false);
    assert forall|i: int| 0 <= i < s.len() implies (#[trigger] s[i]).kind()
        == MoveType::Castling by {
        if i < n.castle_move(true).len() {
            assert(s[i] == n.castle_move(true)[i]);
        } else {
            assert(s[i] == n.castle_move(false)[i - n.castle_move(true).len()]);
        }
    }
}

/// No move of the list is of one of the kinds from `pt` on.
spec fn none_from(n: Node, s: Seq<Move>, pt: int) -> bool {
    &&& s.no_duplicates()
    &&& forall|i: int|
        0 <= i < s.len() ==> n.b[(#[trigger] s[i]).src()].kind().idx() < pt && s[i].kind()
            != MoveType::Castling
}

proof fn lemma_add_kind(n: Node, a: Seq<Move>, b: Seq<Move>, pt: PieceType)
    requires
        none_from(n, a, pt.idx()),
        kind_list(n, b, pt),
    ensures
        none_from(n, a + b, pt.idx() + 1),
{
    lemma_apart(a, b, |m: Move| n.b[m.src()].kind().idx() < pt.idx());
    assert forall|i: int| 0 <= i < (a + b).len() implies n.b[(#[trigger] (a + b)[i]).src()].kind().idx()
        < pt.idx() + 1 && (a + b)[i].kind() != MoveType::Castling by {
        if i < a.len() {
            assert((a + b)[i] == a[i]);
        } else {
            assert((a + b)[i] == b[i - a.len()]);
        }
    }
}

/// No move is generated twice.
pub proof fn law_generated_moves_are_distinct(n: Node, gt: GenType)
    requires
        placement::clean(n.b),
        placement::kings(n.b),
        n.castling.wf(n.b, n.rights),
    ensures
        n.pseudo(gt).no_duplicates(),
{
    placement::lemma_king(n.b, n.stm);
    lemma_king_distinct(n, gt);
    if n.checkers.members().len() < 2 {
        let p0 = n.pawn_moves(gt);
        let p1 = n.piece_moves(gt, PieceType::Knight);
        let p2 = n.piece_moves(gt, PieceType::Bishop);
        let p3 = n.piece_moves(gt, PieceType::Rook);
        let p4 = n.piece_moves(gt, PieceType::Queen);
        let p5 = n.king_moves(gt);
        let p6 = n.castling_moves(gt);
        lemma_pawns_distinct(n, gt);
        lemma_no_castling(n, gt);
        lemma_pieces_distinct(n, gt, PieceType::Knight);
        lemma_pieces_distinct(n, gt, PieceType::Bishop);
        lemma_pieces_distinct(n, gt, PieceType::Rook);
        lemma_pieces_distinct(n, gt, PieceType::Queen);
        lemma_castling_distinct(n, gt);
        lemma_add_kind(n, p0, p1, PieceType::Knight);
        lemma_add_kind(n, p0 + p1, p2, PieceType::Bishop);
        lemma_add_kind(n, p0 + p1 + p2, p3, PieceType::Rook);
        lemma_add_kind(n, p0 + p1 + p2 + p3, p4, PieceType::Queen);
        lemma_add_kind(n, p0 + p1 + p2 + p3 + p4, p5, PieceType::King);
        lemma_apart(
            p0 + p1 + p2 + p3 + p4 + p5,
            p6,
            |m: Move| m.kind() != MoveType::Castling,
        );
    }
}

/// A pawn does not castle.
proof fn lemma_no_castling(n: Node, gt: GenType)
    ensures
        none_from(n, n.pawn_moves(gt), PieceType::Knight.idx()),
{
    let a = n.pushes(gt);
    let b = n.promoting(gt);
    let c = n.pawn_captures(gt);
    lemma_pushes_distinct(n, gt);
    lemma_promoting_all(n, gt);
    lemma_captures_distinct(n, gt);
    lemma_pawns_distinct(n, gt);
    let s = n.pawn_moves(gt);
    assert forall|i: int| 0 <= i < s.len() implies n.b[(#[trigger] s[i]).src()].kind().idx()
        < PieceType::Knight.idx() && s[i].kind() != MoveType::Castling by {
        if i < a.len() {
            assert(s[i] == a[i]);
        } else if i < (a + b).len() {
            assert(s[i] == b[i - a.len()]);
        } else {
            assert(s[i] == c[i - (a + b).len()]);
        }
        assert(n.b[s[i].src()] == Piece::of(n.stm, PieceType::Pawn));
    }
}

/// Taking moves out of a list leaves no move twice.
proof fn lemma_sift_distinct(n: Node, s: Seq<Move>, cur: int)
    requires
        s.no_duplicates(),
        0 <= cur <= s.len(),
    ensures
        n.sift(s, cur).no_duplicates(),
    decreases s.len() - cur,
{
    if cur < s.len() {
        if n.rejects(s[cur]) {
            let t = s.update(cur, s.last()).drop_last();
            assert forall|i: int, j: int|
                0 <= i < t.len() && 0 <= j < t.len() && i != j implies t[i] != t[j] by {
                let x = if i == cur {
                    s.len() - 1
                } else {
                    i
                };
                let y = if j == cur {
                    s.len() - 1
                } else {
                    j
                };
                assert(t[i] == s[x] && t[j] == s[y]);
            }
            lemma_sift_distinct(n, t, cur);
        } else {
            lemma_sift_distinct(n, s, cur + 1);
        }
    }
}

/// No legal move is listed twice.
pub proof fn law_legal_moves_are_distinct(n: Node)
    requires
        placement::clean(n.b),
        placement::kings(n.b),
        n.castling.wf(n.b, n.rights),
    ensures
        n.legal_moves().no_duplicates(),
{
    law_generated_moves_are_distinct(n, n.full_kind());
    lemma_sift_distinct(n, n.pseudo(n.full_kind()), 0);
}

} // verus!
