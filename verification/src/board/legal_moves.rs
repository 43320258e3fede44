//! The legal moves of a position, and what is built on them: move counts, notation and the
//! check of a move that comes from elsewhere.

use vstd::prelude::*;
use crate::board::attacks::{between_bb, piece_attacks};
use crate::board::attacks;
use crate::board::bitboard::pawn_attacks_from;
use crate::board::bitboard;
use crate::board::bits;
use crate::board::legality;
use crate::board::movegen::{generate, GenType, MoveList, Node};
use crate::board::movegen;
use crate::board::placement;
use crate::board::position::Position;
use crate::board::position;
use crate::board::state;
use crate::board::tally;
use crate::board::transition::castle_squares;
use crate::board::transition;
use crate::board::types::{
    CastlingRights, Direction, Move, MoveType, Piece, PieceType, Square, SquareOrNone,
};

verus! {

// ---------------------------------------------------------------------------
// The members of the generated sequence
// ---------------------------------------------------------------------------

/// The fields of a packed move read back as they were packed.
pub proof fn lemma_pack(ty: MoveType, from: int, to: int, promo: PieceType)
    requires
        0 <= from < 64,
        0 <= to < 64,
        2 <= promo.idx() <= 5,
    ensures
        Move::pack(ty, from, to, promo).src() == from,
        Move::pack(ty, from, to, promo).dst() == to,
        Move::pack(ty, from, to, promo).kind() == ty,
        Move::pack(ty, from, to, promo).promo() == promo,
{
}

/// Every listed square satisfies the predicate.
pub proof fn lemma_squares_sound(p: spec_fn(int) -> bool, i: int)
    requires
        0 <= i <= 64,
    ensures
        forall|k: int|
            0 <= k < movegen::squares_from(p, i).len() ==> i <= #[trigger] movegen::squares_from(p, i)[k] < 64
                && p(movegen::squares_from(p, i)[k]),
    decreases 64 - i,
{
    if i < 64 {
        lemma_squares_sound(p, i + 1);
        let tail = movegen::squares_from(p, i + 1);
        let all = movegen::squares_from(p, i);
        if p(i) {
            assert forall|k: int| 0 <= k < all.len() implies i <= #[trigger] all[k] < 64 && p(all[k]) by {
                if k > 0 {
                    assert(all[k] == tail[k - 1]);
                }
            }
        }
    }
}

/// Every move of the sequence satisfies the predicate.
pub open spec fn each(s: Seq<Move>, p: spec_fn(Move) -> bool) -> bool {
    forall|i: int| 0 <= i < s.len() ==> p(#[trigger] s[i])
}

proof fn lemma_each_add(a: Seq<Move>, b: Seq<Move>, p: spec_fn(Move) -> bool)
    requires
        each(a, p),
        each(b, p),
    ensures
        each(a + b, p),
{
    assert forall|i: int| 0 <= i < (a + b).len() implies p(#[trigger] (a + b)[i]) by {
        if i < a.len() {
            assert(p(a[i]));
        } else {
            assert(p(b[i - a.len()]));
        }
    }
}

/// A property of every plain move from `from` to a square of a set.
proof fn lemma_each_from(from: int, q: spec_fn(int) -> bool, p: spec_fn(Move) -> bool)
    requires
        forall|t: int| 0 <= t < 64 && #[trigger] q(t) ==> p(movegen::plain(from, t)),
    ensures
        each(movegen::moves_from(from, movegen::squares(q)), p),
{
    lemma_squares_sound(q, 0);
    let tos = movegen::squares(q);
    let s = movegen::moves_from(from, tos);
    assert forall|i: int| 0 <= i < s.len() implies p(#[trigger] s[i]) by {
        assert(s[i] == movegen::plain(from, tos[i]));
        assert(0 <= tos[i] < 64 && q(tos[i]));
    }
}

/// A property of every plain move that steps by `d` onto a square of a set.
proof fn lemma_each_by(d: int, q: spec_fn(int) -> bool, p: spec_fn(Move) -> bool)
    requires
        forall|t: int| 0 <= t < 64 && #[trigger] q(t) ==> p(movegen::plain(t - d, t)),
    ensures
        each(movegen::moves_by(d, movegen::squares(q)), p),
{
    lemma_squares_sound(q, 0);
    let tos = movegen::squares(q);
    let s = movegen::moves_by(d, tos);
    assert forall|i: int| 0 <= i < s.len() implies p(#[trigger] s[i]) by {
        assert(s[i] == movegen::plain(tos[i] - d, tos[i]));
        assert(0 <= tos[i] < 64 && q(tos[i]));
    }
}

/// A property of every promotion from `from` to `to`.
pub open spec fn each_promotion(from: int, to: int, p: spec_fn(Move) -> bool) -> bool {
    &&& p(Move::pack(MoveType::Promotion, from, to, PieceType::Queen))
    &&& p(Move::pack(MoveType::Promotion, from, to, PieceType::Rook))
    &&& p(Move::pack(MoveType::Promotion, from, to, PieceType::Bishop))
    &&& p(Move::pack(MoveType::Promotion, from, to, PieceType::Knight))
}

proof fn lemma_each_promotions(
    gt: GenType,
    cap: bool,
    d: int,
    tos: Seq<int>,
    p: spec_fn(Move) -> bool,
)
    requires
        forall|k: int| 0 <= k < tos.len() ==> each_promotion((#[trigger] tos[k]) - d, tos[k], p),
    ensures
        each(movegen::promotions_by(gt, cap, d, tos), p),
    decreases tos.len(),
{
    if tos.len() > 0 {
        let rest = tos.drop_first();
        assert forall|k: int| 0 <= k < rest.len() implies each_promotion(
            (#[trigger] rest[k]) - d,
            rest[k],
            p,
        ) by {
            assert(rest[k] == tos[k + 1]);
        }
        lemma_each_promotions(gt, cap, d, rest, p);
        assert(each_promotion(tos[0] - d, tos[0], p));
        assert(each(movegen::promotions(gt, cap, tos[0] - d, tos[0]), p));
        lemma_each_add(
            movegen::promotions(gt, cap, tos[0] - d, tos[0]),
            movegen::promotions_by(gt, cap, d, rest),
            p,
        );
    }
}

/// A property of every promotion that steps by `d` onto a square of a set.
proof fn lemma_each_promoting(
    gt: GenType,
    cap: bool,
    d: int,
    q: spec_fn(int) -> bool,
    p: spec_fn(Move) -> bool,
)
    requires
        forall|t: int| 0 <= t < 64 && #[trigger] q(t) ==> each_promotion(t - d, t, p),
    ensures
        each(movegen::promotions_by(gt, cap, d, movegen::squares(q)), p),
{
    lemma_squares_sound(q, 0);
    let tos = movegen::squares(q);
    assert forall|k: int| 0 <= k < tos.len() implies each_promotion((#[trigger] tos[k]) - d, tos[k], p) by {
        assert(q(tos[k]));
    }
    lemma_each_promotions(gt, cap, d, tos, p);
}

/// A property of every move of the pieces of one type.
proof fn lemma_each_piece(n: Node, gt: GenType, pt: PieceType, p: spec_fn(Move) -> bool)
    requires
        forall|s: int, t: int|
            0 <= s < 64 && 0 <= t < 64 && n.b[s] == Piece::of(n.stm, pt) && #[trigger] attacks::hits(
                n.stm,
                pt,
                placement::occ(n.b),
                s,
                t,
            ) && n.target(gt, t) ==> p(movegen::plain(s, t)),
    ensures
        each(n.piece_moves(gt, pt), p),
{
    let q = |s: int| n.b[s] == Piece::of(n.stm, pt);
    lemma_squares_sound(q, 0);
    lemma_each_steps(n, gt, pt, movegen::squares(q), p);
}

proof fn lemma_each_steps(
    n: Node,
    gt: GenType,
    pt: PieceType,
    froms: Seq<int>,
    p: spec_fn(Move) -> bool,
)
    requires
        forall|k: int|
            0 <= k < froms.len() ==> 0 <= #[trigger] froms[k] < 64 && n.b[froms[k]] == Piece::of(
                n.stm,
                pt,
            ),
        forall|s: int, t: int|
            0 <= s < 64 && 0 <= t < 64 && n.b[s] == Piece::of(n.stm, pt) && #[trigger] attacks::hits(
                n.stm,
                pt,
                placement::occ(n.b),
                s,
                t,
            ) && n.target(gt, t) ==> p(movegen::plain(s, t)),
    ensures
        each(n.steps_of(gt, pt, froms), p),
    decreases froms.len(),
{
    if froms.len() > 0 {
        let rest = froms.drop_first();
        assert forall|k: int| 0 <= k < rest.len() implies 0 <= #[trigger] rest[k] < 64 && n.b[rest[k]]
            == Piece::of(n.stm, pt) by {
            assert(rest[k] == froms[k + 1]);
        }
        lemma_each_steps(n, gt, pt, rest, p);
        let s = froms[0];
        lemma_each_from(
            s,
            |t: int|
                attacks::hits(n.stm, pt, placement::occ(n.b), s, t) && n.target(gt, t),
            p,
        );
        lemma_each_add(n.piece_steps(gt, pt, s), n.steps_of(gt, pt, rest), p);
    }
}

/// An en-passant capture names the target of the position.
pub open spec fn ep_named(n: Node, m: Move) -> bool {
    m.kind() == MoveType::EnPassant ==> (n.ep matches SquareOrNone::At(e) && e.idx() == m.dst())
}

/// A property of every pseudo-legal move, from the property of every kind of move.
proof fn lemma_each_pseudo(n: Node, gt: GenType, p: spec_fn(Move) -> bool)
    requires
        each(n.pawn_moves(gt), p),
        each(n.piece_moves(gt, PieceType::Knight), p),
        each(n.piece_moves(gt, PieceType::Bishop), p),
        each(n.piece_moves(gt, PieceType::Rook), p),
        each(n.piece_moves(gt, PieceType::Queen), p),
        each(n.king_moves(gt), p),
        each(n.castling_moves(gt), p),
    ensures
        each(n.pseudo(gt), p),
{
    let a = n.pawn_moves(gt);
    let b = a + n.piece_moves(gt, PieceType::Knight);
    let c = b + n.piece_moves(gt, PieceType::Bishop);
    let d = c + n.piece_moves(gt, PieceType::Rook);
    let e = d + n.piece_moves(gt, PieceType::Queen);
    let f = e + n.king_moves(gt);
    lemma_each_add(a, n.piece_moves(gt, PieceType::Knight), p);
    lemma_each_add(b, n.piece_moves(gt, PieceType::Bishop), p);
    lemma_each_add(c, n.piece_moves(gt, PieceType::Rook), p);
    lemma_each_add(d, n.piece_moves(gt, PieceType::Queen), p);
    lemma_each_add(e, n.king_moves(gt), p);
    lemma_each_add(f, n.castling_moves(gt), p);
}

/// What the kinds of pawn move have in common with a predicate carries over to all of them.
proof fn lemma_each_pawn(n: Node, gt: GenType, p: spec_fn(Move) -> bool)
    requires
        each(n.pushes(gt), p),
        each(n.promoting(gt), p),
        each(n.pawn_captures(gt), p),
    ensures
        each(n.pawn_moves(gt), p),
{
    lemma_each_add(n.pushes(gt), n.promoting(gt), p);
    lemma_each_add(n.pushes(gt) + n.promoting(gt), n.pawn_captures(gt), p);
}

/// Every kind of move that generation can produce satisfies the predicate.
pub open spec fn each_kind(n: Node, gt: GenType, p: spec_fn(Move) -> bool) -> bool {
    let u = Direction::forward(n.stm).delta();
    &&& forall|t: int|
        0 <= t < 64 && #[trigger] n.single_push(t) && n.push_counts(gt, t) ==> p(
            movegen::plain(t - u, t),
        )
    &&& forall|t: int|
        0 <= t < 64 && #[trigger] n.double_push(t) && n.push_counts(gt, t) ==> p(
            movegen::plain(t - 2 * u, t),
        )
    &&& forall|d: Direction, t: int|
        0 <= t < 64 && (d == movegen::right_of(n.stm) || d == movegen::left_of(n.stm))
            && #[trigger] movegen::pawn_arrives(n.b, n.stm, d, true, t) && n.prey(gt, t)
            ==> each_promotion(t - d.delta(), t, p)
    &&& forall|t: int|
        0 <= t < 64 && #[trigger] movegen::pawn_arrives(
            n.b,
            n.stm,
            Direction::forward(n.stm),
            true,
            t,
        ) && n.b[t] == Piece::NONE && n.push_counts(gt, t) ==> each_promotion(t - u, t, p)
    &&& forall|d: Direction, t: int|
        0 <= t < 64 && (d == movegen::right_of(n.stm) || d == movegen::left_of(n.stm))
            && #[trigger] movegen::pawn_arrives(n.b, n.stm, d, false, t) && n.prey(gt, t) ==> p(
            movegen::plain(t - d.delta(), t),
        )
    &&& n.ep matches SquareOrNone::At(e) ==> forall|s: int|
        0 <= s < 64 && bitboard::pawn_hits(n.stm.opp(), e.idx(), s) && n.b[s] == Piece::of(
            n.stm,
            PieceType::Pawn,
        ) && Square::rel_rank(s, n.stm) != 6 ==> p(
            #[trigger] Move::pack(MoveType::EnPassant, s, e.idx(), PieceType::Knight),
        )
    &&& forall|pt: PieceType, s: int, t: int|
        (pt == PieceType::Knight || pt == PieceType::Bishop || pt == PieceType::Rook || pt
            == PieceType::Queen) && 0 <= s < 64 && 0 <= t < 64 && n.b[s] == Piece::of(n.stm, pt)
            && #[trigger] attacks::hits(n.stm, pt, placement::occ(n.b), s, t) && n.target(gt, t)
            ==> p(movegen::plain(s, t))
    &&& forall|t: int|
        0 <= t < 64 && #[trigger] bitboard::king_hits(placement::king(n.b, n.stm), t)
            && movegen::not_own(n.b, n.stm, t) ==> p(
            movegen::plain(placement::king(n.b, n.stm), t),
        )
    &&& forall|ks: bool, r: Square|
        !n.in_check() && n.castle_open(ks) && n.castling.rook_square@[CastlingRights::wing(n.stm, ks).nibble()]
            == SquareOrNone::At(r) ==> p(#[trigger] castle_with(n, ks, r))
}

/// A predicate that holds of every kind of move holds of every pseudo-legal move.
pub proof fn lemma_each_generated(n: Node, gt: GenType, p: spec_fn(Move) -> bool)
    requires
        n.castling.wf(n.b, n.rights),
        each_kind(n, gt, p),
    ensures
        each(n.pseudo(gt), p),
{
    let u = Direction::forward(n.stm);
    let r = movegen::right_of(n.stm);
    let l = movegen::left_of(n.stm);
    if gt != GenType::Captures {
        lemma_each_by(
            u.delta(),
            |t: int| n.single_push(t) && n.push_counts(gt, t),
            p,
        );
        lemma_each_by(
            2 * u.delta(),
            |t: int| n.double_push(t) && n.push_counts(gt, t),
            p,
        );
        lemma_each_add(
            movegen::moves_by(
                u.delta(),
                movegen::squares(|t: int| n.single_push(t) && n.push_counts(gt, t)),
            ),
            movegen::moves_by(
                2 * u.delta(),
                movegen::squares(|t: int| n.double_push(t) && n.push_counts(gt, t)),
            ),
            p,
        );
    }
    lemma_each_promoting(
        gt,
        true,
        r.delta(),
        |t: int| movegen::pawn_arrives(n.b, n.stm, r, true, t) && n.prey(gt, t),
        p,
    );
    lemma_each_promoting(
        gt,
        true,
        l.delta(),
        |t: int| movegen::pawn_arrives(n.b, n.stm, l, true, t) && n.prey(gt, t),
        p,
    );
    lemma_each_promoting(
        gt,
        false,
        u.delta(),
        |t: int|
            movegen::pawn_arrives(n.b, n.stm, u, true, t) && n.b[t] == Piece::NONE && n.push_counts(
                gt,
                t,
            ),
        p,
    );
    assert(each(n.promoting(gt), p));
    if gt != GenType::Quiets {
        lemma_each_by(
            r.delta(),
            |t: int| movegen::pawn_arrives(n.b, n.stm, r, false, t) && n.prey(gt, t),
            p,
        );
        lemma_each_by(
            l.delta(),
            |t: int| movegen::pawn_arrives(n.b, n.stm, l, false, t) && n.prey(gt, t),
            p,
        );
        lemma_each_ep(n, gt, p);
        assert(each(n.pawn_captures(gt), p));
    }
    lemma_each_pawn(n, gt, p);
    lemma_each_piece(n, gt, PieceType::Knight, p);
    lemma_each_piece(n, gt, PieceType::Bishop, p);
    lemma_each_piece(n, gt, PieceType::Rook, p);
    lemma_each_piece(n, gt, PieceType::Queen, p);
    let k = placement::king(n.b, n.stm);
    lemma_each_from(
        k,
        |t: int| bitboard::king_hits(k, t) && movegen::wanted(n.b, n.stm, gt, t),
        p,
    );
    lemma_each_from(
        k,
        |t: int|
            bitboard::king_hits(k, t) && movegen::wanted(n.b, n.stm, GenType::NonEvasions, t),
        p,
    );
    lemma_each_castle(n, p);
    if !n.in_check() {
        lemma_each_add(n.castle_move(true), n.castle_move(false), p);
    }
    lemma_each_pseudo(n, gt, p);
}

/// Every generated en-passant capture names the target of the position.
pub proof fn lemma_ep_named(n: Node, gt: GenType)
    requires
        0 <= placement::king(n.b, n.stm) < 64,
        n.castling.wf(n.b, n.rights),
    ensures
        each(n.pseudo(gt), |m: Move| ep_named(n, m)),
{
    broadcast use Square::lemma_idx;

    let p = |m: Move| ep_named(n, m);
    assert forall|s: int, t: int| 0 <= s < 64 && 0 <= t < 64 implies p(#[trigger] movegen::plain(s, t)) by {
        lemma_pack(MoveType::Normal, s, t, PieceType::Knight);
    }
    assert forall|s: int, t: int| 0 <= s < 64 && 0 <= t < 64 implies #[trigger] each_promotion(s, t, p) by {
        lemma_pack(MoveType::Promotion, s, t, PieceType::Queen);
        lemma_pack(MoveType::Promotion, s, t, PieceType::Rook);
        lemma_pack(MoveType::Promotion, s, t, PieceType::Bishop);
        lemma_pack(MoveType::Promotion, s, t, PieceType::Knight);
    }
    assert(each_kind(n, gt, p));
    lemma_each_generated(n, gt, p);
}

proof fn lemma_each_ep(n: Node, gt: GenType, p: spec_fn(Move) -> bool)
    requires
        n.ep matches SquareOrNone::At(e) ==> forall|s: int|
            0 <= s < 64 && bitboard::pawn_hits(n.stm.opp(), e.idx(), s) && n.b[s] == Piece::of(
                n.stm,
                PieceType::Pawn,
            ) && Square::rel_rank(s, n.stm) != 6 ==> p(
                #[trigger] Move::pack(MoveType::EnPassant, s, e.idx(), PieceType::Knight),
            ),
    ensures
        each(n.en_passant(gt), p),
{
    if let SquareOrNone::At(e) = n.ep {
        let q = |s: int|
            bitboard::pawn_hits(n.stm.opp(), e.idx(), s) && n.b[s] == Piece::of(
                n.stm,
                PieceType::Pawn,
            ) && Square::rel_rank(s, n.stm) != 6;
        lemma_squares_sound(q, 0);
        let froms = movegen::squares(q);
        let s = movegen::ep_captures(e.idx(), froms);
        assert forall|i: int| 0 <= i < s.len() implies p(#[trigger] s[i]) by {
            assert(s[i] == Move::pack(MoveType::EnPassant, froms[i], e.idx(), PieceType::Knight));
            assert(q(froms[i]));
        }
    }
}

proof fn lemma_each_castle(n: Node, p: spec_fn(Move) -> bool)
    requires
        n.castling.wf(n.b, n.rights),
        forall|ks: bool, r: Square|
            !n.in_check() && n.castle_open(ks) && n.castling.rook_square@[CastlingRights::wing(n.stm, ks).nibble()]
                == SquareOrNone::At(r) ==> p(
                #[trigger] castle_with(n, ks, r),
            ),
    ensures
        !n.in_check() ==> each(n.castle_move(true), p),
        !n.in_check() ==> each(n.castle_move(false), p),
{
    assert forall|ks: bool| !n.in_check() && n.castle_open(ks) implies each(#[trigger] n.castle_move(ks), p) by {
        let cr = CastlingRights::wing(n.stm, ks);
        assert(n.castling.right_wf(n.b, n.stm, ks));
        let r = n.castling.rook_square@[cr.nibble()]->At_0;
        assert(p(castle_with(n, ks, r)));
    }
}

/// The castling move of the side to move with the rook on `r`.
pub open spec fn castle_with(n: Node, king_side: bool, r: Square) -> Move {
    Move::pack(MoveType::Castling, placement::king(n.b, n.stm), r.idx(), PieceType::Knight)
}

// ---------------------------------------------------------------------------
// Legal moves
// ---------------------------------------------------------------------------

impl Node {
    /// `m` could be illegal, so that the test is worth running: a pinned piece, the king, or
    /// an en-passant capture moves. Everything else was generated legal.
    pub open spec fn needs_test(self, m: Move) -> bool {
        let k = placement::king(self.b, self.stm);
        ||| placement::blocker(self.b, self.stm.opp(), k, m.src()) && self.b[m.src()] != Piece::NONE
            && self.b[m.src()].side() == self.stm
        ||| m.src() == k
        ||| m.kind() == MoveType::EnPassant
    }

    /// The pseudo-legal move `m` is not legal.
    pub open spec fn rejects(self, m: Move) -> bool {
        self.needs_test(m) && !legality::is_legal(self.b, self.stm, self.chess960, m)
    }

    /// The kind of moves that the legal ones are chosen from.
    pub open spec fn full_kind(self) -> GenType {
        if self.in_check() {
            GenType::Evasions
        } else {
            GenType::NonEvasions
        }
    }

    /// The sequence with every rejected move from `cur` on removed: the last move of the
    /// sequence takes its place.
    pub open spec fn sift(self, s: Seq<Move>, cur: int) -> Seq<Move>
        decreases s.len() - cur,
    {
        if cur < 0 || cur >= s.len() {
            s
        } else if self.rejects(s[cur]) {
            self.sift(s.update(cur, s.last()).drop_last(), cur)
        } else {
            self.sift(s, cur + 1)
        }
    }

    /// The legal moves, in the order they are generated.
    pub open spec fn legal_moves(self) -> Seq<Move> {
        self.sift(self.pseudo(self.full_kind()), 0)
    }
}

/// Sifting keeps exactly the moves that are not rejected.
proof fn lemma_sift(n: Node, s: Seq<Move>, cur: int)
    requires
        0 <= cur <= s.len(),
        forall|i: int| 0 <= i < cur ==> !n.rejects(#[trigger] s[i]),
    ensures
        forall|m: Move| #[trigger]
            n.sift(s, cur).contains(m) <==> s.contains(m) && !n.rejects(m),
        n.sift(s, cur).len() <= s.len(),
    decreases s.len() - cur,
{
    if cur >= s.len() {
        assert forall|m: Move| #[trigger] n.sift(s, cur).contains(m) <==> s.contains(m) && !n.rejects(m) by {
            if s.contains(m) {
                let i = choose|i: int| 0 <= i < s.len() && s[i] == m;
                assert(!n.rejects(s[i]));
            }
        }
    } else if n.rejects(s[cur]) {
        let t = s.update(cur, s.last()).drop_last();
        assert forall|i: int| 0 <= i < cur implies !n.rejects(#[trigger] t[i]) by {
            assert(t[i] == s[i]);
        }
        lemma_sift(n, t, cur);
        assert forall|m: Move| #[trigger] n.sift(s, cur).contains(m) <==> s.contains(m) && !n.rejects(m) by {
            assert(n.sift(s, cur) == n.sift(t, cur));
            assert(n.sift(t, cur).contains(m) <==> t.contains(m) && !n.rejects(m));
            if t.contains(m) {
                let i = choose|i: int| 0 <= i < t.len() && t[i] == m;
                if i == cur {
                    assert(s[s.len() - 1] == m);
                } else {
                    assert(s[i] == m);
                }
            }
            if s.contains(m) && !n.rejects(m) {
                let i = choose|i: int| 0 <= i < s.len() && s[i] == m;
                assert(i != cur);
                if i == s.len() - 1 {
                    assert(t[cur] == m);
                } else {
                    assert(t[i] == m);
                }
            }
        }
    } else {
        lemma_sift(n, s, cur + 1);
    }
}

/// The legal moves are exactly the pseudo-legal moves that pass the legality test where it
/// is needed.
pub proof fn law_legal_moves_are_the_passing_ones(n: Node, m: Move)
    ensures
        n.legal_moves().contains(m) <==> n.pseudo(n.full_kind()).contains(m) && !n.rejects(m),
{
    lemma_sift(n, n.pseudo(n.full_kind()), 0);
    assert(n.sift(n.pseudo(n.full_kind()), 0).contains(m) <==> n.pseudo(n.full_kind()).contains(m)
        && !n.rejects(m));
}

/// Whether `m` could possibly be illegal.
fn needs_legality_test(pos: &Position, m: Move) -> (r: bool)
    requires
        pos.wf(),
    ensures
        r == pos.node().needs_test(m),
{
    broadcast use {bits::group_bits, Square::lemma_idx, Square::lemma_inj};

    let us = pos.side_to_move;
    let pinned = pos.blockers_for_king(us) & pos.colored(us);
    pinned.contains(m.from()) || m.from() == pos.king_square(us) || m.move_type()
        == MoveType::EnPassant
}

/// Whether the pseudo-legal move `m` is not legal.
fn is_rejected(pos: &Position, m: Move) -> (r: bool)
    requires
        pos.wf(),
        ep_named(pos.node(), m),
    ensures
        r == pos.node().rejects(m),
{
    needs_legality_test(pos, m) && !pos.legal(m)
}

/// Every legal move in the position.
///
/// The filter works in place by moving the last move over the rejected one, which does not
/// preserve the order; the resulting order is part of the contract.
pub fn generate_legal(pos: &Position) -> (r: MoveList)
    requires
        pos.wf(),
    ensures
        r@ == pos.node().legal_moves(),
{
    let ghost n = pos.node();
    let gt = if pos.in_check() {
        GenType::Evasions
    } else {
        GenType::NonEvasions
    };
    let mut moves = generate(pos, gt);
    proof {
        placement::lemma_king(n.b, n.stm);
        lemma_ep_named(n, gt);
        assert forall|i: int| 0 <= i < moves@.len() implies ep_named(n, #[trigger] moves@[i]) by {}
    }
    let mut cur: usize = 0;
    while cur < moves.list.len()
        invariant
            pos.wf(),
            n == pos.node(),
            cur <= moves@.len(),
            forall|i: int| 0 <= i < moves@.len() ==> ep_named(n, #[trigger] moves@[i]),
            n.sift(moves@, cur as int) == n.legal_moves(),
        decreases moves@.len() - cur,
    {
        let m = moves.list[cur];
        if is_rejected(pos, m) {
            let ghost before = moves@;
            let last = moves.list.len() - 1;
            let end = moves.list[last];
            moves.list.set(cur, end);
            let _ = moves.list.pop();
            assert(moves@ =~= before.update(cur as int, before.last()).drop_last());
        } else {
            cur += 1;
        }
    }
    moves
}

/// True when the side to move has at least one legal move.
pub fn has_legal_move(pos: &Position) -> (r: bool)
    requires
        pos.wf(),
    ensures
        r == (exists|m: Move| #[trigger] pos.node().legal_moves().contains(m)),
        r == (pos.node().legal_moves().len() > 0),
{
    let ghost n = pos.node();
    let gt = if pos.in_check() {
        GenType::Evasions
    } else {
        GenType::NonEvasions
    };
    let moves = generate(pos, gt);
    proof {
        placement::lemma_king(n.b, n.stm);
        lemma_ep_named(n, gt);
        assert forall|i: int| 0 <= i < moves@.len() implies ep_named(n, #[trigger] moves@[i]) by {}
    }
    let mut i: usize = 0;
    while i < moves.list.len()
        invariant
            pos.wf(),
            n == pos.node(),
            i <= moves@.len(),
            moves@ == n.pseudo(n.full_kind()),
            forall|k: int| 0 <= k < moves@.len() ==> ep_named(n, #[trigger] moves@[k]),
            forall|k: int| 0 <= k < i ==> n.rejects(#[trigger] moves@[k]),
        decreases moves@.len() - i,
    {
        let m = moves.list[i];
        if !is_rejected(pos, m) {
            proof {
                law_legal_moves_are_the_passing_ones(n, m);
                assert(moves@.contains(m));
                let k = choose|k: int|
                    0 <= k < n.legal_moves().len() && n.legal_moves()[k] == m;
            }
            return true;
        }
        i += 1;
    }
    proof {
        assert forall|m: Move| !#[trigger] n.legal_moves().contains(m) by {
            law_legal_moves_are_the_passing_ones(n, m);
            if moves@.contains(m) {
                let k = choose|k: int| 0 <= k < moves@.len() && moves@[k] == m;
                assert(n.rejects(moves@[k]));
            }
        }
        if n.legal_moves().len() > 0 {
            assert(n.legal_moves().contains(n.legal_moves()[0]));
        }
    }
    false
}

// ---------------------------------------------------------------------------
// A move from elsewhere
// ---------------------------------------------------------------------------

impl Node {
    /// A plain pawn move from `from` to `to` that the rules of movement allow.
    pub open spec fn pawn_reaches(self, from: int, to: int) -> bool {
        let u = Direction::forward(self.stm).delta();
        &&& Square::rel_rank(to, self.stm) != 7
        &&& {
            ||| bitboard::pawn_hits(self.stm, from, to) && movegen::enemy(self.b, self.stm, to)
            ||| to == from + u && self.b[to] == Piece::NONE
            ||| to == from + 2 * u && Square::rel_rank(from, self.stm) == 1 && self.b[to]
                == Piece::NONE && self.b[from + u] == Piece::NONE
        }
    }

    /// In check, the plain move resolves it: the king leaves for a safe square, or another
    /// piece blocks or captures the only checker.
    pub open spec fn resolves(self, from: int, to: int) -> bool {
        let w = placement::occ(self.b);
        if self.b[from].kind() != PieceType::King {
            let c = self.checkers.members()[0];
            &&& self.checkers.members().len() < 2
            &&& to == c || attacks::between(placement::king(self.b, self.stm), to, c)
        } else {
            !placement::attacked(self.b, legality::toggled(w, from), self.stm.opp(), to)
        }
    }

    /// The plain move could be made here.
    pub open spec fn plausible(self, from: int, to: int) -> bool {
        let pc = self.b[from];
        &&& pc.is_real()
        &&& pc.side() == self.stm
        &&& movegen::not_own(self.b, self.stm, to)
        &&& if pc.kind() == PieceType::Pawn {
            self.pawn_reaches(from, to)
        } else {
            attacks::hits(self.stm, pc.kind(), placement::occ(self.b), from, to)
        }
        &&& self.in_check() ==> self.resolves(from, to)
    }

    /// The move could have been generated here.
    pub open spec fn could_generate(self, m: Move) -> bool {
        if m == Move(0) || m == Move(65) {
            false
        } else if m.kind() != MoveType::Normal {
            // The special kinds carry what the cheap tests cannot check.
            self.legal_moves().contains(m)
        } else {
            // A plain move carries no promotion piece.
            m.promo() == PieceType::Knight && self.plausible(m.src(), m.dst())
        }
    }
}

impl Position {
    /// True when `m` could have been produced by the generator for this position.
    ///
    /// Tables hand back moves from other positions; every such move is filtered through this
    /// before it is played.
    pub fn pseudo_legal(&self, m: Move) -> (r: bool)
        requires
            self.wf(),
        ensures
            r == self.node().could_generate(m),
    {
        broadcast use {bits::group_bits, Square::lemma_idx, Square::lemma_inj};

        if !m.is_ok() {
            return false;
        }
        if m.move_type() != MoveType::Normal {
            return generate_legal(self).contains(m);
        }
        // The field of the promotion piece is at rest in a plain move.
        if m.promotion_type() != PieceType::Knight {
            return false;
        }
        let us = self.side_to_move;
        let from = m.from();
        let to = m.to();
        let pc = self.piece_on(from);
        // The mover must be ours, and must not land on its own side.
        if pc.is_none() || pc.color() != us {
            return false;
        }
        if self.colored(us).contains(to) {
            return false;
        }
        if pc.piece_type() == PieceType::Pawn {
            // A plain pawn move never reaches the last rank: that would be a promotion.
            if to.relative_rank(us).index() == 7 {
                return false;
            }
            let u: i32 = Direction::pawn_push(us).offset();
            let fi: i32 = from.index() as i32;
            let ti: i32 = to.index() as i32;
            let capture = pawn_attacks_from(us, from).contains(to) && self.colored(us.flip()).contains(
                to,
            );
            let single_push = ti == fi + u && self.is_empty_square(to);
            let double_push = if ti == fi + 2 * u && from.relative_rank(us).index() == 1 {
                self.is_empty_square(to) && self.is_empty_square(Square::new((fi + u) as usize))
            } else {
                false
            };
            if !(capture || single_push || double_push) {
                return false;
            }
        } else {
            let reach = piece_attacks(pc.piece_type(), from, self.occupied());
            assert(reach.has(to.idx()) == attacks::hits(
                us,
                pc.kind(),
                placement::occ(self.board@),
                from.idx(),
                to.idx(),
            ));
            if !reach.contains(to) {
                return false;
            }
        }
        // In check, only a move that resolves the check survives.
        if self.checkers().any() {
            if pc.piece_type() != PieceType::King {
                if self.checkers().more_than_one() {
                    return false;
                }
                if !between_bb(self.king_square(us), self.checkers().lsb()).contains(to) {
                    return false;
                }
            } else {
                let mut w = self.occupied();
                w.toggle(from);
                if self.attacked_by(w, us.flip(), to) {
                    return false;
                }
            }
        }
        true
    }

    /// True when this position has already occurred within `ply` of the search root.
    pub fn is_repetition(&self, ply: i32) -> (r: bool)
        requires
            self.states@.len() >= 1,
        ensures
            r == (self.top().repetition != 0 && self.top().repetition <= ply),
    {
        let st = self.st();
        st.repetition != 0 && st.repetition <= ply
    }

    /// True when the position is drawn by the fifty-move rule or by repetition within the
    /// current search.
    ///
    /// `ply` is the distance from the search root: a repetition at or after the root counts
    /// once, while one entirely in the game history needs the full threefold.
    pub fn is_draw(&self, ply: i32) -> (r: bool)
        requires
            self.wf(),
        ensures
            r == ((self.top().rule50 > 99 && (self.top().checkers.0 == 0
                || self.node().legal_moves().len() > 0)) || (self.top().repetition != 0
                && self.top().repetition <= ply)),
    {
        let st = self.st();
        if st.rule50 > 99 && (!self.in_check() || has_legal_move(self)) {
            return true;
        }
        self.is_repetition(ply)
    }

    /// `m` can be made and leads back to an earlier position of the game.
    pub open spec fn repeats_with(&self, m: Move) -> bool {
        self.accepts(m) && exists|i: int| #[trigger] self.returns_to(m, i)
    }

    /// `m` leads to the position `i` plies before the one it leads to, with nothing irreversible
    /// between them: the same side to move and the same key.
    pub open spec fn returns_to(&self, m: Move, i: int) -> bool {
        let b = self.board@;
        let us = self.side_to_move;
        &&& 4 <= i <= self.states@.len()
        &&& i % 2 == 0
        &&& i <= self.top().plies_from_null + 1
        &&& i <= self.top().rule50 + 1
        &&& transition::captured_by(b, us, m) == Piece::NONE
        &&& m.kind() == MoveType::Castling || b[m.src()].kind() != PieceType::Pawn
        &&& self.states@[self.states@.len() - i].key == tally::key_of(
            transition::board_after(b, us, m),
            us.opp(),
            transition::ep_after(b, us, m),
            transition::rights_after(self.top().castling_rights, self.castling, m),
        )
    }

    /// True when the side to move can reach a repetition with one move.
    pub fn has_repeated(&self) -> (r: bool)
        requires
            self.wf(),
        ensures
            r == exists|m: Move| #[trigger]
                self.node().legal_moves().contains(m) && self.repeats_with(m),
    {
        let st = self.st();
        // The move itself is the fourth ply of the shortest way back.
        if st.rule50 < 3 || st.plies_from_null < 3 {
            assert forall|m: Move| !#[trigger] self.repeats_with(m) by {
                assert forall|i: int| !#[trigger] self.returns_to(m, i) by {}
            }
            return false;
        }
        let moves = generate_legal(self);
        let mut work = self.clone();
        let mut i: usize = 0;
        while i < moves.list.len()
            invariant
                i <= moves@.len(),
                self.wf(),
                work.wf(),
                work.same(self),
                moves@ == self.node().legal_moves(),
                forall|k: int| 0 <= k < i ==> !self.repeats_with(#[trigger] moves@[k]),
            decreases moves@.len() - i,
        {
            let m = moves.list[i];
            assert(work.accepts(m) == self.accepts(m));
            if work.is_playable(m) {
                let ghost here = work;
                let ghost check = legality::checks_king(here.board@, here.side_to_move, m);
                work.do_move(m);
                let found = work.st().repetition != 0;
                let ghost mid = work;
                proof {
                    lemma_repeats(*self, mid, m);
                    transition::law_made_moves_can_be_undone(here, mid, m, check);
                }
                if found {
                    assert(moves@.contains(m));
                    return true;
                }
                work.undo_move(m);
                proof {
                    transition::law_undo_restores(here, mid, work, m, check);
                }
            }
            i += 1;
        }
        proof {
            assert forall|m: Move| #[trigger]
                self.node().legal_moves().contains(m) implies !self.repeats_with(m) by {
                let k = choose|k: int| 0 <= k < moves@.len() && moves@[k] == m;
                assert(!self.repeats_with(moves@[k]));
            }
        }
        false
    }

    /// True when some state back to the last irreversible move is marked as a repetition.
    pub fn repeated_since_reset(&self) -> (r: bool)
        requires
            self.states@.len() >= 1,
        ensures
            r == repeated_from(self.states@, self.states@.len() - 1),
    {
        let mut i: usize = self.states.len() - 1;
        loop
            invariant
                i < self.states@.len(),
                repeated_from(self.states@, self.states@.len() - 1) == repeated_from(
                    self.states@,
                    i as int,
                ),
            decreases i,
        {
            let st = &self.states[i];
            let end: i32 = if st.rule50 <= st.plies_from_null {
                st.rule50
            } else {
                st.plies_from_null
            };
            if end < 4 {
                return false;
            }
            if st.repetition != 0 {
                return true;
            }
            if i == 0 {
                return false;
            }
            i -= 1;
        }
    }

    /// True when a tablebase's distance to a zeroing move is also the distance to mate: without
    /// pawns, one piece beside the kings, or two of which none is a queen or a rook.
    pub fn dtz_is_dtm(&self) -> (r: bool)
        requires
            self.sound(),
        ensures
            r == ({
                let total = bits::members(placement::occ(self.board@)).len();
                &&& crate::board::tally::count_of(self.board@, Piece::W_PAWN)
                    + crate::board::tally::count_of(self.board@, Piece::B_PAWN) == 0
                &&& total == 3 || (total == 4 && forall|i: int|
                    0 <= i < 64 ==> (#[trigger] self.board@[i]).kind() != PieceType::Queen
                        && self.board@[i].kind() != PieceType::Rook)
            }),
    {
        let majors = self.pieces(PieceType::Queen) | self.pieces(PieceType::Rook);
        proof {
            broadcast use bits::group_bits;

            bits::lemma_nonzero(majors.0);
            assert forall|i: int| #[trigger] majors.has(i) == (0 <= i < 64 && (self.board@[i].kind()
                == PieceType::Queen || self.board@[i].kind() == PieceType::Rook)) by {}
            if majors.0 == 0 {
                assert forall|i: int| 0 <= i < 64 implies (#[trigger] self.board@[i]).kind()
                    != PieceType::Queen && self.board@[i].kind() != PieceType::Rook by {
                    assert(!majors.has(i));
                }
            } else {
                let i = choose|i: int| bits::bit(majors.0, i);
                assert(majors.has(i));
            }
        }
        self.count_both(PieceType::Pawn) == 0 && (self.piece_total() == 3 || (self.piece_total()
            == 4 && majors.is_empty()))
    }
}

/// The mark of a state is set when its key stands in the chain, an even number of plies back.
proof fn lemma_repeats_from(states: Seq<state::StateInfo>, key: u64, last: int, end: int, i: int)
    requires
        i > 0,
        i % 2 == 0,
    ensures
        (transition::repeats_from(states, key, last, end, i) != 0) == exists|j: int|
            i <= j <= end && j <= last && j % 2 == 0 && (#[trigger] states[last - j]).key == key,
    decreases end - i + 2,
{
    if i > end || last - i < 0 {
    } else if states[last - i].key == key {
    } else {
        lemma_repeats_from(states, key, last, end, i + 2);
        assert forall|j: int|
            i <= j <= end && j <= last && j % 2 == 0 && (#[trigger] states[last - j]).key
                == key implies i + 2 <= j by {}
    }
}

/// A move that was made is marked as a repetition exactly when it leads back.
proof fn lemma_repeats(pre: Position, mid: Position, m: Move)
    requires
        pre.wf(),
        pre.accepts(m),
        mid.wf(),
        pre.made(&mid, m, legality::checks_king(pre.board@, pre.side_to_move, m)),
    ensures
        (mid.top().repetition != 0) == pre.repeats_with(m),
{
    let st = mid.top();
    let last = pre.states@.len() as int;
    let end = transition::lesser(st.rule50 as int, st.plies_from_null as int);
    lemma_repeats_from(pre.states@, st.key, last, end, 4);
    if st.repetition != 0 {
        let j = choose|j: int|
            4 <= j <= end && j <= last && j % 2 == 0 && (#[trigger] pre.states@[last - j]).key
                == st.key;
        assert(pre.returns_to(m, j));
    }
    if pre.repeats_with(m) {
        let j = choose|j: int| #[trigger] pre.returns_to(m, j);
        assert(pre.states@[last - j].key == st.key);
    }
}

/// Looking back from state `i`, a repetition is met before an irreversible move.
pub open spec fn repeated_from(states: Seq<state::StateInfo>, i: int) -> bool
    decreases i,
{
    if transition::lesser(states[i].rule50 as int, states[i].plies_from_null as int) < 4 {
        false
    } else if states[i].repetition != 0 {
        true
    } else if i <= 0 {
        false
    } else {
        repeated_from(states, i - 1)
    }
}

// ---------------------------------------------------------------------------
// Notation
// ---------------------------------------------------------------------------

/// The text of `m` with the king's destination in place of the rook's square.
pub open spec fn king_text(m: Move) -> Seq<char> {
    Square::name(m.src()) + Square::name(position::castle_king_to(m.src(), m.dst() > m.src()))
}

/// The text of `m` in the notation of the position's dialect: standard chess names a
/// castling king's destination, Chess960 the rook's square.
pub open spec fn uci_text(chess960: bool, m: Move) -> Seq<char> {
    if m != Move(0) && m != Move(65) && m.kind() == MoveType::Castling && !chess960 {
        king_text(m)
    } else {
        m.text()
    }
}

/// `text` names the move `m`: castling is accepted in both spellings in standard chess.
pub open spec fn names(chess960: bool, m: Move, text: Seq<char>) -> bool {
    m.text() == text || (m.kind() == MoveType::Castling && !chess960 && king_text(m) == text)
}

/// The first move from `i` on that the text names.
pub open spec fn find_named(s: Seq<Move>, chess960: bool, text: Seq<char>, i: int) -> Option<Move>
    decreases s.len() - i,
{
    if i >= s.len() {
        None
    } else if names(chess960, s[i], text) {
        Some(s[i])
    } else {
        find_named(s, chess960, text, i + 1)
    }
}

/// The squares of a castling move with the king's destination, as text.
fn write_king_text(m: Move) -> (r: String)
    ensures
        r@ == king_text(m),
{
    let from = m.from();
    let (king_to, _) = castle_squares(from, m.to());
    let mut s = String::new();
    s.push(from.file().to_char() as char);
    s.push(from.rank().to_char() as char);
    s.push(king_to.file().to_char() as char);
    s.push(king_to.rank().to_char() as char);
    assert(s@ =~= king_text(m));
    s
}

/// Find the move `uci` names among the legal moves, in long algebraic notation.
pub fn parse_uci_move(pos: &Position, uci: &str) -> (r: Option<Move>)
    requires
        pos.wf(),
    ensures
        r == find_named(pos.node().legal_moves(), pos.chess960, uci@, 0),
{
    let wanted: String = uci.to_owned();
    let legal = generate_legal(pos);
    let mut i: usize = 0;
    while i < legal.list.len()
        invariant
            i <= legal@.len(),
            legal@ == pos.node().legal_moves(),
            wanted@ == uci@,
            find_named(legal@, pos.chess960, uci@, 0) == find_named(
                legal@,
                pos.chess960,
                uci@,
                i as int,
            ),
        decreases legal@.len() - i,
    {
        let m = legal.list[i];
        if m.to_string() == wanted {
            return Some(m);
        }
        if m.move_type() == MoveType::Castling && !pos.chess960 {
            if write_king_text(m) == wanted {
                return Some(m);
            }
        }
        i += 1;
    }
    None
}

/// Render `m` in the notation the protocol expects for this position.
pub fn move_to_uci(pos: &Position, m: Move) -> (r: String)
    ensures
        r@ == uci_text(pos.chess960, m),
{
    if m.is_ok() && m.move_type() == MoveType::Castling && !pos.chess960 {
        return write_king_text(m);
    }
    m.to_string()
}

} // verus!
