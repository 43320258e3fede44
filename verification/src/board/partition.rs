//! Captures and quiet moves together are the moves of a position, and every kind of move answers
//! a check.

use vstd::prelude::*;
use crate::board::attacks;
use crate::board::bitboard;
use crate::board::bits;
use crate::board::movegen;
use crate::board::movegen::{GenType, Node};
use crate::board::placement;
use crate::board::soundness;
use crate::board::types::{Direction, Move, Piece, PieceType};

verus! {

/// The moves of `all` are those of `a` and of `b`, each as often as in the two together.
pub open spec fn splits(all: Seq<Move>, a: Seq<Move>, b: Seq<Move>) -> bool {
    all.to_multiset() == a.to_multiset().add(b.to_multiset())
}

proof fn lemma_join(
    x: Seq<Move>,
    a: Seq<Move>,
    b: Seq<Move>,
    y: Seq<Move>,
    c: Seq<Move>,
    d: Seq<Move>,
)
    requires
        splits(x, a, b),
        splits(y, c, d),
    ensures
        splits(x + y, a + c, b + d),
{
    vstd::seq_lib::lemma_multiset_commutative(x, y);
    vstd::seq_lib::lemma_multiset_commutative(a, c);
    vstd::seq_lib::lemma_multiset_commutative(b, d);
    assert((x + y).to_multiset() =~= (a + c).to_multiset().add((b + d).to_multiset()));
}

proof fn lemma_whole(x: Seq<Move>)
    ensures
        splits(x, x, Seq::empty()),
        splits(x, Seq::empty(), x),
        splits(Seq::<Move>::empty(), Seq::empty(), Seq::empty()),
{
    broadcast use vstd::seq_lib::group_to_multiset_ensures;

    let none = Seq::<Move>::empty().to_multiset();
    assert(none =~= vstd::multiset::Multiset::empty()) by {
        assert(none.len() == 0);
    }
    assert(x.to_multiset() =~= x.to_multiset().add(none));
    assert(x.to_multiset() =~= none.add(x.to_multiset()));
    assert(none =~= none.add(none));
}

/// Of two lists one move goes to the one and three to the other.
proof fn lemma_one_and_rest(x: Seq<Move>, y: Seq<Move>)
    ensures
        splits(x + y, x, y),
{
    vstd::seq_lib::lemma_multiset_commutative(x, y);
}

/// A set of squares that falls into two makes two lists of moves.
proof fn lemma_squares(
    p: spec_fn(int) -> bool,
    p1: spec_fn(int) -> bool,
    p2: spec_fn(int) -> bool,
    g: spec_fn(int) -> Move,
    i: int,
)
    requires
        0 <= i,
        forall|t: int| i <= t < 64 ==> #[trigger] p(t) == (p1(t) || p2(t)),
        forall|t: int| i <= t < 64 && p1(t) ==> !#[trigger] p2(t),
    ensures
        splits(
            movegen::squares_from(p, i).map_values(g),
            movegen::squares_from(p1, i).map_values(g),
            movegen::squares_from(p2, i).map_values(g),
        ),
    decreases 64 - i,
{
    let empty = Seq::<Move>::empty();
    if i >= 64 {
        lemma_whole(empty);
        assert(movegen::squares_from(p, i).map_values(g) =~= empty);
        assert(movegen::squares_from(p1, i).map_values(g) =~= empty);
        assert(movegen::squares_from(p2, i).map_values(g) =~= empty);
    } else {
        lemma_squares(p, p1, p2, g, i + 1);
        assert(p(i) == (p1(i) || p2(i)));
        let r = movegen::squares_from(p, i + 1);
        let r1 = movegen::squares_from(p1, i + 1);
        let r2 = movegen::squares_from(p2, i + 1);
        let one = seq![g(i)];
        assert((seq![i] + r).map_values(g) =~= one + r.map_values(g));
        assert((seq![i] + r1).map_values(g) =~= one + r1.map_values(g));
        assert((seq![i] + r2).map_values(g) =~= one + r2.map_values(g));
        assert(empty + r1.map_values(g) =~= r1.map_values(g));
        assert(empty + r2.map_values(g) =~= r2.map_values(g));
        lemma_whole(one);
        if p1(i) {
            assert(!p2(i));
            lemma_join(one, one, empty, r.map_values(g), r1.map_values(g), r2.map_values(g));
        } else if p2(i) {
            lemma_join(one, empty, one, r.map_values(g), r1.map_values(g), r2.map_values(g));
        }
    }
}

/// A position in check has come about by play, and one piece gives the check.
spec fn sound(n: Node) -> bool {
    n.in_check() ==> n.regular() && n.checkers.members().len() < 2
}

/// A move's destination is an enemy or empty, not both.
proof fn lemma_targets(n: Node, t: int)
    requires
        sound(n),
        0 <= t < 64,
    ensures
        n.target(n.full_kind(), t) == (n.target(GenType::Captures, t) || n.target(
            GenType::Quiets,
            t,
        )),
        !(n.target(GenType::Captures, t) && n.target(GenType::Quiets, t)),
{
    if n.in_check() && n.target(n.full_kind(), t) {
        soundness::lemma_target_not_own(n, n.full_kind(), t);
    }
}

proof fn lemma_steps(n: Node, pt: PieceType, froms: Seq<int>)
    requires
        sound(n),
    ensures
        splits(
            n.steps_of(n.full_kind(), pt, froms),
            n.steps_of(GenType::Captures, pt, froms),
            n.steps_of(GenType::Quiets, pt, froms),
        ),
    decreases froms.len(),
{
    if froms.len() == 0 {
        lemma_whole(Seq::<Move>::empty());
    } else {
        let from = froms[0];
        let w = placement::occ(n.b);
        lemma_steps(n, pt, froms.drop_first());
        let p = |t: int|
            attacks::hits(n.stm, pt, w, from, t) && n.target(n.full_kind(), t);
        let p1 = |t: int| attacks::hits(n.stm, pt, w, from, t) && n.target(GenType::Captures, t);
        let p2 = |t: int| attacks::hits(n.stm, pt, w, from, t) && n.target(GenType::Quiets, t);
        assert forall|t: int| 0 <= t < 64 implies #[trigger] p(t) == (p1(t) || p2(t)) by {
            lemma_targets(n, t);
        }
        assert forall|t: int| 0 <= t < 64 && p1(t) implies !#[trigger] p2(t) by {
            lemma_targets(n, t);
        }
        lemma_squares(p, p1, p2, |to: int| movegen::plain(from, to), 0);
        lemma_join(
            n.piece_steps(n.full_kind(), pt, from),
            n.piece_steps(GenType::Captures, pt, from),
            n.piece_steps(GenType::Quiets, pt, from),
            n.steps_of(n.full_kind(), pt, froms.drop_first()),
            n.steps_of(GenType::Captures, pt, froms.drop_first()),
            n.steps_of(GenType::Quiets, pt, froms.drop_first()),
        );
    }
}

proof fn lemma_king(n: Node)
    ensures
        splits(
            n.king_moves(n.full_kind()),
            n.king_moves(GenType::Captures),
            n.king_moves(GenType::Quiets),
        ),
{
    let k = placement::king(n.b, n.stm);
    let p = |t: int|
        bitboard::king_hits(k, t) && movegen::wanted(n.b, n.stm, n.full_kind(), t);
    let p1 = |t: int|
        bitboard::king_hits(k, t) && movegen::wanted(n.b, n.stm, GenType::Captures, t);
    let p2 = |t: int|
        bitboard::king_hits(k, t) && movegen::wanted(n.b, n.stm, GenType::Quiets, t);
    assert forall|t: int| 0 <= t < 64 implies #[trigger] p(t) == (p1(t) || p2(t)) by {}
    assert forall|t: int| 0 <= t < 64 && p1(t) implies !#[trigger] p2(t) by {}
    lemma_squares(p, p1, p2, |to: int| movegen::plain(k, to), 0);
}

/// A promotion that captures is a capture; one that does not is a capture when it makes a
/// queen.
proof fn lemma_promotions(all: GenType, captures: bool, d: int, tos: Seq<int>)
    requires
        all == GenType::Evasions || all == GenType::NonEvasions,
    ensures
        splits(
            movegen::promotions_by(all, captures, d, tos),
            movegen::promotions_by(GenType::Captures, captures, d, tos),
            movegen::promotions_by(GenType::Quiets, captures, d, tos),
        ),
    decreases tos.len(),
{
    if tos.len() == 0 {
        lemma_whole(Seq::<Move>::empty());
    } else {
        let rest = tos.drop_first();
        lemma_promotions(all, captures, d, rest);
        let whole = movegen::promotions(all, captures, tos[0] - d, tos[0]);
        let taking = movegen::promotions(GenType::Captures, captures, tos[0] - d, tos[0]);
        let quiet = movegen::promotions(GenType::Quiets, captures, tos[0] - d, tos[0]);
        if captures {
            assert(taking =~= whole);
            assert(quiet =~= Seq::<Move>::empty());
            lemma_whole(whole);
        } else {
            assert(whole =~= taking + quiet);
            lemma_one_and_rest(taking, quiet);
        }
        lemma_join(
            whole,
            taking,
            quiet,
            movegen::promotions_by(all, captures, d, rest),
            movegen::promotions_by(GenType::Captures, captures, d, rest),
            movegen::promotions_by(GenType::Quiets, captures, d, rest),
        );
    }
}

/// Equal sets of squares have equal lists.
proof fn lemma_same(p: spec_fn(int) -> bool, q: spec_fn(int) -> bool)
    requires
        forall|t: int| #[trigger] p(t) == q(t),
    ensures
        movegen::squares(p) == movegen::squares(q),
{
    assert(p =~= q);
}

proof fn lemma_pawns(n: Node)
    requires
        sound(n),
    ensures
        splits(
            n.pawn_moves(n.full_kind()),
            n.pawn_moves(GenType::Captures),
            n.pawn_moves(GenType::Quiets),
        ),
{
    let all = n.full_kind();
    let cap = GenType::Captures;
    let quiet = GenType::Quiets;
    let empty = Seq::<Move>::empty();
    let r = movegen::right_of(n.stm);
    let l = movegen::left_of(n.stm);
    let u = Direction::forward(n.stm);
    assert(n.pushes(all) == n.pushes(quiet)) by {
        lemma_same(
            |t: int| n.single_push(t) && n.push_counts(all, t),
            |t: int| n.single_push(t) && n.push_counts(quiet, t),
        );
        lemma_same(
            |t: int| n.double_push(t) && n.push_counts(all, t),
            |t: int| n.double_push(t) && n.push_counts(quiet, t),
        );
    }
    lemma_whole(n.pushes(all));
    assert(splits(n.pushes(all), n.pushes(cap), n.pushes(quiet)));
    // Promotions, by the direction of the step.
    let right = movegen::squares(
        |t: int| movegen::pawn_arrives(n.b, n.stm, r, true, t) && n.prey(all, t),
    );
    let left = movegen::squares(
        |t: int| movegen::pawn_arrives(n.b, n.stm, l, true, t) && n.prey(all, t),
    );
    let ahead = movegen::squares(
        |t: int|
            movegen::pawn_arrives(n.b, n.stm, u, true, t) && n.b[t] == Piece::NONE
                && n.push_counts(all, t),
    );
    assert forall|gt: GenType| gt == cap || gt == quiet || gt == all implies #[trigger] n.promoting(
        gt,
    ) == movegen::promotions_by(gt, true, r.delta(), right) + movegen::promotions_by(
        gt,
        true,
        l.delta(),
        left,
    ) + movegen::promotions_by(gt, false, u.delta(), ahead) by {
        lemma_same(
            |t: int| movegen::pawn_arrives(n.b, n.stm, r, true, t) && n.prey(gt, t),
            |t: int| movegen::pawn_arrives(n.b, n.stm, r, true, t) && n.prey(all, t),
        );
        lemma_same(
            |t: int| movegen::pawn_arrives(n.b, n.stm, l, true, t) && n.prey(gt, t),
            |t: int| movegen::pawn_arrives(n.b, n.stm, l, true, t) && n.prey(all, t),
        );
        lemma_same(
            |t: int|
                movegen::pawn_arrives(n.b, n.stm, u, true, t) && n.b[t] == Piece::NONE
                    && n.push_counts(gt, t),
            |t: int|
                movegen::pawn_arrives(n.b, n.stm, u, true, t) && n.b[t] == Piece::NONE
                    && n.push_counts(all, t),
        );
    }
    lemma_promotions(all, true, r.delta(), right);
    lemma_promotions(all, true, l.delta(), left);
    lemma_promotions(all, false, u.delta(), ahead);
    lemma_join(
        movegen::promotions_by(all, true, r.delta(), right),
        movegen::promotions_by(cap, true, r.delta(), right),
        movegen::promotions_by(quiet, true, r.delta(), right),
        movegen::promotions_by(all, true, l.delta(), left),
        movegen::promotions_by(cap, true, l.delta(), left),
        movegen::promotions_by(quiet, true, l.delta(), left),
    );
    lemma_join(
        movegen::promotions_by(all, true, r.delta(), right) + movegen::promotions_by(
            all,
            true,
            l.delta(),
            left,
        ),
        movegen::promotions_by(cap, true, r.delta(), right) + movegen::promotions_by(
            cap,
            true,
            l.delta(),
            left,
        ),
        movegen::promotions_by(quiet, true, r.delta(), right) + movegen::promotions_by(
            quiet,
            true,
            l.delta(),
            left,
        ),
        movegen::promotions_by(all, false, u.delta(), ahead),
        movegen::promotions_by(cap, false, u.delta(), ahead),
        movegen::promotions_by(quiet, false, u.delta(), ahead),
    );
    assert(splits(n.promoting(all), n.promoting(cap), n.promoting(quiet)));
    assert(n.pawn_captures(all) == n.pawn_captures(cap)) by {
        lemma_same(
            |t: int| movegen::pawn_arrives(n.b, n.stm, r, false, t) && n.prey(all, t),
            |t: int| movegen::pawn_arrives(n.b, n.stm, r, false, t) && n.prey(cap, t),
        );
        lemma_same(
            |t: int| movegen::pawn_arrives(n.b, n.stm, l, false, t) && n.prey(all, t),
            |t: int| movegen::pawn_arrives(n.b, n.stm, l, false, t) && n.prey(cap, t),
        );
    }
    lemma_whole(n.pawn_captures(all));
    assert(splits(n.pawn_captures(all), n.pawn_captures(cap), n.pawn_captures(quiet)));
    lemma_join(
        n.pushes(all),
        n.pushes(cap),
        n.pushes(quiet),
        n.promoting(all),
        n.promoting(cap),
        n.promoting(quiet),
    );
    lemma_join(
        n.pushes(all) + n.promoting(all),
        n.pushes(cap) + n.promoting(cap),
        n.pushes(quiet) + n.promoting(quiet),
        n.pawn_captures(all),
        n.pawn_captures(cap),
        n.pawn_captures(quiet),
    );
}

/// The captures and the quiet moves partition the pseudo-legal moves, in check the evasions: every
/// move is generated by exactly one of the two.
pub proof fn law_captures_and_quiets_partition_the_moves(n: Node)
    requires
        n.in_check() ==> n.regular(),
    ensures
        n.pseudo(n.full_kind()).to_multiset() == n.pseudo(GenType::Captures).to_multiset().add(
            n.pseudo(GenType::Quiets).to_multiset(),
        ),
{
    lemma_king(n);
    bits::lemma_members_empty(n.checkers.0);
    if n.checkers.members().len() < 2 {
        lemma_single(n);
    }
}

proof fn lemma_single(n: Node)
    requires
        sound(n),
        n.checkers.members().len() < 2,
    ensures
        splits(
            n.pseudo(n.full_kind()),
            n.pseudo(GenType::Captures),
            n.pseudo(GenType::Quiets),
        ),
{
    broadcast use bits::group_bits;

    let all = n.full_kind();
    let cap = GenType::Captures;
    let quiet = GenType::Quiets;
    lemma_pawns(n);
    let mut a = n.pawn_moves(all);
    let mut c = n.pawn_moves(cap);
    let mut q = n.pawn_moves(quiet);
    lemma_add_pieces(n, PieceType::Knight, a, c, q);
    a = a + n.piece_moves(all, PieceType::Knight);
    c = c + n.piece_moves(cap, PieceType::Knight);
    q = q + n.piece_moves(quiet, PieceType::Knight);
    lemma_add_pieces(n, PieceType::Bishop, a, c, q);
    a = a + n.piece_moves(all, PieceType::Bishop);
    c = c + n.piece_moves(cap, PieceType::Bishop);
    q = q + n.piece_moves(quiet, PieceType::Bishop);
    lemma_add_pieces(n, PieceType::Rook, a, c, q);
    a = a + n.piece_moves(all, PieceType::Rook);
    c = c + n.piece_moves(cap, PieceType::Rook);
    q = q + n.piece_moves(quiet, PieceType::Rook);
    lemma_add_pieces(n, PieceType::Queen, a, c, q);
    a = a + n.piece_moves(all, PieceType::Queen);
    c = c + n.piece_moves(cap, PieceType::Queen);
    q = q + n.piece_moves(quiet, PieceType::Queen);
    lemma_king(n);
    lemma_join(a, c, q, n.king_moves(all), n.king_moves(cap), n.king_moves(quiet));
    lemma_whole(n.castling_moves(all));
    assert(splits(n.castling_moves(all), n.castling_moves(cap), n.castling_moves(quiet)));
    lemma_join(
        a + n.king_moves(all),
        c + n.king_moves(cap),
        q + n.king_moves(quiet),
        n.castling_moves(all),
        n.castling_moves(cap),
        n.castling_moves(quiet),
    );
}

proof fn lemma_add_pieces(n: Node, pt: PieceType, a: Seq<Move>, c: Seq<Move>, q: Seq<Move>)
    requires
        sound(n),
        splits(a, c, q),
    ensures
        splits(
            a + n.piece_moves(n.full_kind(), pt),
            c + n.piece_moves(GenType::Captures, pt),
            q + n.piece_moves(GenType::Quiets, pt),
        ),
{
    let froms = movegen::squares(|s: int| n.b[s] == Piece::of(n.stm, pt));
    lemma_steps(n, pt, froms);
    lemma_join(
        a,
        c,
        q,
        n.piece_moves(n.full_kind(), pt),
        n.piece_moves(GenType::Captures, pt),
        n.piece_moves(GenType::Quiets, pt),
    );
}

/// In check, the two kinds that leave nothing out are the same.
proof fn lemma_kinds_in_check(n: Node)
    requires
        n.in_check(),
    ensures
        n.pseudo(GenType::NonEvasions) == n.pseudo(GenType::Evasions),
{
    let all = GenType::NonEvasions;
    let ev = GenType::Evasions;
    let k = placement::king(n.b, n.stm);
    let r = movegen::right_of(n.stm);
    let l = movegen::left_of(n.stm);
    let u = Direction::forward(n.stm);
    lemma_same(
        |t: int| bitboard::king_hits(k, t) && movegen::wanted(n.b, n.stm, all, t),
        |t: int| bitboard::king_hits(k, t) && movegen::wanted(n.b, n.stm, ev, t),
    );
    assert(n.king_moves(all) == n.king_moves(ev));
    lemma_same(
        |t: int| n.single_push(t) && n.push_counts(all, t),
        |t: int| n.single_push(t) && n.push_counts(ev, t),
    );
    lemma_same(
        |t: int| n.double_push(t) && n.push_counts(all, t),
        |t: int| n.double_push(t) && n.push_counts(ev, t),
    );
    assert(n.pushes(all) == n.pushes(ev));
    lemma_same(
        |t: int| movegen::pawn_arrives(n.b, n.stm, r, true, t) && n.prey(all, t),
        |t: int| movegen::pawn_arrives(n.b, n.stm, r, true, t) && n.prey(ev, t),
    );
    lemma_same(
        |t: int| movegen::pawn_arrives(n.b, n.stm, r, false, t) && n.prey(all, t),
        |t: int| movegen::pawn_arrives(n.b, n.stm, r, false, t) && n.prey(ev, t),
    );
    lemma_same(
        |t: int| movegen::pawn_arrives(n.b, n.stm, l, true, t) && n.prey(all, t),
        |t: int| movegen::pawn_arrives(n.b, n.stm, l, true, t) && n.prey(ev, t),
    );
    lemma_same(
        |t: int| movegen::pawn_arrives(n.b, n.stm, l, false, t) && n.prey(all, t),
        |t: int| movegen::pawn_arrives(n.b, n.stm, l, false, t) && n.prey(ev, t),
    );
    lemma_same(
        |t: int|
            movegen::pawn_arrives(n.b, n.stm, u, true, t) && n.b[t] == Piece::NONE
                && n.push_counts(all, t),
        |t: int|
            movegen::pawn_arrives(n.b, n.stm, u, true, t) && n.b[t] == Piece::NONE
                && n.push_counts(ev, t),
    );
    lemma_same_promotions(
        true,
        r.delta(),
        movegen::squares(|t: int| movegen::pawn_arrives(n.b, n.stm, r, true, t) && n.prey(ev, t)),
    );
    lemma_same_promotions(
        true,
        l.delta(),
        movegen::squares(|t: int| movegen::pawn_arrives(n.b, n.stm, l, true, t) && n.prey(ev, t)),
    );
    lemma_same_promotions(
        false,
        u.delta(),
        movegen::squares(
            |t: int|
                movegen::pawn_arrives(n.b, n.stm, u, true, t) && n.b[t] == Piece::NONE
                    && n.push_counts(ev, t),
        ),
    );
    assert(n.promoting(all) == n.promoting(ev));
    assert(n.pawn_captures(all) == n.pawn_captures(ev));
    lemma_same_pieces(n, PieceType::Knight);
    lemma_same_pieces(n, PieceType::Bishop);
    lemma_same_pieces(n, PieceType::Rook);
    lemma_same_pieces(n, PieceType::Queen);
}

proof fn lemma_same_promotions(captures: bool, d: int, tos: Seq<int>)
    ensures
        movegen::promotions_by(GenType::NonEvasions, captures, d, tos) == movegen::promotions_by(
            GenType::Evasions,
            captures,
            d,
            tos,
        ),
    decreases tos.len(),
{
    if tos.len() > 0 {
        lemma_same_promotions(captures, d, tos.drop_first());
    }
}

proof fn lemma_same_pieces(n: Node, pt: PieceType)
    requires
        n.in_check(),
    ensures
        n.piece_moves(GenType::NonEvasions, pt) == n.piece_moves(GenType::Evasions, pt),
{
    lemma_same_steps(n, pt, movegen::squares(|s: int| n.b[s] == Piece::of(n.stm, pt)));
}

proof fn lemma_same_steps(n: Node, pt: PieceType, froms: Seq<int>)
    requires
        n.in_check(),
    ensures
        n.steps_of(GenType::NonEvasions, pt, froms) == n.steps_of(GenType::Evasions, pt, froms),
    decreases froms.len(),
{
    if froms.len() > 0 {
        let w = placement::occ(n.b);
        lemma_same_steps(n, pt, froms.drop_first());
        lemma_same(
            |t: int|
                attacks::hits(n.stm, pt, w, froms[0], t) && n.target(GenType::NonEvasions, t),
            |t: int| attacks::hits(n.stm, pt, w, froms[0], t) && n.target(GenType::Evasions, t),
        );
    }
}

/// In check, every kind of generation asks for answers: no piece but the king moves when two
/// pieces give check, and otherwise it captures the checker, blocks its line or takes en passant.
pub proof fn law_every_kind_answers_a_check(n: Node, gt: GenType, i: int)
    requires
        n.regular(),
        n.in_check(),
        0 <= i < n.pseudo(gt).len(),
    ensures
        n.answers(n.pseudo(gt)[i]),
        n.pseudo(GenType::Evasions).contains(n.pseudo(gt)[i]),
{
    broadcast use vstd::seq_lib::group_to_multiset_ensures;

    let s = n.pseudo(gt);
    let all = n.pseudo(GenType::Evasions);
    assert(all.contains(s[i])) by {
        if gt == GenType::Captures || gt == GenType::Quiets {
            law_captures_and_quiets_partition_the_moves(n);
            assert(s.contains(s[i]));
            assert(s.to_multiset().count(s[i]) > 0);
            assert(all.to_multiset().count(s[i]) > 0);
        } else {
            lemma_kinds_in_check(n);
        }
    }
    soundness::lemma_generated(n);
    let j = choose|j: int| 0 <= j < all.len() && all[j] == s[i];
    let p = |m: Move| n.well_moved(m) && n.answers(m);
    assert(p(all[j]));
}

} // verus!
