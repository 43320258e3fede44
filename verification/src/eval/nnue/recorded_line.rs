//! What a recorded move leaves behind carries an accumulator from one placement to the next.

use vstd::prelude::*;
use crate::board::placement;
use crate::board::recording;
use crate::board::threats::DirtyPawnPairs;
use crate::board::transition;
use crate::board::types::{Color, Key, Move, MoveType, Piece, Square};
use crate::eval::nnue::features;
use crate::eval::nnue::pawn_pairs;
use crate::eval::nnue::threat_balance;
use crate::eval::nnue::threat_features;
use crate::eval::nnue::transformer;
use crate::eval::nnue::transformer::EvalScratch;

verus! {

/// What the active threats of a placement weigh.
pub open spec fn weight(b: Seq<Piece>, f: spec_fn(int) -> int, p: Color, ksq: int) -> int {
    features::total(threat_features::threats_upto(b, p, ksq, 64), f)
}

proof fn lemma_lifting(b: Seq<Piece>, s: int, f: spec_fn(int) -> int, p: Color, ksq: int)
    requires
        placement::clean(b),
        0 <= s < 64,
    ensures
        placement::clean(b.update(s, Piece::NONE)),
        weight(b.update(s, Piece::NONE), f, p, ksq) == weight(b, f, p, ksq) + threat_balance::net(
            recording::lifting(b, s),
            f,
            p,
            ksq,
        ),
{
    reveal(recording::lifting);
    let dts = recording::lifting(b, s);
    let b0 = b.update(s, Piece::NONE);
    assert forall|i: int| 0 <= i < 64 implies #[trigger] b0[i] == Piece::NONE || b0[i].is_real() by {
        assert(b[i] == Piece::NONE || b[i].is_real());
    }
    if b[s] == Piece::NONE {
        assert(b0 =~= b);
    } else {
        threat_balance::law_a_placement_changes_the_threats_by_its_record(b, s, false, p, ksq, f);
        threat_balance::lemma_net(dts, f, p, ksq, dts.len() as int);
        assert(dts.subrange(0, dts.len() as int) =~= dts);
    }
}

proof fn lemma_dropping(
    b: Seq<Piece>,
    pc: Piece,
    s: int,
    f: spec_fn(int) -> int,
    p: Color,
    ksq: int,
)
    requires
        placement::clean(b),
        0 <= s < 64,
        b[s] == Piece::NONE,
        pc.is_real(),
    ensures
        placement::clean(b.update(s, pc)),
        weight(b.update(s, pc), f, p, ksq) == weight(b, f, p, ksq) + threat_balance::net(
            recording::dropping(b, pc, s),
            f,
            p,
            ksq,
        ),
{
    reveal(recording::dropping);
    let dts = recording::dropping(b, pc, s);
    let b1 = b.update(s, pc);
    assert forall|i: int| 0 <= i < 64 implies #[trigger] b1[i] == Piece::NONE || b1[i].is_real() by {
        assert(b[i] == Piece::NONE || b[i].is_real());
    }
    assert(b1.update(s, Piece::NONE) =~= b);
    threat_balance::law_a_placement_changes_the_threats_by_its_record(b1, s, true, p, ksq, f);
    threat_balance::lemma_net(dts, f, p, ksq, dts.len() as int);
    assert(dts.subrange(0, dts.len() as int) =~= dts);
}

/// The changes of a move weigh what its two placements differ by.
proof fn lemma_changes(
    b: Seq<Piece>,
    us: Color,
    m: Move,
    f: spec_fn(int) -> int,
    p: Color,
    ksq: int,
)
    requires
        placement::clean(b),
        transition::can_make(b, us, m),
    ensures
        weight(transition::board_after(b, us, m), f, p, ksq) == weight(b, f, p, ksq)
            + threat_balance::net(recording::changes_of(b, us, m), f, p, ksq),
{
    broadcast use Square::lemma_idx;

    if m.kind() == MoveType::Castling {
        let (king_to, rook_to) = (
            crate::board::position::castle_king_to(m.src(), m.dst() > m.src()),
            crate::board::position::castle_rook_to(m.src(), m.dst() > m.src()),
        );
        let b1 = b.update(m.src(), Piece::NONE);
        let b2 = b1.update(m.dst(), Piece::NONE);
        let b3 = b2.update(king_to, b[m.src()]);
        let l1 = recording::lifting(b, m.src());
        let l2 = recording::lifting(b1, m.dst());
        let d1 = recording::dropping(b2, b[m.src()], king_to);
        let d2 = recording::dropping(b3, b[m.dst()], rook_to);
        lemma_lifting(b, m.src(), f, p, ksq);
        lemma_lifting(b1, m.dst(), f, p, ksq);
        lemma_dropping(b2, b[m.src()], king_to, f, p, ksq);
        lemma_dropping(b3, b[m.dst()], rook_to, f, p, ksq);
        threat_balance::lemma_net_join(l1, l2, f, p, ksq);
        threat_balance::lemma_net_join(l1 + l2, d1, f, p, ksq);
        threat_balance::lemma_net_join(l1 + l2 + d1, d2, f, p, ksq);
    } else {
        let cs = transition::capture_square(us, m);
        let pc = transition::arriving(b, us, m);
        let b1 = b.update(cs, Piece::NONE);
        let b2 = b1.update(m.src(), Piece::NONE);
        let l1 = recording::lifting(b, cs);
        let l2 = recording::lifting(b1, m.src());
        let d1 = recording::dropping(b2, pc, m.dst());
        lemma_lifting(b, cs, f, p, ksq);
        lemma_lifting(b1, m.src(), f, p, ksq);
        lemma_dropping(b2, pc, m.dst(), f, p, ksq);
        threat_balance::lemma_net_join(l1, l2, f, p, ksq);
        threat_balance::lemma_net_join(l1 + l2, d1, f, p, ksq);
    }
}

/// What a move records is the difference that it made to the threats and the pawn pairs,
/// whatever weight the features have.
pub proof fn law_a_recorded_move_is_faithful(
    b: Seq<Piece>,
    us: Color,
    m: Move,
    dpp: DirtyPawnPairs,
)
    requires
        placement::clean(b),
        transition::can_make(b, us, m),
        recording::holds_pawns_of(b, dpp.before@),
        recording::holds_pawns_of(transition::board_after(b, us, m), dpp.after@),
    ensures
        transformer::faithful(
            b,
            transition::board_after(b, us, m),
            recording::changes_of(b, us, m),
            dpp,
        ),
{
    let a = transition::board_after(b, us, m);
    let dts = recording::changes_of(b, us, m);
    pawn_pairs::lemma_pawns(b, Color::White, dpp.before@[0].0);
    pawn_pairs::lemma_pawns(b, Color::Black, dpp.before@[1].0);
    pawn_pairs::lemma_pawns(a, Color::White, dpp.after@[0].0);
    pawn_pairs::lemma_pawns(a, Color::Black, dpp.after@[1].0);
    assert forall|p: Color, ksq: int, f: spec_fn(int) -> int|
        0 <= ksq < 64 implies #[trigger] features::total(transformer::tp_set(a, p, ksq), f)
        == features::total(transformer::tp_set(b, p, ksq), f) + features::total(
        threat_features::changes_upto(dts, p, ksq, true, dts.len() as int),
        f,
    ) - features::total(
        threat_features::changes_upto(dts, p, ksq, false, dts.len() as int),
        f,
    ) + features::total(
        pawn_pairs::pairs_upto(dpp.after@[0].0, dpp.after@[1].0, dpp.touched(), p, ksq, 64),
        f,
    ) - features::total(
        pawn_pairs::pairs_upto(dpp.before@[0].0, dpp.before@[1].0, dpp.touched(), p, ksq, 64),
        f,
    ) by {
        lemma_changes(b, us, m, f, p, ksq);
        threat_balance::lemma_net(dts, f, p, ksq, dts.len() as int);
        assert(dts.subrange(0, dts.len() as int) =~= dts);
        pawn_pairs::law_pair_delta_is_the_difference(dpp, p, ksq, f);
        features::lemma_total_add(
            threat_features::threats_upto(a, p, ksq, 64),
            pawn_pairs::pairs_of(dpp.after@[0].0, dpp.after@[1].0, p, ksq),
            f,
        );
        features::lemma_total_add(
            threat_features::threats_upto(b, p, ksq, 64),
            pawn_pairs::pairs_of(dpp.before@[0].0, dpp.before@[1].0, p, ksq),
            f,
        );
    }
}

/// Recording a move at the ply after the one that was reached continues the line, provided
/// that no accumulator kept for that ply carries the new key for another placement.
pub proof fn law_a_recorded_move_continues_the_line(
    pre: EvalScratch,
    post: EvalScratch,
    b: Seq<Piece>,
    key: Key,
    ply: int,
    us: Color,
    m: Move,
    next: Key,
)
    requires
        0 <= ply,
        pre.on_line(b, key, ply),
        pre.plies@[ply].board@ == b,
        pre.plies@[ply].reached == key,
        pre.plies@[ply].placed(),
        placement::clean(b),
        transition::can_make(b, us, m),
        post.white == pre.white,
        post.black == pre.black,
        forall|h: int| 0 <= h <= ply ==> #[trigger] post.plies@[h] == pre.plies@[h],
        post.plies@[ply + 1].reached == next,
        post.plies@[ply + 1].dts@ == recording::changes_of(b, us, m),
        recording::holds_pawns_of(b, post.plies@[ply + 1].dpp.before@),
        post.plies@[ply + 1].board@ == transition::board_after(b, us, m),
        post.plies@[ply + 1].placed(),
        recording::holds_pawns_of(post.plies@[ply + 1].board@, post.plies@[ply + 1].dpp.after@),
        forall|p: Color|
            (#[trigger] pre.lane(p)).sides@[ply + 1].king is Some && pre.lane(p).sides@[ply
                + 1].computed_for == next ==> pre.lane(p).sides@[ply + 1].board@
                == transition::board_after(b, us, m),
    ensures
        post.on_line(transition::board_after(b, us, m), next, ply + 1),
{
    let a = transition::board_after(b, us, m);
    let n = ply + 1;
    law_a_recorded_move_is_faithful(b, us, m, post.plies@[n].dpp);
    assert forall|h: int| 0 <= h <= n implies (#[trigger] post.plies@[h]).placed() by {
        if h < ply {
            assert(pre.plies@[h].placed());
        }
    }
    assert forall|h: int|
        1 <= h <= n && (#[trigger] post.plies@[h]).recorded implies transformer::faithful(
        post.board_at(a, n, h - 1),
        post.board_at(a, n, h),
        post.plies@[h].dts@,
        post.plies@[h].dpp,
    ) by {
        assert(post.plies@[h - 1] == pre.plies@[h - 1]);
        if h <= ply {
            assert(pre.plies@[h].recorded);
            assert(pre.board_at(b, ply, h) == post.board_at(a, n, h));
            assert(pre.board_at(b, ply, h - 1) == post.board_at(a, n, h - 1));
        }
    }
    assert forall|p: Color, h: int|
        0 <= h <= n && #[trigger] post.lane(p).sides@[h].king is Some
            && post.lane(p).sides@[h].computed_for == post.reached_at(
            next,
            n,
            h,
        ) implies post.lane(p).sides@[h].board@ == post.board_at(a, n, h) by {
        assert(post.lane(p) == pre.lane(p));
        if h <= ply {
            assert(pre.lane(p).sides@[h].king is Some);
            assert(post.plies@[h] == pre.plies@[h]);
        }
    }
    assert forall|p: Color|
        (#[trigger] post.lane(p)).sides@[n].king is Some && post.lane(p).sides@[n].computed_for
            == next implies post.lane(p).sides@[n].board@ == a by {
        assert(post.lane(p) == pre.lane(p));
    }
}

} // verus!
