//! How many threat features there are: the attacks of every piece on an empty board, counted.

use vstd::prelude::*;
use crate::board::spans;
use crate::board::types::{Color, Piece, PieceType};
use crate::eval::nnue::distinct;
use crate::eval::nnue::features::THREAT_DIMENSIONS;
use crate::eval::nnue::threat_features;

verus! {

/// The kinds that threats are encoded for.
pub open spec fn threatens(pt: PieceType) -> bool {
    pt != PieceType::NoType && pt != PieceType::King
}

proof fn lemma_reach(pc: Piece, s: int, n: int)
    requires
        pc.is_real(),
    ensures
        threat_features::reach(pc, s, n) == spans::hits_upto(pc.side(), pc.kind(), s, n),
    decreases n,
{
    if n > 0 {
        lemma_reach(pc, s, n - 1);
    }
}

/// The places of the origins on one rank.
pub open spec fn rank_places(pt: PieceType, r: int) -> int {
    match pt {
        PieceType::Pawn => if 1 <= r <= 6 {
            14
        } else {
            0
        },
        PieceType::Knight => spans::doubled(r, 2, 14) + spans::doubled(r, 1, 12),
        PieceType::Bishop => 56 + ring(spans::inset(r)),
        PieceType::Rook => 112,
        PieceType::Queen => 168 + ring(spans::inset(r)),
        _ => 0,
    }
}

/// What the files add to a diagonal's length on a rank that is `m` from the edge.
pub open spec fn ring(m: int) -> int {
    if m == 0 {
        0
    } else if m == 1 {
        12
    } else if m == 2 {
        20
    } else {
        24
    }
}

proof fn lemma_origin(pc: Piece, r: int, f: int)
    requires
        threatens(pc.kind()),
        0 <= r < 8,
        0 <= f < 8,
    ensures
        threat_features::places(pc, 8 * r + f + 1) == threat_features::places(pc, 8 * r + f) + (
        if pc.kind() == PieceType::Pawn && !(1 <= r <= 6) {
            0
        } else {
            spans::span(pc.kind(), f, r)
        }),
{
    let s = 8 * r + f;
    assert(s / 8 == r && s % 8 == f);
    if pc.kind() == PieceType::Pawn && !(1 <= r <= 6) {
    } else {
        lemma_reach(pc, s, 64);
        spans::law_spans_count_the_attacks(pc.side(), pc.kind(), s);
    }
}

proof fn lemma_rank(pc: Piece, r: int)
    requires
        threatens(pc.kind()),
        0 <= r < 8,
    ensures
        threat_features::places(pc, 8 * r + 8) == threat_features::places(pc, 8 * r) + rank_places(
            pc.kind(),
            r,
        ),
{
    lemma_origin(pc, r, 0);
    lemma_origin(pc, r, 1);
    lemma_origin(pc, r, 2);
    lemma_origin(pc, r, 3);
    lemma_origin(pc, r, 4);
    lemma_origin(pc, r, 5);
    lemma_origin(pc, r, 6);
    lemma_origin(pc, r, 7);
}

/// How many attacks a piece has on an empty board, over all its origins.
pub open spec fn attack_total(pt: PieceType) -> int {
    match pt {
        PieceType::Pawn => 84,
        PieceType::Knight => 336,
        PieceType::Bishop => 560,
        PieceType::Rook => 896,
        PieceType::Queen => 1456,
        _ => 0,
    }
}

proof fn lemma_places(pc: Piece)
    requires
        threatens(pc.kind()),
    ensures
        threat_features::places(pc, 64) == attack_total(pc.kind()),
{
    lemma_rank(pc, 0);
    lemma_rank(pc, 1);
    lemma_rank(pc, 2);
    lemma_rank(pc, 3);
    lemma_rank(pc, 4);
    lemma_rank(pc, 5);
    lemma_rank(pc, 6);
    lemma_rank(pc, 7);
    assert(threat_features::places(pc, 0) == 0);
}

/// The block of one attacker.
proof fn lemma_block(pc: Piece)
    ensures
        threat_features::block_start(pc.code() + 1) == threat_features::block_start(pc.code())
            + threat_features::targets(pc.kind()) * attack_total(pc.kind()),
{
    threat_features::lemma_coded(pc);
    if threatens(pc.kind()) {
        lemma_places(pc);
    } else {
        let u = threat_features::places(pc, 64);
        assert(0 * u == 0);
    }
}

/// The blocks of all attackers fill the threat features exactly.
pub proof fn law_threats_fill_their_range()
    ensures
        threat_features::block_start(16) == THREAT_DIMENSIONS,
{
    lemma_block(Piece::NONE);
    lemma_block(Piece::W_PAWN);
    lemma_block(Piece::W_KNIGHT);
    lemma_block(Piece::W_BISHOP);
    lemma_block(Piece::W_ROOK);
    lemma_block(Piece::W_QUEEN);
    lemma_block(Piece::W_KING);
    lemma_block(Piece::W_GAP);
    lemma_block(Piece::B_NONE);
    lemma_block(Piece::B_PAWN);
    lemma_block(Piece::B_KNIGHT);
    lemma_block(Piece::B_BISHOP);
    lemma_block(Piece::B_ROOK);
    lemma_block(Piece::B_QUEEN);
    lemma_block(Piece::B_KING);
    lemma_block(Piece::B_GAP);
    assert(threat_features::block_start(0) == 0);
}

/// A threat has a feature of the set exactly when it is encoded: of an attack that the piece can
/// make on an empty board, what is not encoded lies behind the set.
pub proof fn law_threats_in_range(p: Color, ksq: int, a: Piece, x: int, y: int, d: Piece)
    requires
        0 <= x < 64,
        0 <= y < 64,
        a.is_real(),
        d.is_real(),
        threat_features::is_origin(
            threat_features::seen(p, a),
            distinct::as_seen(p, ksq, x),
        ),
        threat_features::reaches(
            threat_features::seen(p, a),
            distinct::as_seen(p, ksq, x),
            distinct::as_seen(p, ksq, y),
        ),
    ensures
        0 <= threat_features::threat_of(p, a, x, y, d, ksq),
        (threat_features::threat_of(p, a, x, y, d, ksq) < THREAT_DIMENSIONS)
            == distinct::encodable(p, ksq, a, x, y, d),
{
    let s = threat_features::seen(p, a);
    let v = threat_features::seen(p, d);
    let f = distinct::as_seen(p, ksq, x);
    let t = distinct::as_seen(p, ksq, y);
    threat_features::lemma_threat_of(p, a, x, y, d, ksq);
    law_threats_fill_their_range();
    if distinct::encodable(p, ksq, a, x, y, d) {
        distinct::lemma_threat(p, ksq, a, x, y, d);
        distinct::lemma_in_block(s, v, f, t);
        distinct::lemma_blocks_grow(s.code() + 1, 16);
    } else {
        reveal(threat_features::threat_of);
        distinct::lemma_seen_kind(p, a);
        distinct::lemma_seen_kind(p, d);
        threat_features::lemma_places(s, f);
        threat_features::lemma_reach(s, f, t);
    }
}

} // verus!
