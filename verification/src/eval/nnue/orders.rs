//! In which order the features are numbered.

use vstd::prelude::*;
use crate::board::types::{Color, Piece, PieceType};
use crate::eval::nnue::distinct;
use crate::eval::nnue::features;
use crate::eval::nnue::pawn_pairs;
use crate::eval::nnue::threat_features;

verus! {

/// A square as the threat and pawn-pair sets turn it: the files mirrored for a king on the e to h
/// files, the ranks for Black.
pub open spec fn turned(p: Color, ksq: int, x: int) -> int {
    8 * (if p == Color::Black {
        7 - x / 8
    } else {
        x / 8
    }) + (if ksq % 8 >= 4 {
        7 - x % 8
    } else {
        x % 8
    })
}

/// The place of a piece in the order of a perspective: its own by kind, then the other side's.
pub open spec fn seat(p: Color, pc: Piece) -> int {
    (if pc.side() == p {
        0int
    } else {
        8int
    }) + match pc.kind() {
        PieceType::Pawn => 1int,
        PieceType::Knight => 2,
        PieceType::Bishop => 3,
        PieceType::Rook => 4,
        PieceType::Queen => 5,
        PieceType::King => 6,
        PieceType::NoType => 0,
    }
}

#[verifier::spinoff_prover]
proof fn lemma_seat(p: Color, pc: Piece)
    requires
        threat_features::seen(p, pc).is_real(),
    ensures
        threat_features::seen(p, pc).code() == seat(p, pc),
        threat_features::seen(p, pc).kind() == pc.kind(),
        (threat_features::seen(p, pc).side() == Color::White) == (pc.side() == p),
        pc.is_real(),
{
    let _ = distinct::lemma_toggled(pc);
}

/// The threats are numbered in order: by the attacker, own pieces before the other side's; then by
/// the victim, again own pieces first and the kinds in order; then by the square that the attack
/// comes from, and by the one that it goes to.
#[verifier::spinoff_prover]
#[verifier::rlimit(40)]
pub proof fn law_threats_are_numbered_in_order(
    p: Color,
    ksq: int,
    a: Piece,
    x: int,
    y: int,
    d: Piece,
    b: Piece,
    z: int,
    w: int,
    e: Piece,
)
    requires
        0 <= x < 64,
        0 <= y < 64,
        0 <= z < 64,
        0 <= w < 64,
        distinct::encodable(p, ksq, a, x, y, d),
        distinct::encodable(p, ksq, b, z, w, e),
    ensures
        ({
            let i = threat_features::threat_of(p, a, x, y, d, ksq);
            let j = threat_features::threat_of(p, b, z, w, e, ksq);
            &&& seat(p, a) < seat(p, b) ==> i < j
            &&& a == b && seat(p, d) < seat(p, e) ==> i < j
            &&& a == b && d == e && turned(p, ksq, x) < turned(p, ksq, z) ==> i < j
            &&& a == b && d == e && x == z && turned(p, ksq, y) < turned(p, ksq, w) ==> i < j
        }),
{
    distinct::lemma_threat(p, ksq, a, x, y, d);
    distinct::lemma_threat(p, ksq, b, z, w, e);
    let s = threat_features::seen(p, a);
    let r = threat_features::seen(p, b);
    let v = threat_features::seen(p, d);
    let u = threat_features::seen(p, e);
    let (f, t) = (distinct::as_seen(p, ksq, x), distinct::as_seen(p, ksq, y));
    let (g, q) = (distinct::as_seen(p, ksq, z), distinct::as_seen(p, ksq, w));
    assert(f == turned(p, ksq, x) && t == turned(p, ksq, y));
    assert(g == turned(p, ksq, z) && q == turned(p, ksq, w));
    lemma_seat(p, a);
    lemma_seat(p, b);
    lemma_seat(p, d);
    lemma_seat(p, e);
    distinct::lemma_in_block(s, v, f, t);
    distinct::lemma_in_block(r, u, g, q);
    distinct::lemma_place_within(s, f, t);
    distinct::lemma_place_within(r, g, q);
    if seat(p, a) < seat(p, b) {
        distinct::lemma_blocks_grow(s.code() + 1, r.code());
    }
    if a == b {
        let size = threat_features::places(s, 64);
        let k = distinct::target_number(s, v);
        let l = distinct::target_number(s, u);
        if seat(p, d) < seat(p, e) {
            lemma_targets(s, v, u);
            assert(k * size + size <= l * size) by (nonlinear_arith)
                requires
                    k + 1 <= l,
                    0 < size,
            ;
        } else if d == e {
            threat_features::lemma_reach(s, f, t);
            threat_features::lemma_reach(s, g, q);
            if f < g {
                distinct::lemma_reach_grows(s, f, t, 64);
                distinct::lemma_places_grow(s, f, g);
            }
            if f == g && t < q {
                distinct::lemma_reach_grows(s, f, t, q);
            }
        }
    }
}

#[verifier::spinoff_prover]
proof fn lemma_targets(s: Piece, v: Piece, u: Piece)
    requires
        distinct::encoded(s, v),
        distinct::encoded(s, u),
        v.code() < u.code(),
    ensures
        distinct::target_number(s, v) < distinct::target_number(s, u),
{
}

/// The slot of a pawn: own pawns first, by their turned squares from a2 on.
pub open spec fn slot(p: Color, c: Color, x: int, ksq: int) -> int {
    turned(p, ksq, x) - 8 + (if c == p {
        0int
    } else {
        48int
    })
}

/// The greater of two numbers.
pub open spec fn greater(a: int, b: int) -> int {
    if a > b {
        a
    } else {
        b
    }
}

/// The lesser of two numbers.
pub open spec fn lesser(a: int, b: int) -> int {
    if a > b {
        b
    } else {
        a
    }
}

proof fn lemma_rows(h: int, l: int, k: int, m: int)
    requires
        0 <= l < h,
        0 <= m < k,
    ensures
        h < k ==> h * (h - 1) / 2 + l < k * (k - 1) / 2 + m,
{
    if h < k {
        assert(h * (h - 1) + 2 * h <= k * (k - 1)) by (nonlinear_arith)
            requires
                0 <= h,
                h + 1 <= k,
        ;
    }
}

proof fn lemma_slot(p: Color, c: Color, x: int, ksq: int)
    ensures
        slot(p, c, x, ksq) == pawn_pairs::pawn_slot(p, c, x, ksq),
{
}

#[verifier::spinoff_prover]
proof fn lemma_pair_order(s: int, t: int, u: int, v: int)
    requires
        0 <= s,
        0 <= t,
        0 <= u,
        0 <= v,
        s != t,
        u != v,
    ensures
        ({
            let i = pawn_pairs::pair_number(s, t);
            let j = pawn_pairs::pair_number(u, v);
            let h = greater(s, t);
            let l = lesser(s, t);
            let k = greater(u, v);
            let m = lesser(u, v);
            &&& h < k ==> i < j
            &&& h == k ==> j - i == m - l
            &&& h == 1 && l == 0 ==> i == 0
            &&& h == l + 1 && k == h + 1 && m == 0 ==> j == i + 1
        }),
{
    let h = greater(s, t);
    let l = lesser(s, t);
    let k = greater(u, v);
    let m = lesser(u, v);
    lemma_rows(h, l, k, m);
    if k == h + 1 && m == 0 && h == l + 1 {
        assert(k * (k - 1) == h * (h - 1) + 2 * h) by (nonlinear_arith)
            requires
                k == h + 1,
        ;
    }
    if h == 1 {
        assert(h * (h - 1) == 0) by (nonlinear_arith)
            requires
                h == 1,
        ;
    }
}

/// The pawn pairs are numbered in order: by the greater of the two slots, then by the lesser one, with
/// no number left out.
pub proof fn law_pawn_pairs_are_numbered_in_order(
    p: Color,
    ksq: int,
    c: Color,
    x: int,
    d: Color,
    y: int,
    a: Color,
    z: int,
    b: Color,
    w: int,
)
    requires
        8 <= x < 56,
        8 <= y < 56,
        8 <= z < 56,
        8 <= w < 56,
        x != y || c != d,
        z != w || a != b,
    ensures
        ({
            let i = pawn_pairs::pair_of(p, c, x, y, d, ksq);
            let j = pawn_pairs::pair_of(p, a, z, w, b, ksq);
            let h = greater(slot(p, c, x, ksq), slot(p, d, y, ksq));
            let l = lesser(slot(p, c, x, ksq), slot(p, d, y, ksq));
            let k = greater(slot(p, a, z, ksq), slot(p, b, w, ksq));
            let m = lesser(slot(p, a, z, ksq), slot(p, b, w, ksq));
            &&& h < k ==> i < j
            &&& h == k ==> j - i == m - l
            &&& h == 1 && l == 0 ==> i == 59808
            &&& h == l + 1 && k == h + 1 && m == 0 ==> j == i + 1
        }),
{
    let s = slot(p, c, x, ksq);
    let t = slot(p, d, y, ksq);
    let u = slot(p, a, z, ksq);
    let v = slot(p, b, w, ksq);
    lemma_slot(p, c, x, ksq);
    lemma_slot(p, d, y, ksq);
    lemma_slot(p, a, z, ksq);
    lemma_slot(p, b, w, ksq);
    pawn_pairs::lemma_slots(p, c, x, y, d, ksq);
    pawn_pairs::lemma_slots(p, a, z, w, b, ksq);
    lemma_pair_order(s, t, u, v);
}

/// The king-piece features of a king's bucket are numbered by kind and side, own pieces first, and
/// then by the square, mirrored for a king on the a to d files and turned for Black.
#[verifier::spinoff_prover]
pub proof fn law_king_piece_features_are_in_order(p: Color, ksq: int, a: Piece, x: int, b: Piece, y: int)
    requires
        0 <= x < 64,
        0 <= y < 64,
        0 <= ksq < 64,
        a.is_real(),
        b.is_real(),
    ensures
        a == b ==> features::halfka_of(p, y, b, ksq) - features::halfka_of(p, x, a, ksq) == turned(
            p,
            7 - ksq % 8,
            y,
        ) - turned(p, 7 - ksq % 8, x),
        a.kind() != PieceType::King && a.kind() == b.kind() && a.side() == p && b.side() != p
            ==> features::halfka_of(p, x, a, ksq) < features::halfka_of(p, y, b, ksq),
        a.kind().idx() < b.kind().idx() ==> features::halfka_of(p, x, a, ksq) < features::halfka_of(
            p,
            y,
            b,
            ksq,
        ),
{
    assert(0 <= features::oriented(x, features::halfka_mirrors(ksq), p == Color::Black) < 64);
    assert(0 <= features::oriented(y, features::halfka_mirrors(ksq), p == Color::Black) < 64);
}

} // verus!
