//! Different facts of a position have different features.

use vstd::prelude::*;
use crate::board::types::{Color, Piece, PieceType};
use crate::eval::nnue::features;
use crate::eval::nnue::pawn_pairs;
use crate::eval::nnue::threat_features;

verus! {

/// Different squares stay different when the board is turned.
proof fn lemma_oriented(s: int, t: int, files: bool, ranks: bool)
    requires
        0 <= s < 64,
        0 <= t < 64,
    ensures
        0 <= features::oriented(s, files, ranks) < 64,
        features::oriented(s, files, ranks) == features::oriented(t, files, ranks) ==> s == t,
{
}

/// With the king in one place, no two pieces on no two squares share a king-piece feature. The
/// two kings have one block, and cannot stand on one square.
pub proof fn law_king_piece_features_differ(
    p: Color,
    ksq: int,
    s: int,
    a: Piece,
    t: int,
    b: Piece,
)
    requires
        0 <= s < 64,
        0 <= t < 64,
        a.is_real(),
        b.is_real(),
        features::halfka_of(p, s, a, ksq) == features::halfka_of(p, t, b, ksq),
    ensures
        s == t,
        a == b || (a.kind() == PieceType::King && b.kind() == PieceType::King),
{
    lemma_oriented(s, t, features::halfka_mirrors(ksq), p == Color::Black);
}

proof fn lemma_pair_numbers_grow(hi: int, lo: int, top: int, low: int)
    requires
        0 <= lo < hi,
        0 <= low < top,
        hi < top,
    ensures
        pawn_pairs::pair_number(hi, lo) < pawn_pairs::pair_number(top, low),
{
    assert(hi * (hi - 1) / 2 + hi <= top * (top - 1) / 2) by (nonlinear_arith)
        requires
            0 < hi < top,
    {
        assert((hi + 1) * hi <= top * (top - 1));
        assert(hi * (hi - 1) + 2 * hi == (hi + 1) * hi);
    }
}

/// Pair numbers of different pairs differ.
proof fn lemma_pair_numbers_differ(a: int, b: int, c: int, d: int)
    requires
        0 <= a,
        0 <= b,
        0 <= c,
        0 <= d,
        a != b,
        c != d,
        pawn_pairs::pair_number(a, b) == pawn_pairs::pair_number(c, d),
    ensures
        (a == c && b == d) || (a == d && b == c),
{
    let (hi, lo) = if a > b {
        (a, b)
    } else {
        (b, a)
    };
    let (top, low) = if c > d {
        (c, d)
    } else {
        (d, c)
    };
    if hi < top {
        lemma_pair_numbers_grow(hi, lo, top, low);
    } else if top < hi {
        lemma_pair_numbers_grow(top, low, hi, lo);
    }
}

/// Different pawns have different slots.
proof fn lemma_slots_differ(p: Color, ksq: int, c: Color, x: int, d: Color, y: int)
    requires
        pawn_pairs::inside(x),
        pawn_pairs::inside(y),
        pawn_pairs::pawn_slot(p, c, x, ksq) == pawn_pairs::pawn_slot(p, d, y, ksq),
    ensures
        c == d,
        x == y,
{
    lemma_oriented(x, y, features::threat_mirrors(ksq), p == Color::Black);
}

/// No two pairs of pawns share a pawn-pair feature.
pub proof fn law_pawn_pair_features_differ(
    p: Color,
    ksq: int,
    c: Color,
    x: int,
    d: Color,
    y: int,
    e: Color,
    z: int,
    f: Color,
    w: int,
)
    requires
        pawn_pairs::inside(x),
        pawn_pairs::inside(y),
        pawn_pairs::inside(z),
        pawn_pairs::inside(w),
        x != y,
        z != w,
        pawn_pairs::pair_of(p, c, x, y, d, ksq) == pawn_pairs::pair_of(p, e, z, w, f, ksq),
    ensures
        (c == e && x == z && d == f && y == w) || (c == f && x == w && d == e && y == z),
{
    pawn_pairs::lemma_slots(p, c, x, y, d, ksq);
    pawn_pairs::lemma_slots(p, e, z, w, f, ksq);
    let i = pawn_pairs::pawn_slot(p, c, x, ksq);
    let j = pawn_pairs::pawn_slot(p, d, y, ksq);
    let k = pawn_pairs::pawn_slot(p, e, z, ksq);
    let l = pawn_pairs::pawn_slot(p, f, w, ksq);
    lemma_pair_numbers_differ(i, j, k, l);
    if i == k && j == l {
        lemma_slots_differ(p, ksq, c, x, e, z);
        lemma_slots_differ(p, ksq, d, y, f, w);
    } else {
        lemma_slots_differ(p, ksq, c, x, f, w);
        lemma_slots_differ(p, ksq, d, y, e, z);
    }
}

// ---------------------------------------------------------------------------
// Threats
// ---------------------------------------------------------------------------

pub proof fn lemma_reach_grows(pc: Piece, f: int, m: int, n: int)
    requires
        0 <= m <= n,
    ensures
        threat_features::reach(pc, f, m) <= threat_features::reach(pc, f, n),
        m < n && threat_features::reaches(pc, f, m) ==> threat_features::reach(pc, f, m)
            < threat_features::reach(pc, f, n),
    decreases n - m,
{
    if m < n {
        lemma_reach_grows(pc, f, m, n - 1);
    }
}

pub proof fn lemma_places_grow(pc: Piece, m: int, n: int)
    requires
        0 <= m <= n,
    ensures
        threat_features::places(pc, m) <= threat_features::places(pc, n),
        m < n && threat_features::is_origin(pc, m) ==> threat_features::places(pc, m)
            + threat_features::reach(pc, m, 64) <= threat_features::places(pc, n),
    decreases n - m,
{
    if m < n {
        threat_features::lemma_reach(pc, n - 1, 64);
        lemma_places_grow(pc, m, n - 1);
    }
}

/// An attack has its place within those of its piece.
pub proof fn lemma_place_within(pc: Piece, f: int, t: int)
    requires
        pc.is_real(),
        0 <= f < 64,
        0 <= t < 64,
        threat_features::is_origin(pc, f),
        threat_features::reaches(pc, f, t),
    ensures
        0 <= threat_features::place(pc, f, t) < threat_features::places(pc, 64),
{
    threat_features::lemma_places(pc, f);
    threat_features::lemma_reach(pc, f, t);
    lemma_reach_grows(pc, f, t, 64);
    lemma_places_grow(pc, f, 64);
}

/// Different attacks of a piece have different places.
proof fn lemma_places_differ(pc: Piece, f: int, t: int, g: int, u: int)
    requires
        pc.is_real(),
        0 <= f < 64,
        0 <= t < 64,
        0 <= g < 64,
        0 <= u < 64,
        threat_features::is_origin(pc, f),
        threat_features::is_origin(pc, g),
        threat_features::reaches(pc, f, t),
        threat_features::reaches(pc, g, u),
        threat_features::place(pc, f, t) == threat_features::place(pc, g, u),
    ensures
        f == g,
        t == u,
{
    threat_features::lemma_reach(pc, f, t);
    threat_features::lemma_reach(pc, g, u);
    lemma_reach_grows(pc, f, t, 64);
    lemma_reach_grows(pc, g, u, 64);
    if f < g {
        lemma_places_grow(pc, f, g);
    } else if g < f {
        lemma_places_grow(pc, g, f);
    } else if t < u {
        lemma_reach_grows(pc, f, t, u);
    } else if u < t {
        lemma_reach_grows(pc, f, u, t);
    }
}

pub proof fn lemma_blocks_grow(m: int, n: int)
    requires
        0 <= m <= n,
    ensures
        threat_features::block_start(m) <= threat_features::block_start(n),
        m < n ==> threat_features::block_start(m) + threat_features::targets(
            threat_features::coded(m).kind(),
        ) * threat_features::places(threat_features::coded(m), 64)
            <= threat_features::block_start(n),
    decreases n - m,
{
    if m < n {
        lemma_blocks_grow(m, n - 1);
        let pc = threat_features::coded(n - 1);
        threat_features::lemma_places(pc, 64);
        assert(0 <= threat_features::targets(pc.kind()) * threat_features::places(pc, 64))
            by (nonlinear_arith)
            requires
                0 <= threat_features::targets(pc.kind()),
                0 <= threat_features::places(pc, 64),
        ;
    }
}

/// Which of the attacker's targets this is: the victim's colour and class.
pub open spec fn target_number(a: Piece, d: Piece) -> int {
    d.side().idx() * (threat_features::targets(a.kind()) / 2) + threat_features::class_of(
        a.kind(),
        d.kind(),
    )
}

/// The pair of pieces is encoded.
pub open spec fn encoded(a: Piece, d: Piece) -> bool {
    a.is_real() && d.is_real() && threat_features::class_of(a.kind(), d.kind()) >= 0
}

pub proof fn lemma_target_numbers(a: Piece, d: Piece, e: Piece)
    requires
        encoded(a, d),
        encoded(a, e),
    ensures
        0 <= target_number(a, d) < threat_features::targets(a.kind()),
        target_number(a, d) == target_number(a, e) ==> d == e,
{
}

/// An encoded threat lies in its attacker's block.
pub proof fn lemma_in_block(a: Piece, d: Piece, f: int, t: int)
    requires
        encoded(a, d),
        0 <= f < 64,
        0 <= t < 64,
        threat_features::is_origin(a, f),
        threat_features::reaches(a, f, t),
    ensures
        ({
            let size = threat_features::places(a, 64);
            let at = target_number(a, d) * size + threat_features::place(a, f, t);
            &&& 0 <= at
            &&& threat_features::block_start(a.code()) + at < threat_features::block_start(
                a.code() + 1,
            )
        }),
{
    lemma_place_within(a, f, t);
    lemma_target_numbers(a, d, d);
    threat_features::lemma_coded(a);
    let size = threat_features::places(a, 64);
    let k = target_number(a, d);
    let n = threat_features::targets(a.kind());
    assert(0 <= k * size && k * size + size <= n * size) by (nonlinear_arith)
        requires
            0 <= k < n,
            0 < size,
    ;
}

proof fn lemma_parts(k: int, x: int, j: int, y: int, size: int)
    requires
        0 <= x < size,
        0 <= y < size,
        k * size + x == j * size + y,
    ensures
        k == j,
        x == y,
{
    assert(k == j) by (nonlinear_arith)
        requires
            0 <= x < size,
            0 <= y < size,
            k * size + x == j * size + y,
    ;
}

/// The threat as its perspective sees it: the pieces seen from its side, the squares turned.
pub open spec fn as_seen(p: Color, ksq: int, x: int) -> int {
    features::oriented(x, features::threat_mirrors(ksq), p == Color::Black)
}

/// A threat that is encoded and can be made on an empty board.
pub open spec fn encodable(p: Color, ksq: int, a: Piece, x: int, y: int, d: Piece) -> bool {
    let f = as_seen(p, ksq, x);
    let t = as_seen(p, ksq, y);
    &&& encoded(threat_features::seen(p, a), threat_features::seen(p, d))
    &&& !(f < t && a.kind() == d.kind())
    &&& threat_features::is_origin(threat_features::seen(p, a), f)
    &&& threat_features::reaches(threat_features::seen(p, a), f, t)
}

pub proof fn lemma_threat(p: Color, ksq: int, a: Piece, x: int, y: int, d: Piece)
    requires
        0 <= x < 64,
        0 <= y < 64,
        encodable(p, ksq, a, x, y, d),
    ensures
        ({
            let s = threat_features::seen(p, a);
            let v = threat_features::seen(p, d);
            let f = as_seen(p, ksq, x);
            let t = as_seen(p, ksq, y);
            &&& 0 <= f < 64
            &&& 0 <= t < 64
            &&& threat_features::threat_of(p, a, x, y, d, ksq) == threat_features::block_start(
                s.code(),
            ) + target_number(s, v) * threat_features::places(s, 64) + threat_features::place(
                s,
                f,
                t,
            )
        }),
{
    reveal(threat_features::threat_of);
    lemma_oriented(x, y, features::threat_mirrors(ksq), p == Color::Black);
    lemma_oriented(y, x, features::threat_mirrors(ksq), p == Color::Black);
    lemma_seen_kind(p, a);
    lemma_seen_kind(p, d);
}

/// No two encoded threats share a threat feature.
pub proof fn law_threat_features_differ(
    p: Color,
    ksq: int,
    a: Piece,
    x: int,
    y: int,
    d: Piece,
    b: Piece,
    z: int,
    w: int,
    e: Piece,
)
    requires
        0 <= x < 64,
        0 <= y < 64,
        0 <= z < 64,
        0 <= w < 64,
        encodable(p, ksq, a, x, y, d),
        encodable(p, ksq, b, z, w, e),
        threat_features::threat_of(p, a, x, y, d, ksq) == threat_features::threat_of(
            p,
            b,
            z,
            w,
            e,
            ksq,
        ),
    ensures
        a == b,
        x == z,
        y == w,
        d == e,
{
    lemma_threat(p, ksq, a, x, y, d);
    lemma_threat(p, ksq, b, z, w, e);
    let s = threat_features::seen(p, a);
    let r = threat_features::seen(p, b);
    let v = threat_features::seen(p, d);
    let u = threat_features::seen(p, e);
    let (f, t) = (as_seen(p, ksq, x), as_seen(p, ksq, y));
    let (g, q) = (as_seen(p, ksq, z), as_seen(p, ksq, w));
    lemma_in_block(s, v, f, t);
    lemma_in_block(r, u, g, q);
    if s.code() < r.code() {
        lemma_blocks_grow(s.code() + 1, r.code());
    } else if r.code() < s.code() {
        lemma_blocks_grow(r.code() + 1, s.code());
    }
    threat_features::lemma_coded(s);
    threat_features::lemma_coded(r);
    assert(s == r);
    lemma_place_within(s, f, t);
    lemma_place_within(s, g, q);
    lemma_parts(
        target_number(s, v),
        threat_features::place(s, f, t),
        target_number(s, u),
        threat_features::place(s, g, q),
        threat_features::places(s, 64),
    );
    lemma_places_differ(s, f, t, g, q);
    lemma_target_numbers(s, v, u);
    lemma_oriented(x, z, features::threat_mirrors(ksq), p == Color::Black);
    lemma_oriented(y, w, features::threat_mirrors(ksq), p == Color::Black);
    lemma_seen_differs(p, a, b);
    lemma_seen_differs(p, d, e);
}

/// The other colour's piece, by its code.
pub proof fn lemma_toggled(pc: Piece) -> (other: Piece)
    ensures
        other == threat_features::toggled(pc),
        other.code() == (pc.code() + 8) % 16,
        other.kind() == pc.kind(),
{
    let other = match pc {
        Piece::NONE => Piece::B_NONE,
        Piece::W_PAWN => Piece::B_PAWN,
        Piece::W_KNIGHT => Piece::B_KNIGHT,
        Piece::W_BISHOP => Piece::B_BISHOP,
        Piece::W_ROOK => Piece::B_ROOK,
        Piece::W_QUEEN => Piece::B_QUEEN,
        Piece::W_KING => Piece::B_KING,
        Piece::W_GAP => Piece::B_GAP,
        Piece::B_NONE => Piece::NONE,
        Piece::B_PAWN => Piece::W_PAWN,
        Piece::B_KNIGHT => Piece::W_KNIGHT,
        Piece::B_BISHOP => Piece::W_BISHOP,
        Piece::B_ROOK => Piece::W_ROOK,
        Piece::B_QUEEN => Piece::W_QUEEN,
        Piece::B_KING => Piece::W_KING,
        Piece::B_GAP => Piece::W_GAP,
    };
    threat_features::lemma_coded(other);
    other
}

pub proof fn lemma_seen_kind(p: Color, a: Piece)
    ensures
        threat_features::seen(p, a).kind() == a.kind(),
{
    let _ = lemma_toggled(a);
}

proof fn lemma_seen_differs(p: Color, a: Piece, b: Piece)
    ensures
        threat_features::seen(p, a) == threat_features::seen(p, b) ==> a == b,
{
    let x = lemma_toggled(a);
    let y = lemma_toggled(b);
    threat_features::lemma_coded(a);
    threat_features::lemma_coded(b);
}

} // verus!
