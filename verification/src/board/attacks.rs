//! Occupancy-dependent slider attacks and the geometry of rays.
//!
//! A slider on `s` attacks `t` when the two squares share a line of its kind and no square
//! strictly between them is occupied. The ray walk here computes exactly that set.

use vstd::prelude::*;
use crate::board::bits;
use crate::board::bitboard::{king_attacks, knight_attacks, pawn_attacks_from, Bitboard};
use crate::board::bitboard;
use crate::board::types::{Color, Direction, PieceType, Square};

verus! {

/// The rook's four ray directions.
pub const ROOK_DIRS: [Direction; 4] = [
    Direction::North,
    Direction::East,
    Direction::South,
    Direction::West,
];

/// The bishop's four ray directions.
pub const BISHOP_DIRS: [Direction; 4] = [
    Direction::NorthEast,
    Direction::SouthEast,
    Direction::SouthWest,
    Direction::NorthWest,
];

// ---------------------------------------------------------------------------
// Geometry
// ---------------------------------------------------------------------------

/// `b` lies strictly between `a` and `c`.
pub open spec fn ordered(a: int, b: int, c: int) -> bool {
    (a < b && b < c) || (c < b && b < a)
}

/// Square `u` lies strictly between `s` and `t` on a rank, a file or a diagonal.
pub open spec fn between(s: int, u: int, t: int) -> bool {
    &&& 0 <= s < 64 && 0 <= u < 64 && 0 <= t < 64
    &&& {
        ||| s / 8 == u / 8 && u / 8 == t / 8 && ordered(s % 8, u % 8, t % 8)
        ||| s % 8 == u % 8 && u % 8 == t % 8 && ordered(s / 8, u / 8, t / 8)
        ||| s / 8 - s % 8 == u / 8 - u % 8 && u / 8 - u % 8 == t / 8 - t % 8 && ordered(
            s % 8,
            u % 8,
            t % 8,
        )
        ||| s / 8 + s % 8 == u / 8 + u % 8 && u / 8 + u % 8 == t / 8 + t % 8 && ordered(
            s % 8,
            u % 8,
            t % 8,
        )
    }
}

/// Two different squares share a rank or a file.
pub open spec fn rook_line(s: int, t: int) -> bool {
    &&& 0 <= s < 64 && 0 <= t < 64 && s != t
    &&& s / 8 == t / 8 || s % 8 == t % 8
}

/// Two different squares share a diagonal.
pub open spec fn bishop_line(s: int, t: int) -> bool {
    &&& 0 <= s < 64 && 0 <= t < 64 && s != t
    &&& s / 8 - s % 8 == t / 8 - t % 8 || s / 8 + s % 8 == t / 8 + t % 8
}

/// No occupied square lies strictly between `s` and `t`.
pub open spec fn clear(occ: u64, s: int, t: int) -> bool {
    forall|u: int| #[trigger] between(s, u, t) ==> !bits::bit(occ, u)
}

/// A rook on `s` attacks `t`.
pub open spec fn rook_hits(occ: u64, s: int, t: int) -> bool {
    rook_line(s, t) && clear(occ, s, t)
}

/// A bishop on `s` attacks `t`.
pub open spec fn bishop_hits(occ: u64, s: int, t: int) -> bool {
    bishop_line(s, t) && clear(occ, s, t)
}

/// A piece of type `pt` and colour `c` on `s` attacks `t` through occupancy `occ`.
pub open spec fn hits(c: Color, pt: PieceType, occ: u64, s: int, t: int) -> bool {
    match pt {
        PieceType::NoType => false,
        PieceType::Pawn => bitboard::pawn_hits(c, s, t),
        PieceType::Knight => bitboard::knight_hits(s, t),
        PieceType::Bishop => bishop_hits(occ, s, t),
        PieceType::Rook => rook_hits(occ, s, t),
        PieceType::Queen => rook_hits(occ, s, t) || bishop_hits(occ, s, t),
        PieceType::King => bitboard::king_hits(s, t),
    }
}

/// Square `t` lies on the ray that leaves `s` in direction `d`.
pub open spec fn on_ray(d: Direction, s: int, t: int) -> bool {
    &&& 0 <= s < 64 && 0 <= t < 64
    &&& match d {
        Direction::North => s % 8 == t % 8 && t / 8 > s / 8,
        Direction::South => s % 8 == t % 8 && t / 8 < s / 8,
        Direction::East => s / 8 == t / 8 && t % 8 > s % 8,
        Direction::West => s / 8 == t / 8 && t % 8 < s % 8,
        Direction::NorthEast => s / 8 - s % 8 == t / 8 - t % 8 && t % 8 > s % 8,
        Direction::SouthWest => s / 8 - s % 8 == t / 8 - t % 8 && t % 8 < s % 8,
        Direction::SouthEast => s / 8 + s % 8 == t / 8 + t % 8 && t % 8 > s % 8,
        Direction::NorthWest => s / 8 + s % 8 == t / 8 + t % 8 && t % 8 < s % 8,
    }
}

/// Squares `a` and `b` differ, share a line, and `t` lies on that whole line.
pub open spec fn on_line(a: int, b: int, t: int) -> bool {
    &&& 0 <= a < 64 && 0 <= b < 64 && 0 <= t < 64 && a != b
    &&& {
        ||| a / 8 == b / 8 && t / 8 == a / 8
        ||| a % 8 == b % 8 && t % 8 == a % 8
        ||| a / 8 - a % 8 == b / 8 - b % 8 && t / 8 - t % 8 == a / 8 - a % 8
        ||| a / 8 + a % 8 == b / 8 + b % 8 && t / 8 + t % 8 == a / 8 + a % 8
    }
}

/// The ray from `a` through `b` passes over `t`.
pub open spec fn on_common_ray(a: int, b: int, t: int) -> bool {
    exists|d: Direction| #[trigger] on_ray(d, a, b) && on_ray(d, a, t)
}

/// A slider that attacks a square is attacked back along the same line by a slider there.
pub proof fn law_slider_attacks_are_symmetric(occ: u64, s: int, t: int)
    ensures
        rook_hits(occ, s, t) == rook_hits(occ, t, s),
        bishop_hits(occ, s, t) == bishop_hits(occ, t, s),
{
    assert forall|u: int| between(s, u, t) == between(t, u, s) by {}
    if clear(occ, s, t) {
        assert forall|u: int| #[trigger] between(t, u, s) implies !bits::bit(occ, u) by {
            assert(between(s, u, t));
        }
    }
    if clear(occ, t, s) {
        assert forall|u: int| #[trigger] between(s, u, t) implies !bits::bit(occ, u) by {
            assert(between(t, u, s));
        }
    }
}

/// What stands on the two end squares does not matter to a slider between them.
pub proof fn law_slider_attacks_ignore_the_ends(a: u64, b: u64, s: int, t: int)
    requires
        forall|i: int| i != s && i != t ==> #[trigger] bits::bit(a, i) == bits::bit(b, i),
    ensures
        rook_hits(a, s, t) == rook_hits(b, s, t),
        bishop_hits(a, s, t) == bishop_hits(b, s, t),
{
    assert forall|u: int| #[trigger] between(s, u, t) implies u != s && u != t by {}
    if clear(a, s, t) {
        assert forall|u: int| #[trigger] between(s, u, t) implies !bits::bit(b, u) by {
            assert(!bits::bit(a, u));
        }
    }
    if clear(b, s, t) {
        assert forall|u: int| #[trigger] between(s, u, t) implies !bits::bit(a, u) by {
            assert(!bits::bit(b, u));
        }
    }
}

// ---------------------------------------------------------------------------
// The ray walk
// ---------------------------------------------------------------------------

/// One more step along a ray adds exactly the square stepped to.
proof fn lemma_ray_step(d: Direction, s: int, c: int, n: int)
    requires
        0 <= s < 64,
        0 <= c < 64,
        0 <= n < 64,
        c == s || on_ray(d, s, c),
        n == c + d.delta(),
        Square::chebyshev(c, n) == 1,
    ensures
        on_ray(d, s, n),
        c != s ==> between(s, c, n),
        forall|t: int|
            on_ray(d, s, t) ==> ((#[trigger] between(s, t, n)) <==> (t == c || between(s, t, c))),
        forall|t: int|
            on_ray(d, s, t) ==> t == n || (#[trigger] between(s, t, n)) || between(s, n, t),
{
}

/// A ray that cannot take one more step has no square beyond.
proof fn lemma_ray_end(d: Direction, s: int, c: int)
    requires
        0 <= s < 64,
        0 <= c < 64,
        c == s || on_ray(d, s, c),
        !(0 <= c + d.delta() < 64) || Square::chebyshev(c, c + d.delta()) != 1,
    ensures
        forall|t: int| on_ray(d, s, t) ==> t == c || #[trigger] between(s, t, c),
{
}

/// A square between `s` and a square of a ray is on the ray.
proof fn lemma_between_on_ray(d: Direction, s: int, t: int)
    requires
        on_ray(d, s, t),
    ensures
        forall|u: int| #[trigger] between(s, u, t) ==> on_ray(d, s, u),
        forall|u: int, v: int|
            #![trigger between(s, u, t), between(s, v, u)]
            between(s, u, t) && between(s, v, u) ==> between(s, v, t),
{
}

/// The squares of the ray from `sq` in direction `d`, up to and with the first occupied one.
fn ray_attacks(d: Direction, sq: Square, occ: Bitboard) -> (r: Bitboard)
    ensures
        forall|t: int| #[trigger]
            r.has(t) == (on_ray(d, sq.idx(), t) && clear(occ.0, sq.idx(), t)),
{
    broadcast use {bits::group_bits, Square::lemma_idx};

    let ghost s = sq.idx();
    let mut acc = Bitboard(0);
    let mut c = sq;
    let mut steps: usize = 0;
    while steps < 7
        invariant
            steps <= 7,
            s == sq.idx(),
            0 <= s < 64,
            c.idx() == s || on_ray(d, s, c.idx()),
            Square::chebyshev(s, c.idx()) == steps,
            clear(occ.0, s, c.idx()),
            c.idx() != s ==> !occ.has(c.idx()),
            forall|t: int| #[trigger]
                acc.has(t) == (on_ray(d, s, t) && (t == c.idx() || between(s, t, c.idx()))),
        decreases 7 - steps,
    {
        let next = match c.try_shift(d) {
            Some(n) => n,
            None => {
                proof {
                    lemma_ray_end(d, s, c.idx());
                    lemma_ray_result(d, s, c.idx(), occ.0, acc.0);
                }
                return acc;
            },
        };
        if next.distance(c) != 1 {
            proof {
                lemma_ray_end(d, s, c.idx());
                lemma_ray_result(d, s, c.idx(), occ.0, acc.0);
            }
            return acc;
        }
        proof {
            lemma_ray_step(d, s, c.idx(), next.idx());
            assert(Square::chebyshev(s, next.idx()) == steps + 1);
            assert forall|u: int| #[trigger] between(s, u, next.idx()) implies !bits::bit(occ.0, u) by {
                lemma_between_on_ray(d, s, next.idx());
                assert(on_ray(d, s, u));
                if u != c.idx() {
                    assert(between(s, u, c.idx()));
                }
            }
        }
        let ghost before = acc;
        acc.set(next);
        proof {
            assert forall|t: int| #[trigger]
                acc.has(t) == (on_ray(d, s, t) && (t == next.idx() || between(s, t, next.idx()))) by {
                assert(before.has(t) == (on_ray(d, s, t) && (t == c.idx() || between(s, t, c.idx()))));
                assert(on_ray(d, s, t) ==> (between(s, t, next.idx()) <==> (t == c.idx() || between(
                    s,
                    t,
                    c.idx(),
                ))));
            }
        }
        if occ.contains(next) {
            proof {
                assert forall|t: int| #[trigger]
                    acc.has(t) == (on_ray(d, s, t) && clear(occ.0, s, t)) by {
                    lemma_ray_stop(d, s, next.idx(), occ.0, t);
                }
            }
            return acc;
        }
        c = next;
        steps += 1;
    }
    proof {
        assert(Square::chebyshev(s, c.idx()) == 7);
        lemma_ray_end(d, s, c.idx());
        lemma_ray_result(d, s, c.idx(), occ.0, acc.0);
    }
    acc
}

/// At the end of a ray, the squares walked over are the clear ones.
proof fn lemma_ray_result(d: Direction, s: int, c: int, occ: u64, acc: u64)
    requires
        c == s || on_ray(d, s, c),
        clear(occ, s, c),
        forall|t: int| on_ray(d, s, t) ==> t == c || #[trigger] between(s, t, c),
        forall|t: int| #[trigger]
            bits::bit(acc, t) == (on_ray(d, s, t) && (t == c || between(s, t, c))),
    ensures
        forall|t: int| #[trigger] bits::bit(acc, t) == (on_ray(d, s, t) && clear(occ, s, t)),
{
    assert forall|t: int| on_ray(d, s, t) implies clear(occ, s, t) by {
        if t != c {
            assert(between(s, t, c));
            lemma_between_on_ray(d, s, c);
            assert forall|u: int| #[trigger] between(s, u, t) implies !bits::bit(occ, u) by {
                assert(between(s, u, c));
            }
        }
    }
}

/// At an occupied square, the squares walked over are the clear ones.
proof fn lemma_ray_stop(d: Direction, s: int, n: int, occ: u64, t: int)
    requires
        on_ray(d, s, n),
        clear(occ, s, n),
        bits::bit(occ, n),
        on_ray(d, s, t) ==> t == n || between(s, t, n) || between(s, n, t),
    ensures
        on_ray(d, s, t) ==> (clear(occ, s, t) <==> (t == n || between(s, t, n))),
{
    if on_ray(d, s, t) {
        if between(s, t, n) {
            lemma_between_on_ray(d, s, n);
            assert forall|u: int| #[trigger] between(s, u, t) implies !bits::bit(occ, u) by {
                assert(between(s, u, n));
            }
        } else if t != n {
            assert(between(s, n, t));
        }
    }
}

/// Walk `dirs` out from `sq`, stopping on (and including) the first occupied square.
pub fn sliding_attacks(dirs: [Direction; 4], sq: Square, occ: Bitboard) -> (r: Bitboard)
    ensures
        forall|t: int| #[trigger]
            r.has(t) <==> clear(occ.0, sq.idx(), t) && exists|k: int|
                0 <= k < 4 && on_ray(#[trigger] dirs@[k], sq.idx(), t),
{
    broadcast use bits::group_bits;

    let a = ray_attacks(dirs[0], sq, occ);
    let b = ray_attacks(dirs[1], sq, occ);
    let c = ray_attacks(dirs[2], sq, occ);
    let d = ray_attacks(dirs[3], sq, occ);
    let r = Bitboard(a.0 | b.0 | c.0 | d.0);
    proof {
        assert forall|t: int| #[trigger]
            r.has(t) <==> clear(occ.0, sq.idx(), t) && exists|k: int|
                0 <= k < 4 && on_ray(#[trigger] dirs@[k], sq.idx(), t) by {
            assert(r.has(t) <==> a.has(t) || b.has(t) || c.has(t) || d.has(t));
        }
    }
    r
}

/// Squares a rook on `sq` attacks through occupancy `occ`.
pub fn rook_attacks(sq: Square, occ: Bitboard) -> (r: Bitboard)
    ensures
        forall|t: int| #[trigger] r.has(t) == rook_hits(occ.0, sq.idx(), t),
{
    broadcast use {bits::group_bits, Square::lemma_idx};

    let a = ray_attacks(Direction::North, sq, occ);
    let b = ray_attacks(Direction::East, sq, occ);
    let c = ray_attacks(Direction::South, sq, occ);
    let d = ray_attacks(Direction::West, sq, occ);
    Bitboard(a.0 | b.0 | c.0 | d.0)
}

/// Squares a bishop on `sq` attacks through occupancy `occ`.
pub fn bishop_attacks(sq: Square, occ: Bitboard) -> (r: Bitboard)
    ensures
        forall|t: int| #[trigger] r.has(t) == bishop_hits(occ.0, sq.idx(), t),
{
    broadcast use {bits::group_bits, Square::lemma_idx};

    let a = ray_attacks(Direction::NorthEast, sq, occ);
    let b = ray_attacks(Direction::SouthEast, sq, occ);
    let c = ray_attacks(Direction::SouthWest, sq, occ);
    let d = ray_attacks(Direction::NorthWest, sq, occ);
    Bitboard(a.0 | b.0 | c.0 | d.0)
}

/// Squares a queen on `sq` attacks through occupancy `occ`.
pub fn queen_attacks(sq: Square, occ: Bitboard) -> (r: Bitboard)
    ensures
        forall|t: int| #[trigger]
            r.has(t) == (rook_hits(occ.0, sq.idx(), t) || bishop_hits(occ.0, sq.idx(), t)),
{
    broadcast use bits::group_bits;

    rook_attacks(sq, occ) | bishop_attacks(sq, occ)
}

/// Bishop and rook attacks from one square.
pub fn both_attacks_bb(sq: Square, occ: Bitboard) -> (r: (Bitboard, Bitboard))
    ensures
        forall|t: int| #[trigger] r.0.has(t) == bishop_hits(occ.0, sq.idx(), t),
        forall|t: int| #[trigger] r.1.has(t) == rook_hits(occ.0, sq.idx(), t),
{
    (bishop_attacks(sq, occ), rook_attacks(sq, occ))
}

/// Squares a piece of type `pt` and colour `c` on `sq` attacks through occupancy `occ`.
pub fn attacks_from(c: Color, pt: PieceType, sq: Square, occ: Bitboard) -> (r: Bitboard)
    requires
        pt != PieceType::NoType,
    ensures
        forall|t: int| #[trigger] r.has(t) == hits(c, pt, occ.0, sq.idx(), t),
{
    match pt {
        PieceType::Pawn => pawn_attacks_from(c, sq),
        PieceType::Knight => knight_attacks(sq),
        PieceType::Bishop => bishop_attacks(sq, occ),
        PieceType::Rook => rook_attacks(sq, occ),
        PieceType::Queen => queen_attacks(sq, occ),
        _ => king_attacks(sq),
    }
}

/// Squares a non-pawn piece of type `pt` on `sq` attacks through occupancy `occ`.
pub fn piece_attacks(pt: PieceType, sq: Square, occ: Bitboard) -> (r: Bitboard)
    requires
        pt != PieceType::NoType,
        pt != PieceType::Pawn,
    ensures
        forall|c: Color, t: int| #![trigger hits(c, pt, occ.0, sq.idx(), t)]
            r.has(t) == hits(c, pt, occ.0, sq.idx(), t),
        forall|t: int| #[trigger] r.has(t) == hits(Color::White, pt, occ.0, sq.idx(), t),
{
    attacks_from(Color::White, pt, sq, occ)
}

// ---------------------------------------------------------------------------
// Ray geometry: between and line
// ---------------------------------------------------------------------------

/// The direction in which `b` lies from `a`, when the two share a line.
fn direction_of(a: Square, b: Square) -> (r: Option<Direction>)
    ensures
        r matches Some(d) ==> on_ray(d, a.idx(), b.idx()),
        r.is_none() ==> !rook_line(a.idx(), b.idx()) && !bishop_line(a.idx(), b.idx()),
{
    broadcast use {Square::lemma_idx, Square::lemma_inj};

    let fa: i32 = (a.index() % 8) as i32;
    let fb: i32 = (b.index() % 8) as i32;
    let ra: i32 = (a.index() / 8) as i32;
    let rb: i32 = (b.index() / 8) as i32;
    if ra == rb {
        if fb > fa {
            Some(Direction::East)
        } else if fb < fa {
            Some(Direction::West)
        } else {
            None
        }
    } else if fa == fb {
        if rb > ra {
            Some(Direction::North)
        } else {
            Some(Direction::South)
        }
    } else if ra - fa == rb - fb {
        if fb > fa {
            Some(Direction::NorthEast)
        } else {
            Some(Direction::SouthWest)
        }
    } else if ra + fa == rb + fb {
        if fb > fa {
            Some(Direction::SouthEast)
        } else {
            Some(Direction::NorthWest)
        }
    } else {
        None
    }
}

/// The squares strictly between `a` and `b`, plus `b` itself.
///
/// Just `b` when the two share no line. The destination is in the set because this is the
/// set on which a checked king's side may block or capture, and the checking piece's own
/// square belongs to it.
pub fn between_bb(a: Square, b: Square) -> (r: Bitboard)
    ensures
        forall|t: int| #[trigger] r.has(t) == (t == b.idx() || between(a.idx(), t, b.idx())),
{
    broadcast use {bits::group_bits, Square::lemma_idx};

    match direction_of(a, b) {
        Some(d) => {
            let stop = Bitboard::from_square(b);
            let r = ray_attacks(d, a, stop);
            proof {
                assert forall|t: int| #[trigger]
                    r.has(t) == (t == b.idx() || between(a.idx(), t, b.idx())) by {
                    lemma_segment(d, a.idx(), b.idx(), stop.0, t);
                }
            }
            r
        },
        None => Bitboard::from_square(b),
    }
}

/// With a single blocker on the ray, the walk covers the squares up to and with it.
proof fn lemma_segment(d: Direction, a: int, b: int, occ: u64, t: int)
    requires
        on_ray(d, a, b),
        forall|i: int| #[trigger] bits::bit(occ, i) == (i == b),
    ensures
        (on_ray(d, a, t) && clear(occ, a, t)) == (t == b || between(a, t, b)),
{
    lemma_between_on_ray(d, a, b);
    if on_ray(d, a, t) && t != b && !between(a, t, b) {
        assert(between(a, b, t));
        assert(bits::bit(occ, b));
    }
    if t == b || between(a, t, b) {
        assert(on_ray(d, a, t));
        assert forall|u: int| #[trigger] between(a, u, t) implies !bits::bit(occ, u) by {
            assert(u != b);
        }
    }
}

/// The whole line through `a` and `b`, or the empty set when they share no line.
pub fn line_bb(a: Square, b: Square) -> (r: Bitboard)
    ensures
        forall|t: int| #[trigger] r.has(t) == on_line(a.idx(), b.idx(), t),
{
    broadcast use {bits::group_bits, Square::lemma_idx};

    match direction_of(a, b) {
        Some(d) => {
            let e = reverse(d);
            let ahead = ray_attacks(d, a, Bitboard(0));
            let behind = ray_attacks(e, a, Bitboard(0));
            let mut r = ahead | behind;
            r.set(a);
            proof {
                assert forall|t: int| clear(0u64, a.idx(), t) by {}
                assert forall|t: int| #[trigger] r.has(t) == on_line(a.idx(), b.idx(), t) by {
                    assert(r.has(t) == (ahead.has(t) || behind.has(t) || t == a.idx()));
                }
            }
            r
        },
        None => Bitboard(0),
    }
}

/// The direction that undoes `d`.
pub open spec fn reversed(d: Direction) -> Direction {
    match d {
        Direction::North => Direction::South,
        Direction::South => Direction::North,
        Direction::East => Direction::West,
        Direction::West => Direction::East,
        Direction::NorthEast => Direction::SouthWest,
        Direction::SouthWest => Direction::NorthEast,
        Direction::SouthEast => Direction::NorthWest,
        Direction::NorthWest => Direction::SouthEast,
    }
}

/// The direction that undoes `d`.
fn reverse(d: Direction) -> (r: Direction)
    ensures
        r == reversed(d),
{
    match d {
        Direction::North => Direction::South,
        Direction::South => Direction::North,
        Direction::East => Direction::West,
        Direction::West => Direction::East,
        Direction::NorthEast => Direction::SouthWest,
        Direction::SouthWest => Direction::NorthEast,
        Direction::SouthEast => Direction::NorthWest,
        Direction::NorthWest => Direction::SouthEast,
    }
}

/// The ray from `a` through `b` and on to the edge, empty when they share no line.
pub fn ray_pass_bb(a: Square, b: Square) -> (r: Bitboard)
    ensures
        forall|t: int| #[trigger] r.has(t) == on_common_ray(a.idx(), b.idx(), t),
{
    broadcast use {bits::group_bits, Square::lemma_idx};

    match direction_of(a, b) {
        Some(d) => {
            let r = ray_attacks(d, a, Bitboard(0));
            proof {
                assert forall|t: int| clear(0u64, a.idx(), t) by {}
                assert forall|e: Direction| #[trigger] on_ray(e, a.idx(), b.idx()) implies e == d by {}
                assert forall|t: int| #[trigger]
                    r.has(t) == on_common_ray(a.idx(), b.idx(), t) by {
                    assert(on_ray(d, a.idx(), b.idx()));
                }
            }
            r
        },
        None => Bitboard(0),
    }
}

/// True when the three squares are collinear: `c` lies on the line through `a` and `b`.
pub fn aligned(a: Square, b: Square, c: Square) -> (r: bool)
    ensures
        r == on_line(a.idx(), b.idx(), c.idx()),
{
    line_bb(a, b).contains(c)
}

/// The line through two squares does not depend on their order.
pub proof fn law_lines_are_symmetric(a: int, b: int, t: int)
    ensures
        on_line(a, b, t) == on_line(b, a, t),
{
}

} // verus!
