//! Placing or removing a piece changes the active threats by exactly what is recorded for it.

use vstd::prelude::*;
use crate::board::attacks;
use crate::board::bitboard;
use crate::board::bits;
use crate::board::movegen;
use crate::board::placement;
use crate::board::safety;
use crate::board::threats;
use crate::board::threats::DirtyThreat;
use crate::board::types::{Color, Direction, Piece, PieceType};
use crate::eval::nnue::features;
use crate::eval::nnue::threat_features;
use crate::eval::nnue::features::THREAT_DIMENSIONS;

verus! {

// ---------------------------------------------------------------------------
// Sums over the board
// ---------------------------------------------------------------------------

/// The sum of `h` over the squares from `i` on.
pub open spec fn sum_from(h: spec_fn(int) -> int, i: int) -> int
    decreases 64 - i,
{
    if i >= 64 {
        0
    } else {
        h(i) + sum_from(h, i + 1)
    }
}

proof fn lemma_sum_same(g: spec_fn(int) -> int, h: spec_fn(int) -> int, i: int)
    requires
        forall|t: int| i <= t < 64 ==> #[trigger] g(t) == h(t),
    ensures
        sum_from(g, i) == sum_from(h, i),
    decreases 64 - i,
{
    if i < 64 {
        assert(g(i) == h(i));
        lemma_sum_same(g, h, i + 1);
    }
}

proof fn lemma_sum_add(
    g: spec_fn(int) -> int,
    h: spec_fn(int) -> int,
    k: spec_fn(int) -> int,
    i: int,
)
    requires
        forall|t: int| i <= t < 64 ==> #[trigger] k(t) == g(t) + h(t),
    ensures
        sum_from(k, i) == sum_from(g, i) + sum_from(h, i),
    decreases 64 - i,
{
    if i < 64 {
        assert(k(i) == g(i) + h(i));
        lemma_sum_add(g, h, k, i + 1);
    }
}

/// A sum with at most one term.
proof fn lemma_sum_one(h: spec_fn(int) -> int, s: int, i: int)
    requires
        forall|t: int| i <= t < 64 && t != s ==> #[trigger] h(t) == 0,
    ensures
        sum_from(h, i) == (if i <= s < 64 {
            h(s)
        } else {
            0
        }),
    decreases 64 - i,
{
    if i < 64 {
        if i != s {
            assert(h(i) == 0);
        }
        lemma_sum_one(h, s, i + 1);
    }
}

/// The value, or its opposite.
pub open spec fn signed(plus: bool, v: int) -> int {
    if plus {
        v
    } else {
        -v
    }
}

proof fn lemma_sum_signed(g: spec_fn(int) -> int, h: spec_fn(int) -> int, plus: bool, i: int)
    requires
        forall|t: int| i <= t < 64 ==> #[trigger] g(t) == signed(plus, h(t)),
    ensures
        sum_from(g, i) == signed(plus, sum_from(h, i)),
    decreases 64 - i,
{
    if i < 64 {
        assert(g(i) == signed(plus, h(i)));
        lemma_sum_signed(g, h, plus, i + 1);
    }
}

// ---------------------------------------------------------------------------
// The active set as a sum
// ---------------------------------------------------------------------------

/// What one threat weighs for `p` with the king on `ksq`.
pub open spec fn worth(
    f: spec_fn(int) -> int,
    p: Color,
    ksq: int,
    a: Piece,
    x: int,
    y: int,
    d: Piece,
) -> int {
    let i = threat_features::threat_of(p, a, x, y, d, ksq);
    if i < THREAT_DIMENSIONS {
        f(i as u32 as int)
    } else {
        0
    }
}

/// What the man on `x` weighs by its threat against the man on `y`.
pub open spec fn held(
    b: Seq<Piece>,
    f: spec_fn(int) -> int,
    p: Color,
    ksq: int,
    x: int,
    y: int,
) -> int {
    if threat_features::active(b, x, y) {
        worth(f, p, ksq, b[x], x, y, b[y])
    } else {
        0
    }
}

/// What the man on `x` weighs by all its threats.
pub open spec fn row(b: Seq<Piece>, f: spec_fn(int) -> int, p: Color, ksq: int, x: int) -> int {
    sum_from(|y: int| held(b, f, p, ksq, x, y), 0)
}

proof fn lemma_row(b: Seq<Piece>, f: spec_fn(int) -> int, p: Color, ksq: int, x: int, n: int)
    requires
        0 <= n <= 64,
    ensures
        features::total(threat_features::threats_from(b, p, ksq, x, n), f) + sum_from(
            |y: int| held(b, f, p, ksq, x, y),
            n,
        ) == row(b, f, p, ksq, x),
    decreases n,
{
    let h = |y: int| held(b, f, p, ksq, x, y);
    if n > 0 {
        lemma_row(b, f, p, ksq, x, n - 1);
        let before = threat_features::threats_from(b, p, ksq, x, n - 1);
        let v = threat_features::threat_of(p, b[x], x, n - 1, b[n - 1], ksq) as u32;
        features::lemma_total_push(before, v, f);
        assert(h(n - 1) == held(b, f, p, ksq, x, n - 1));
    }
}

proof fn lemma_rows(b: Seq<Piece>, f: spec_fn(int) -> int, p: Color, ksq: int, m: int)
    requires
        0 <= m <= 64,
    ensures
        features::total(threat_features::threats_upto(b, p, ksq, m), f) + sum_from(
            |x: int| row(b, f, p, ksq, x),
            m,
        ) == sum_from(|x: int| row(b, f, p, ksq, x), 0),
    decreases m,
{
    let h = |x: int| row(b, f, p, ksq, x);
    if m > 0 {
        lemma_rows(b, f, p, ksq, m - 1);
        lemma_row(b, f, p, ksq, m - 1, 64);
        features::lemma_total_add(
            threat_features::threats_upto(b, p, ksq, m - 1),
            threat_features::threats_from(b, p, ksq, m - 1, 64),
            f,
        );
        assert(h(m - 1) == row(b, f, p, ksq, m - 1));
    }
}

// ---------------------------------------------------------------------------
// Recorded changes as a sum
// ---------------------------------------------------------------------------

/// What one recorded change weighs.
pub open spec fn gain(d: DirtyThreat, f: spec_fn(int) -> int, p: Color, ksq: int) -> int {
    signed(d.adds(), worth(f, p, ksq, d.aggressor(), d.src(), d.dst(), d.victim()))
}

/// What the recorded changes weigh together.
pub open spec fn net(dts: Seq<DirtyThreat>, f: spec_fn(int) -> int, p: Color, ksq: int) -> int
    decreases dts.len(),
{
    if dts.len() == 0 {
        0
    } else {
        net(dts.drop_last(), f, p, ksq) + gain(dts.last(), f, p, ksq)
    }
}

pub proof fn lemma_net(dts: Seq<DirtyThreat>, f: spec_fn(int) -> int, p: Color, ksq: int, n: int)
    requires
        0 <= n <= dts.len(),
    ensures
        features::total(threat_features::changes_upto(dts, p, ksq, true, n), f) - features::total(
            threat_features::changes_upto(dts, p, ksq, false, n),
            f,
        ) == net(dts.subrange(0, n), f, p, ksq),
    decreases n,
{
    if n > 0 {
        lemma_net(dts, f, p, ksq, n - 1);
        assert(dts.subrange(0, n).drop_last() =~= dts.subrange(0, n - 1));
        let d = dts[n - 1];
        let v = threat_features::change_of(d, p, ksq) as u32;
        features::lemma_total_push(threat_features::changes_upto(dts, p, ksq, true, n - 1), v, f);
        features::lemma_total_push(threat_features::changes_upto(dts, p, ksq, false, n - 1), v, f);
    }
}

pub proof fn lemma_net_join(
    a: Seq<DirtyThreat>,
    b: Seq<DirtyThreat>,
    f: spec_fn(int) -> int,
    p: Color,
    ksq: int,
)
    ensures
        net(a + b, f, p, ksq) == net(a, f, p, ksq) + net(b, f, p, ksq),
    decreases b.len(),
{
    if b.len() == 0 {
        assert(a + b =~= a);
    } else {
        lemma_net_join(a, b.drop_last(), f, p, ksq);
        assert((a + b).drop_last() =~= a + b.drop_last());
    }
}

proof fn lemma_net_one(d: DirtyThreat, f: spec_fn(int) -> int, p: Color, ksq: int)
    ensures
        net(seq![d], f, p, ksq) == gain(d, f, p, ksq),
{
    assert(seq![d].drop_last() =~= Seq::<DirtyThreat>::empty());
    assert(net(Seq::<DirtyThreat>::empty(), f, p, ksq) == 0);
}

proof fn lemma_gain(
    add: bool,
    a: Piece,
    d: Piece,
    x: int,
    y: int,
    f: spec_fn(int) -> int,
    p: Color,
    ksq: int,
)
    requires
        0 <= x < 64,
        0 <= y < 64,
    ensures
        gain(threats::packed(add, a, d, x, y), f, p, ksq) == signed(
            add,
            worth(f, p, ksq, a, x, y, d),
        ),
{
    threats::law_threat_fields(add, a, d, x, y);
}

/// A list of changes with one for each square of a set.
proof fn lemma_net_listed(
    q: spec_fn(int) -> bool,
    g: spec_fn(int) -> DirtyThreat,
    h: spec_fn(int) -> int,
    i: int,
    f: spec_fn(int) -> int,
    p: Color,
    ksq: int,
)
    requires
        0 <= i,
        forall|t: int|
            i <= t < 64 ==> #[trigger] h(t) == (if q(t) {
                gain(g(t), f, p, ksq)
            } else {
                0
            }),
    ensures
        net(movegen::squares_from(q, i).map_values(g), f, p, ksq) == sum_from(h, i),
    decreases 64 - i,
{
    if i < 64 {
        lemma_net_listed(q, g, h, i + 1, f, p, ksq);
        assert(h(i) == (if q(i) {
            gain(g(i), f, p, ksq)
        } else {
            0
        }));
        let rest = movegen::squares_from(q, i + 1);
        if q(i) {
            assert((seq![i] + rest).map_values(g) =~= seq![g(i)] + rest.map_values(g));
            lemma_net_join(seq![g(i)], rest.map_values(g), f, p, ksq);
            lemma_net_one(g(i), f, p, ksq);
        }
    } else {
        assert(movegen::squares_from(q, i).map_values(g) =~= Seq::<DirtyThreat>::empty());
    }
}

/// The sum of `h` along the first `n` of a list of squares.
pub open spec fn along(h: spec_fn(int) -> int, qs: Seq<int>, n: int) -> int
    decreases n,
{
    if n <= 0 {
        0
    } else {
        along(h, qs, n - 1) + h(qs[n - 1])
    }
}

proof fn lemma_along_first(h: spec_fn(int) -> int, i: int, rest: Seq<int>, n: int)
    requires
        0 <= n <= rest.len(),
    ensures
        along(h, seq![i] + rest, n + 1) == h(i) + along(h, rest, n),
    decreases n,
{
    let all = seq![i] + rest;
    if n > 0 {
        lemma_along_first(h, i, rest, n - 1);
        assert(all[n] == rest[n - 1]);
    } else {
        assert(along(h, all, 0) == 0);
        assert(all[0] == i);
    }
}

proof fn lemma_along(q: spec_fn(int) -> bool, h: spec_fn(int) -> int, k: spec_fn(int) -> int, i: int)
    requires
        0 <= i,
        forall|t: int|
            i <= t < 64 ==> #[trigger] k(t) == (if q(t) {
                h(t)
            } else {
                0
            }),
    ensures
        ({
            let qs = movegen::squares_from(q, i);
            along(h, qs, qs.len() as int) == sum_from(k, i)
        }),
    decreases 64 - i,
{
    if i < 64 {
        lemma_along(q, h, k, i + 1);
        let rest = movegen::squares_from(q, i + 1);
        assert(k(i) == (if q(i) {
            h(i)
        } else {
            0
        }));
        if q(i) {
            lemma_along_first(h, i, rest, rest.len() as int);
        }
    }
}

proof fn lemma_net_sliders(
    b: Seq<Piece>,
    pc: Piece,
    put: bool,
    s: int,
    no_rays: u64,
    direct: bool,
    qs: Seq<int>,
    n: int,
    f: spec_fn(int) -> int,
    p: Color,
    ksq: int,
)
    requires
        0 <= n <= qs.len(),
    ensures
        net(threats::slider_changes(b, pc, put, s, no_rays, direct, qs, n), f, p, ksq) == along(
            |q: int| net(threats::slider_change(b, pc, put, s, no_rays, direct, q), f, p, ksq),
            qs,
            n,
        ),
    decreases n,
{
    if n > 0 {
        lemma_net_sliders(b, pc, put, s, no_rays, direct, qs, n - 1, f, p, ksq);
        lemma_net_join(
            threats::slider_changes(b, pc, put, s, no_rays, direct, qs, n - 1),
            threats::slider_change(b, pc, put, s, no_rays, direct, qs[n - 1]),
            f,
            p,
            ksq,
        );
    }
}

// ---------------------------------------------------------------------------
// Lines through a square
// ---------------------------------------------------------------------------

/// A square between two others cuts what lies between them in two.
proof fn lemma_cut(x: int, s: int, y: int, u: int)
    requires
        attacks::between(x, s, y),
        u != s,
    ensures
        attacks::between(x, u, y) == (attacks::between(x, u, s) || attacks::between(s, u, y)),
{
}

/// The three squares share their line.
proof fn lemma_same_line(x: int, s: int, y: int)
    requires
        attacks::between(x, s, y),
    ensures
        attacks::rook_line(x, s) == attacks::rook_line(x, y),
        attacks::bishop_line(x, s) == attacks::bishop_line(x, y),
        attacks::rook_line(s, y) || attacks::bishop_line(s, y),
        attacks::on_common_ray(x, s, y),
{
    if x / 8 == s / 8 {
        if x % 8 < s % 8 {
            assert(attacks::on_ray(Direction::East, x, s));
        } else {
            assert(attacks::on_ray(Direction::West, x, s));
        }
    } else if x % 8 == s % 8 {
        if x / 8 < s / 8 {
            assert(attacks::on_ray(Direction::North, x, s));
        } else {
            assert(attacks::on_ray(Direction::South, x, s));
        }
    } else if x / 8 - x % 8 == s / 8 - s % 8 {
        if x % 8 < s % 8 {
            assert(attacks::on_ray(Direction::NorthEast, x, s));
        } else {
            assert(attacks::on_ray(Direction::SouthWest, x, s));
        }
    } else {
        if x % 8 < s % 8 {
            assert(attacks::on_ray(Direction::SouthEast, x, s));
        } else {
            assert(attacks::on_ray(Direction::NorthWest, x, s));
        }
    }
}

/// A ray passes one of two squares first.
proof fn lemma_ray_order(x: int, s: int, t: int)
    requires
        attacks::on_common_ray(x, s, t),
        t != s,
    ensures
        attacks::between(x, s, t) || attacks::between(x, t, s),
{
}

/// Two squares beyond `s` on one ray: one lies before the other.
proof fn lemma_beyond_order(x: int, s: int, t: int, u: int)
    requires
        attacks::between(x, s, t),
        attacks::between(x, s, u),
        t != u,
    ensures
        attacks::between(s, t, u) || attacks::between(s, u, t),
{
}

/// Emptying `s` opens the lines through it, and no others.
proof fn lemma_opened(w: u64, w0: u64, x: int, s: int, y: int)
    requires
        0 <= s < 64,
        bits::bit(w, s),
        forall|u: int| #[trigger] bits::bit(w0, u) == (bits::bit(w, u) && u != s),
    ensures
        !attacks::between(x, s, y) ==> attacks::clear(w0, x, y) == attacks::clear(w, x, y),
        attacks::between(x, s, y) ==> !attacks::clear(w, x, y) && attacks::clear(w0, x, y) == (
        attacks::clear(w, x, s) && attacks::clear(w, s, y)),
{
    if attacks::between(x, s, y) {
        assert forall|u: int| u != s implies #[trigger] attacks::between(x, u, y) == (
        attacks::between(x, u, s) || attacks::between(s, u, y)) by {
            lemma_cut(x, s, y, u);
        }
        if attacks::clear(w0, x, y) {
            assert forall|u: int| #[trigger] attacks::between(x, u, s) implies !bits::bit(w, u) by {
                assert(attacks::between(x, u, y));
                assert(!bits::bit(w0, u));
            }
            assert forall|u: int| #[trigger] attacks::between(s, u, y) implies !bits::bit(w, u) by {
                assert(attacks::between(x, u, y));
                assert(!bits::bit(w0, u));
            }
        }
        if attacks::clear(w, x, s) && attacks::clear(w, s, y) {
            assert forall|u: int| #[trigger] attacks::between(x, u, y) implies !bits::bit(w0, u) by {}
        }
    } else {
        if attacks::clear(w0, x, y) {
            assert forall|u: int| #[trigger] attacks::between(x, u, y) implies !bits::bit(w, u) by {
                assert(!bits::bit(w0, u));
            }
        }
        if attacks::clear(w, x, y) {
            assert forall|u: int| #[trigger] attacks::between(x, u, y) implies !bits::bit(w0, u) by {
                assert(!bits::bit(w, u));
            }
        }
    }
}

// ---------------------------------------------------------------------------
// One slider
// ---------------------------------------------------------------------------

/// A slider on `q` that bears on `s` sees the man on `t` once `s` is empty.
pub open spec fn uncovers(b: Seq<Piece>, s: int, q: int, t: int) -> bool {
    &&& threats::bears_on(b, s, q)
    &&& attacks::between(q, s, t)
    &&& attacks::clear(placement::occ(b), s, t)
    &&& threats::is_man(b, t)
}

proof fn lemma_bears(b: Seq<Piece>, s: int, q: int)
    requires
        threats::bears_on(b, s, q),
    ensures
        0 <= q < 64,
        0 <= s < 64,
        q != s,
        attacks::clear(placement::occ(b), q, s),
{
    attacks::law_slider_attacks_are_symmetric(placement::occ(b), s, q);
}

proof fn lemma_hidden(b: Seq<Piece>, s: int, q: int, t: int)
    requires
        placement::clean(b),
        threats::bears_on(b, s, q),
        0 <= t < 64,
    ensures
        threats::hidden_man(b, s, q, t) == uncovers(b, s, q, t),
{
    let w = placement::occ(b);
    safety::lemma_occupancy(b);
    lemma_bears(b, s, q);
    if threats::hidden_man(b, s, q, t) {
        lemma_ray_order(q, s, t);
        if attacks::between(q, t, s) {
            assert(!bits::bit(w, t));
        }
    }
    if uncovers(b, s, q, t) {
        lemma_same_line(q, s, t);
    }
}

/// At most one man is uncovered.
proof fn lemma_one_hidden(b: Seq<Piece>, s: int, q: int, t: int, u: int)
    requires
        placement::clean(b),
        uncovers(b, s, q, t),
        uncovers(b, s, q, u),
    ensures
        t == u,
{
    let w = placement::occ(b);
    safety::lemma_occupancy(b);
    if t != u {
        lemma_beyond_order(q, s, t, u);
        assert(bits::bit(w, t));
        assert(bits::bit(w, u));
    }
}

/// The members of a set with at most one member.
proof fn lemma_single(q: spec_fn(int) -> bool, h: int, i: int)
    requires
        forall|t: int| i <= t < 64 ==> #[trigger] q(t) == (t == h),
    ensures
        movegen::squares_from(q, i) == (if i <= h < 64 {
            seq![h]
        } else {
            Seq::<int>::empty()
        }),
    decreases 64 - i,
{
    if i < 64 {
        assert(q(i) == (i == h));
        lemma_single(q, h, i + 1);
        assert(seq![i] + Seq::<int>::empty() =~= seq![i]);
    }
}

/// What a slider on `q` loses when `s` is filled: the threat against the man behind.
pub open spec fn lost(
    b: Seq<Piece>,
    f: spec_fn(int) -> int,
    p: Color,
    ksq: int,
    s: int,
    q: int,
    t: int,
) -> int {
    if uncovers(b, s, q, t) && threats::slider_counts(b[t], b[q]) {
        worth(f, p, ksq, b[q], q, t, b[t])
    } else {
        0
    }
}

/// What a slider on `q` gains by `pc` on `s` itself.
pub open spec fn struck(
    b: Seq<Piece>,
    pc: Piece,
    f: spec_fn(int) -> int,
    p: Color,
    ksq: int,
    s: int,
    direct: bool,
    q: int,
) -> int {
    if direct && threats::bears_on(b, s, q) && threats::slider_counts(pc, b[q]) {
        worth(f, p, ksq, b[q], q, s, pc)
    } else {
        0
    }
}

proof fn lemma_slider_net(
    b: Seq<Piece>,
    pc: Piece,
    put: bool,
    s: int,
    direct: bool,
    q: int,
    f: spec_fn(int) -> int,
    p: Color,
    ksq: int,
)
    requires
        placement::clean(b),
        threats::bears_on(b, s, q),
    ensures
        net(threats::slider_change(b, pc, put, s, 0xFFFF_FFFF_FFFF_FFFF, direct, q), f, p, ksq)
            == signed(
            put,
            struck(b, pc, f, p, ksq, s, direct, q) - sum_from(
                |t: int| lost(b, f, p, ksq, s, q, t),
                0,
            ),
        ),
{
    broadcast use bits::group_bits;

    reveal(threats::slider_change);
    lemma_bears(b, s, q);
    let full = 0xFFFF_FFFF_FFFF_FFFFu64;
    assert(!threats::ray_holds(full, q, s)) by {
        assert(bits::bit(full, q));
        assert(!attacks::on_common_ray(q, s, q));
    }
    let pred = |t: int| threats::hidden_man(b, s, q, t);
    let hidden = movegen::squares(pred);
    let h = |t: int| lost(b, f, p, ksq, s, q, t);
    assert forall|t: int| 0 <= t < 64 implies #[trigger] pred(t) == uncovers(b, s, q, t) by {
        lemma_hidden(b, s, q, t);
    }
    let on_it = if direct && threats::slider_counts(pc, b[q]) {
        seq![threats::packed(put, b[q], pc, q, s)]
    } else {
        Seq::empty()
    };
    if direct && threats::slider_counts(pc, b[q]) {
        lemma_gain(put, b[q], pc, q, s, f, p, ksq);
        lemma_net_one(threats::packed(put, b[q], pc, q, s), f, p, ksq);
    } else {
        assert(net(Seq::<DirtyThreat>::empty(), f, p, ksq) == 0);
    }
    assert(net(on_it, f, p, ksq) == signed(put, struck(b, pc, f, p, ksq, s, direct, q)));
    if exists|t: int| 0 <= t < 64 && #[trigger] uncovers(b, s, q, t) {
        let v = choose|t: int| 0 <= t < 64 && #[trigger] uncovers(b, s, q, t);
        assert forall|t: int| 0 <= t < 64 implies #[trigger] pred(t) == (t == v) by {
            if uncovers(b, s, q, t) {
                lemma_one_hidden(b, s, q, t, v);
            }
        }
        lemma_single(pred, v, 0);
        assert(hidden =~= seq![v]);
        assert(hidden[0] == v);
        assert forall|t: int| 0 <= t < 64 && t != v implies #[trigger] h(t) == 0 by {
            assert(pred(t) == (t == v));
        }
        lemma_sum_one(h, v, 0);
        let beyond = if threats::slider_counts(b[v], b[q]) {
            seq![threats::packed(!put, b[q], b[v], q, v)]
        } else {
            Seq::empty()
        };
        if threats::slider_counts(b[v], b[q]) {
            lemma_gain(!put, b[q], b[v], q, v, f, p, ksq);
            lemma_net_one(threats::packed(!put, b[q], b[v], q, v), f, p, ksq);
        } else {
            assert(net(Seq::<DirtyThreat>::empty(), f, p, ksq) == 0);
        }
        lemma_net_join(beyond, on_it, f, p, ksq);
    } else {
        assert forall|t: int| 0 <= t < 64 implies #[trigger] pred(t) == (t == -1) by {
            assert(!uncovers(b, s, q, t));
        }
        lemma_single(pred, -1, 0);
        assert(hidden.len() == 0);
        assert forall|t: int| 0 <= t < 64 && t != -1 implies #[trigger] h(t) == 0 by {
            assert(!uncovers(b, s, q, t));
        }
        lemma_sum_one(h, -1, 0);
        assert(Seq::<DirtyThreat>::empty() + on_it =~= on_it);
    }
}

// ---------------------------------------------------------------------------
// One square's threats, with and without the piece on `s`
// ---------------------------------------------------------------------------

/// What a knight or pawn on `q` gains by `pc` on `s`.
pub open spec fn reached(
    b: Seq<Piece>,
    pc: Piece,
    f: spec_fn(int) -> int,
    p: Color,
    ksq: int,
    s: int,
    q: int,
) -> int {
    if pc.kind() != PieceType::King && threats::threatened_by(b, pc, s, false, q) {
        worth(f, p, ksq, b[q], q, s, pc)
    } else {
        0
    }
}

/// The threat against the piece on `s` is one of a slider, or of a knight or pawn.
proof fn lemma_on_it(
    b: Seq<Piece>,
    f: spec_fn(int) -> int,
    p: Color,
    ksq: int,
    s: int,
    x: int,
)
    requires
        placement::clean(b),
        0 <= s < 64,
        0 <= x < 64,
        x != s,
        b[s] != Piece::NONE,
    ensures
        held(b, f, p, ksq, x, s) == struck(
            b,
            b[s],
            f,
            p,
            ksq,
            s,
            b[s].kind() != PieceType::King,
            x,
        ) + reached(b, b[s], f, p, ksq, s, x),
{
    let w = placement::occ(b);
    attacks::law_slider_attacks_are_symmetric(w, x, s);
    bitboard::law_pawn_attacks_mirror(Color::White, x, s);
    bitboard::law_pawn_attacks_mirror(Color::Black, x, s);
    assert(bitboard::knight_hits(x, s) == bitboard::knight_hits(s, x));
    assert(b[x] == Piece::NONE || b[x].is_real());
    assert(b[s].is_real());
}

/// Taking the piece on `s` away changes one other threat of `x` at most.
proof fn lemma_past_it(
    b: Seq<Piece>,
    f: spec_fn(int) -> int,
    p: Color,
    ksq: int,
    s: int,
    x: int,
    y: int,
)
    requires
        placement::clean(b),
        0 <= s < 64,
        0 <= x < 64,
        0 <= y < 64,
        x != s,
        y != s,
        b[s] != Piece::NONE,
    ensures
        held(b.update(s, Piece::NONE), f, p, ksq, x, y) == held(b, f, p, ksq, x, y) + lost(
            b,
            f,
            p,
            ksq,
            s,
            x,
            y,
        ),
{
    broadcast use bits::lemma_bit_range;

    let b0 = b.update(s, Piece::NONE);
    let w = placement::occ(b);
    let w0 = placement::occ(b0);
    safety::lemma_occupancy(b);
    safety::lemma_occupancy(b0);
    assert forall|u: int| #[trigger] bits::bit(w0, u) == (bits::bit(w, u) && u != s) by {
        if 0 <= u < 64 {
            assert(bits::bit(w, u) == (b[u] != Piece::NONE));
            assert(bits::bit(w0, u) == (b0[u] != Piece::NONE));
        }
    }
    assert(bits::bit(w, s));
    lemma_opened(w, w0, x, s, y);
    attacks::law_slider_attacks_are_symmetric(w, x, s);
    assert(b[x] == Piece::NONE || b[x].is_real());
    assert(b[y] == Piece::NONE || b[y].is_real());
    if attacks::between(x, s, y) {
        lemma_same_line(x, s, y);
        assert(!attacks::clear(w, x, y));
        assert(attacks::clear(w0, x, y) == (attacks::clear(w, x, s) && attacks::clear(w, s, y)));
        assert(!bitboard::knight_hits(x, y));
        assert(!bitboard::pawn_hits(b[x].side(), x, y));
    } else {
        assert(attacks::rook_hits(w0, x, y) == attacks::rook_hits(w, x, y));
        assert(attacks::bishop_hits(w0, x, y) == attacks::bishop_hits(w, x, y));
    }
}

/// What the slider on `x` gains and loses together, when the piece on `s` comes.
pub open spec fn swing(
    b: Seq<Piece>,
    f: spec_fn(int) -> int,
    p: Color,
    ksq: int,
    s: int,
    x: int,
) -> int {
    struck(b, b[s], f, p, ksq, s, b[s].kind() != PieceType::King, x) - sum_from(
        |t: int| lost(b, f, p, ksq, s, x, t),
        0,
    )
}

proof fn lemma_row_change(
    b: Seq<Piece>,
    f: spec_fn(int) -> int,
    p: Color,
    ksq: int,
    s: int,
    x: int,
)
    requires
        placement::clean(b),
        0 <= s < 64,
        0 <= x < 64,
        x != s,
        b[s] != Piece::NONE,
    ensures
        row(b, f, p, ksq, x) == row(b.update(s, Piece::NONE), f, p, ksq, x) + swing(
            b,
            f,
            p,
            ksq,
            s,
            x,
        ) + reached(b, b[s], f, p, ksq, s, x),
{
    let b0 = b.update(s, Piece::NONE);
    let with = |y: int| held(b, f, p, ksq, x, y);
    let without = |y: int| held(b0, f, p, ksq, x, y);
    let gone = |t: int| lost(b, f, p, ksq, s, x, t);
    let there = |y: int|
        if y == s {
            held(b, f, p, ksq, x, s)
        } else {
            0
        };
    let both = |y: int| with(y) + gone(y);
    assert forall|y: int| 0 <= y < 64 implies #[trigger] both(y) == without(y) + there(y) by {
        if y != s {
            lemma_past_it(b, f, p, ksq, s, x, y);
        }
    }
    lemma_sum_add(with, gone, both, 0);
    lemma_sum_add(without, there, both, 0);
    lemma_sum_one(there, s, 0);
    lemma_on_it(b, f, p, ksq, s, x);
}

proof fn lemma_still(b: Seq<Piece>, f: spec_fn(int) -> int, p: Color, ksq: int, s: int, x: int)
    requires
        !threats::bears_on(b, s, x),
    ensures
        swing(b, f, p, ksq, s, x) == 0,
{
    lemma_sum_one(|t: int| lost(b, f, p, ksq, s, x, t), -1, 0);
}

/// The rows change by what the piece on `s` weighs itself and by what the others gain.
proof fn lemma_rows_change(b: Seq<Piece>, f: spec_fn(int) -> int, p: Color, ksq: int, s: int)
    requires
        placement::clean(b),
        0 <= s < 64,
        b[s] != Piece::NONE,
    ensures
        sum_from(|x: int| row(b, f, p, ksq, x), 0) == sum_from(
            |x: int| row(b.update(s, Piece::NONE), f, p, ksq, x),
            0,
        ) + row(b, f, p, ksq, s) + sum_from(|x: int| swing(b, f, p, ksq, s, x), 0) + sum_from(
            |x: int| reached(b, b[s], f, p, ksq, s, x),
            0,
        ),
{
    let b0 = b.update(s, Piece::NONE);
    let with = |x: int| row(b, f, p, ksq, x);
    let without = |x: int| row(b0, f, p, ksq, x);
    let turns = |x: int| swing(b, f, p, ksq, s, x);
    let steps = |x: int| reached(b, b[s], f, p, ksq, s, x);
    let own = |x: int|
        if x == s {
            row(b, f, p, ksq, s)
        } else {
            0
        };
    let some = |x: int| without(x) + own(x);
    let more = |x: int| some(x) + turns(x);
    assert forall|x: int| 0 <= x < 64 implies #[trigger] with(x) == more(x) + steps(x) by {
        if x != s {
            lemma_row_change(b, f, p, ksq, s, x);
        } else {
            lemma_sum_one(|y: int| held(b0, f, p, ksq, s, y), -1, 0);
            lemma_still(b, f, p, ksq, s, s);
        }
    }
    lemma_sum_add(more, steps, with, 0);
    lemma_sum_add(some, turns, more, 0);
    lemma_sum_add(without, own, some, 0);
    lemma_sum_one(own, s, 0);
}

/// What the recorded changes weigh.
proof fn lemma_changes_weigh(
    b: Seq<Piece>,
    put: bool,
    s: int,
    f: spec_fn(int) -> int,
    p: Color,
    ksq: int,
)
    requires
        placement::clean(b),
        0 <= s < 64,
        b[s] != Piece::NONE,
    ensures
        net(threats::threat_changes(b, b[s], put, s, 0xFFFF_FFFF_FFFF_FFFF, true), f, p, ksq)
            == signed(
            put,
            row(b, f, p, ksq, s) + sum_from(|x: int| swing(b, f, p, ksq, s, x), 0) + sum_from(
                |x: int| reached(b, b[s], f, p, ksq, s, x),
                0,
            ),
        ),
{
    let pc = b[s];
    let full = 0xFFFF_FFFF_FFFF_FFFFu64;
    let direct = pc.kind() != PieceType::King;
    let turns = |x: int| swing(b, f, p, ksq, s, x);
    let steps = |x: int| reached(b, pc, f, p, ksq, s, x);
    assert(pc.is_real());
    let sliders = threats::all_sliders(b, pc, put, s, full, direct);
    assert(net(sliders, f, p, ksq) == signed(put, sum_from(turns, 0))) by {
        let pred = |q: int| threats::bears_on(b, s, q);
        let qs = movegen::squares(pred);
        let h = |q: int| net(threats::slider_change(b, pc, put, s, full, direct, q), f, p, ksq);
        let k = |q: int| signed(put, turns(q));
        lemma_net_sliders(b, pc, put, s, full, direct, qs, qs.len() as int, f, p, ksq);
        assert forall|t: int| 0 <= t < 64 implies #[trigger] k(t) == (if pred(t) {
            h(t)
        } else {
            0
        }) by {
            if pred(t) {
                lemma_slider_net(b, pc, put, s, direct, t, f, p, ksq);
            } else {
                lemma_still(b, f, p, ksq, s, t);
            }
        }
        lemma_along(pred, h, k, 0);
        lemma_sum_signed(k, turns, put, 0);
    }
    if direct {
        let out = threats::outgoing(b, pc, put, s);
        assert(net(out, f, p, ksq) == signed(put, row(b, f, p, ksq, s))) by {
            let pred = |t: int| threats::threatens(b, pc, s, t);
            let g = |t: int| threats::packed(put, pc, b[t], s, t);
            let own = |y: int| held(b, f, p, ksq, s, y);
            let h = |t: int| signed(put, own(t));
            assert forall|t: int| 0 <= t < 64 implies #[trigger] h(t) == (if pred(t) {
                gain(g(t), f, p, ksq)
            } else {
                0
            }) by {
                lemma_gain(put, pc, b[t], s, t, f, p, ksq);
            }
            lemma_net_listed(pred, g, h, 0, f, p, ksq);
            lemma_sum_signed(h, own, put, 0);
        }
        let foes = threats::incoming(b, pc, put, s, false);
        assert(net(foes, f, p, ksq) == signed(put, sum_from(steps, 0))) by {
            let pred = |q: int| threats::threatened_by(b, pc, s, false, q);
            let g = |q: int| threats::packed(put, b[q], pc, q, s);
            let h = |t: int| signed(put, steps(t));
            assert forall|t: int| 0 <= t < 64 implies #[trigger] h(t) == (if pred(t) {
                gain(g(t), f, p, ksq)
            } else {
                0
            }) by {
                lemma_gain(put, b[t], pc, t, s, f, p, ksq);
            }
            lemma_net_listed(pred, g, h, 0, f, p, ksq);
            lemma_sum_signed(h, steps, put, 0);
        }
        lemma_net_join(out + sliders, foes, f, p, ksq);
        lemma_net_join(out, sliders, f, p, ksq);
    } else {
        lemma_sum_one(steps, -1, 0);
        lemma_sum_one(|y: int| held(b, f, p, ksq, s, y), -1, 0);
    }
}

/// What is recorded for putting a piece on `s` is the difference between the active threats
/// with it and without it, whatever the features weigh; for removing it, the reverse.
pub proof fn law_a_placement_changes_the_threats_by_its_record(
    b: Seq<Piece>,
    s: int,
    put: bool,
    p: Color,
    ksq: int,
    f: spec_fn(int) -> int,
)
    requires
        placement::clean(b),
        0 <= s < 64,
        b[s] != Piece::NONE,
    ensures
        ({
            let dts = threats::threat_changes(b, b[s], put, s, 0xFFFF_FFFF_FFFF_FFFF, true);
            let with = features::total(threat_features::threats_upto(b, p, ksq, 64), f);
            let without = features::total(
                threat_features::threats_upto(b.update(s, Piece::NONE), p, ksq, 64),
                f,
            );
            let adds = threat_features::changes_upto(dts, p, ksq, true, dts.len() as int);
            let subs = threat_features::changes_upto(dts, p, ksq, false, dts.len() as int);
            &&& put ==> with == without + features::total(adds, f) - features::total(subs, f)
            &&& !put ==> without == with + features::total(adds, f) - features::total(subs, f)
        }),
{
    let b0 = b.update(s, Piece::NONE);
    let dts = threats::threat_changes(b, b[s], put, s, 0xFFFF_FFFF_FFFF_FFFF, true);
    lemma_rows(b, f, p, ksq, 64);
    lemma_rows(b0, f, p, ksq, 64);
    lemma_rows_change(b, f, p, ksq, s);
    lemma_changes_weigh(b, put, s, f, p, ksq);
    lemma_net(dts, f, p, ksq, dts.len() as int);
    assert(dts.subrange(0, dts.len() as int) =~= dts);
}

} // verus!
