//! The legal moves are all of them: a move that follows the rules and leaves its own king safe
//! is generated, and what is rejected would leave the king attacked.

use vstd::prelude::*;
use crate::board::attacks;
use crate::board::bitboard;
use crate::board::bits;
use crate::board::legal_moves;
use crate::board::legality;
use crate::board::movegen;
use crate::board::movegen::{GenType, Node};
use crate::board::perft;
use crate::board::placement;
use crate::board::position;
use crate::board::safety;
use crate::board::soundness;
use crate::board::state;
use crate::board::transition;
use crate::board::types;
use crate::board::types::{Color, Direction, Move, MoveType, Piece, PieceType, Square};

verus! {

// ---------------------------------------------------------------------------
// Lines that a move opens
// ---------------------------------------------------------------------------

/// Of a line that a screen leaves, the nearest slider attacks.
proof fn lemma_uncovered(
    b: Seq<Piece>,
    a: Seq<Piece>,
    c: Color,
    k: int,
    from: int,
    to: int,
    cap: int,
    q: int,
)
    requires
        placement::occupies(b, placement::occ(b)),
        placement::occupies(a, placement::occ(a)),
        0 <= k < 64,
        forall|i: int|
            0 <= i < 64 && i != from && i != to && i != cap ==> #[trigger] a[i] == b[i],
        cap == to || (a[cap] == Piece::NONE && b[cap].kind() == PieceType::Pawn),
        a[from] == Piece::NONE,
        placement::sniper(b, c, k, q),
        q != to,
        q != from,
        !attacks::between(k, to, q),
        forall|x: int| #[trigger]
            attacks::between(k, x, q) && b[x] != Piece::NONE && x != from
                ==> placement::sniper(b, c, k, x),
    ensures
        placement::attacked(a, placement::occ(a), c, k),
    decreases bitboard::gap(k % 8, q % 8) + bitboard::gap(k / 8, q / 8),
{
    if exists|x: int| #[trigger] attacks::between(k, x, q) && placement::sniper(b, c, k, x) && x
        != from {
        let x = choose|x: int| #[trigger]
            attacks::between(k, x, q) && placement::sniper(b, c, k, x) && x != from;
        assert forall|y: int| #[trigger] attacks::between(k, y, x) implies attacks::between(
            k,
            y,
            q,
        ) by {}
        assert(bitboard::gap(k % 8, x % 8) + bitboard::gap(k / 8, x / 8) < bitboard::gap(
            k % 8,
            q % 8,
        ) + bitboard::gap(k / 8, q / 8));
        assert(x != to);
        lemma_uncovered(b, a, c, k, from, to, cap, x);
    } else {
        assert(a[q] == b[q]);
        assert(attacks::clear(placement::occ(a), q, k)) by {
            assert forall|x: int| #[trigger] attacks::between(q, x, k) implies !bits::bit(
                placement::occ(a),
                x,
            ) by {
                assert(attacks::between(k, x, q));
                assert(bits::bit(placement::occ(a), x) == (a[x] != Piece::NONE));
            }
        }
        assert(placement::attacks_through(a, placement::occ(a), q, k));
    }
}

/// The sniper behind a screen is on the line of the screen and the king.
proof fn lemma_screened(k: int, from: int, q: int, t: int)
    requires
        attacks::between(k, from, q),
        t == q || attacks::between(k, t, q),
        t != from,
    ensures
        attacks::on_line(from, t, k),
{
}

/// A screen that leaves the line of a slider of `c` and the king on `k` uncovers it.
proof fn lemma_screen_leaves(
    b: Seq<Piece>,
    a: Seq<Piece>,
    c: Color,
    k: int,
    from: int,
    to: int,
    cap: int,
)
    requires
        placement::occupies(b, placement::occ(b)),
        placement::occupies(a, placement::occ(a)),
        0 <= k < 64,
        forall|i: int|
            0 <= i < 64 && i != from && i != to && i != cap ==> #[trigger] a[i] == b[i],
        cap == to || (a[cap] == Piece::NONE && b[cap].kind() == PieceType::Pawn),
        a[from] == Piece::NONE,
        from != to,
        placement::blocker(b, c, k, from),
        !attacks::on_line(from, to, k),
    ensures
        placement::attacked(a, placement::occ(a), c, k),
{
    let q = choose|q: int| #[trigger] placement::sole_screen(b, c, k, q, from);
    assert(placement::screens(b, c, k, q, from));
    if q == to || attacks::between(k, to, q) {
        lemma_screened(k, from, q, to);
    }
    assert forall|x: int| #[trigger]
        attacks::between(k, x, q) && b[x] != Piece::NONE && x != from implies placement::sniper(
        b,
        c,
        k,
        x,
    ) by {
        if !placement::sniper(b, c, k, x) {
            assert(placement::screens(b, c, k, q, x));
        }
    }
    lemma_uncovered(b, a, c, k, from, to, cap, q);
}

/// What a move that is not castling changes on the board.
proof fn lemma_changes(n: Node, m: Move)
    requires
        n.regular(),
        n.well_moved(m),
        m.kind() != MoveType::Castling,
    ensures
        ({
            let a = transition::board_after(n.b, n.stm, m);
            let cap = transition::capture_square(n.stm, m);
            &&& transition::can_make(n.b, n.stm, m)
            &&& a[m.src()] == Piece::NONE
            &&& a[m.dst()] == transition::arriving(n.b, n.stm, m)
            &&& m.src() != m.dst()
            &&& cap == m.dst() || (a[cap] == Piece::NONE && n.b[cap] == Piece::of(
                n.stm.opp(),
                PieceType::Pawn,
            ) && n.b[m.dst()] == Piece::NONE)
            &&& cap != m.src()
            &&& forall|i: int|
                0 <= i < 64 && i != m.src() && i != m.dst() && i != cap ==> #[trigger] a[i]
                    == n.b[i]
        }),
{
    broadcast use Square::lemma_idx;

    safety::lemma_can_make(n, m);
}

// ---------------------------------------------------------------------------
// Checks that are known are real
// ---------------------------------------------------------------------------

/// A piece that attacks the enemy king from where it arrives gives check.
proof fn lemma_direct_is_real(n: Node, m: Move)
    requires
        n.regular(),
        n.well_moved(m),
        m.kind() != MoveType::Castling,
        n.b[m.src()].kind() != PieceType::King,
        attacks::hits(
            n.stm,
            n.b[m.src()].kind(),
            placement::occ(n.b),
            m.dst(),
            placement::king(n.b, n.stm.opp()),
        ),
    ensures
        ({
            let a = transition::board_after(n.b, n.stm, m);
            placement::attacked(a, placement::occ(a), n.stm, placement::king(n.b, n.stm.opp()))
        }),
{
    let a = transition::board_after(n.b, n.stm, m);
    let k = placement::king(n.b, n.stm.opp());
    let w = placement::occ(n.b);
    let to = m.dst();
    let pt = n.b[m.src()].kind();
    lemma_changes(n, m);
    safety::lemma_kings_after(n, m);
    placement::lemma_king(n.b, n.stm.opp());
    if attacks::clear(w, to, k) {
        assert(attacks::clear(placement::occ(a), to, k)) by {
            assert forall|x: int| #[trigger] attacks::between(to, x, k) implies !bits::bit(
                placement::occ(a),
                x,
            ) by {
                assert(!bits::bit(w, x));
                assert(bits::bit(w, x) == (n.b[x] != Piece::NONE));
                assert(bits::bit(placement::occ(a), x) == (a[x] != Piece::NONE));
            }
        }
    }
    assert(a[to] == n.b[m.src()] || m.kind() == MoveType::Promotion);
    assert(placement::attacks_through(a, placement::occ(a), to, k));
}

/// A piece that promotes to one that attacks the enemy king gives check.
proof fn lemma_promotion_is_real(n: Node, m: Move)
    requires
        n.regular(),
        n.well_moved(m),
        m.kind() == MoveType::Promotion,
        attacks::hits(
            n.stm,
            m.promo(),
            legality::toggled(placement::occ(n.b), m.src()),
            m.dst(),
            placement::king(n.b, n.stm.opp()),
        ),
    ensures
        ({
            let a = transition::board_after(n.b, n.stm, m);
            placement::attacked(a, placement::occ(a), n.stm, placement::king(n.b, n.stm.opp()))
        }),
{
    broadcast use bits::group_bits;

    let a = transition::board_after(n.b, n.stm, m);
    let k = placement::king(n.b, n.stm.opp());
    let w = placement::occ(n.b);
    let to = m.dst();
    let o = legality::toggled(w, m.src());
    lemma_changes(n, m);
    safety::lemma_kings_after(n, m);
    assert forall|i: int| i != to && i != k implies #[trigger] bits::bit(placement::occ(a), i)
        == bits::bit(o, i) by {
        if 0 <= i < 64 {
            assert(bits::bit(w, i) == (n.b[i] != Piece::NONE));
            assert(bits::bit(placement::occ(a), i) == (a[i] != Piece::NONE));
        }
    }
    attacks::law_slider_attacks_ignore_the_ends(placement::occ(a), o, to, k);
    assert(placement::attacks_through(a, placement::occ(a), to, k));
}

/// A line to the enemy king that an en-passant capture opens is open.
proof fn lemma_ep_check_is_real(n: Node, m: Move)
    requires
        n.regular(),
        n.well_moved(m),
        m.kind() == MoveType::EnPassant,
        ({
            let k = placement::king(n.b, n.stm.opp());
            let o = legality::ep_occupancy(
                placement::occ(n.b),
                m.src(),
                8 * (m.src() / 8) + m.dst() % 8,
                m.dst(),
            );
            legality::rook_raked(n.b, o, n.stm, k) || legality::bishop_raked(n.b, o, n.stm, k)
        }),
    ensures
        ({
            let a = transition::board_after(n.b, n.stm, m);
            placement::attacked(a, placement::occ(a), n.stm, placement::king(n.b, n.stm.opp()))
        }),
{
    let a = transition::board_after(n.b, n.stm, m);
    let k = placement::king(n.b, n.stm.opp());
    let cap = transition::capture_square(n.stm, m);
    let o = legality::ep_occupancy(placement::occ(n.b), m.src(), cap, m.dst());
    lemma_changes(n, m);
    safety::lemma_ep_occupancy(n, m);
    let s = if legality::rook_raked(n.b, o, n.stm, k) {
        choose|s: int| #[trigger] legality::rook_rakes(n.b, o, n.stm, s, k)
    } else {
        choose|s: int| #[trigger] legality::bishop_rakes(n.b, o, n.stm, s, k)
    };
    assert(s != m.src() && s != m.dst() && s != cap && a[s] == n.b[s]);
    safety::lemma_same_view(placement::occ(a), o, s, k);
    assert(placement::attacks_through(a, placement::occ(a), s, k));
}

/// A castling rook that attacks the enemy king gives check.
proof fn lemma_castling_check_is_real(n: Node, m: Move)
    requires
        n.regular(),
        n.well_moved(m),
        m.kind() == MoveType::Castling,
        legality::checks_king(n.b, n.stm, m),
    ensures
        ({
            let a = transition::board_after(n.b, n.stm, m);
            placement::attacked(a, placement::occ(a), n.stm, placement::king(n.b, n.stm.opp()))
        }),
{
    broadcast use bits::group_bits;

    let a = transition::board_after(n.b, n.stm, m);
    let k = placement::king(n.b, n.stm.opp());
    let ks = safety::lemma_castling(n, m);
    let kt = position::castle_king_to(m.src(), ks);
    let rt = position::castle_rook_to(m.src(), ks);
    let w = placement::occ(n.b);
    safety::lemma_kings_after(n, m);
    safety::lemma_can_make(n, m);
    placement::lemma_king(n.b, n.stm.opp());
    // The king stands on a first rank, where only the rank passes through: it screens nothing
    // that its rook is not in line with.
    assert(m.src() / 8 == 0 || m.src() / 8 == 7);
    if placement::blocker(n.b, n.stm, k, m.src()) {
        let q = choose|q: int| #[trigger] placement::sole_screen(n.b, n.stm, k, q, m.src());
        assert(attacks::between(k, m.src(), q));
        assert(k / 8 == m.src() / 8);
        assert(attacks::on_line(m.src(), m.dst(), k));
    }
    let o = legality::joined(
        legality::joined(legality::toggled(legality::toggled(w, m.src()), m.dst()), rt),
        kt,
    );
    assert(attacks::rook_hits(o, rt, k));
    assert forall|i: int| #[trigger] bits::bit(placement::occ(a), i) == bits::bit(o, i) by {
        if 0 <= i < 64 {
            assert(bits::bit(w, i) == (n.b[i] != Piece::NONE));
            assert(bits::bit(placement::occ(a), i) == (a[i] != Piece::NONE));
        }
    }
    safety::lemma_same_view(placement::occ(a), o, rt, k);
    assert(a[rt] == Piece::of(n.stm, PieceType::Rook));
    assert(placement::attacks_through(a, placement::occ(a), rt, k));
}

/// A move that is known to give check leaves the enemy king attacked.
pub proof fn law_known_checks_are_real(n: Node, m: Move)
    requires
        n.regular(),
        n.well_moved(m),
        legality::checks_king(n.b, n.stm, m),
    ensures
        ({
            let a = transition::board_after(n.b, n.stm, m);
            placement::attacked(a, placement::occ(a), n.stm, placement::king(a, n.stm.opp()))
        }),
{
    let k = placement::king(n.b, n.stm.opp());
    safety::lemma_kings_after(n, m);
    placement::lemma_king(n.b, n.stm.opp());
    if m.kind() == MoveType::Castling {
        lemma_castling_check_is_real(n, m);
    } else if n.b[m.src()].kind() != PieceType::King && attacks::hits(
        n.stm,
        n.b[m.src()].kind(),
        placement::occ(n.b),
        m.dst(),
        k,
    ) {
        lemma_direct_is_real(n, m);
    } else if placement::blocker(n.b, n.stm, k, m.src()) && !attacks::on_line(m.src(), m.dst(), k) {
        lemma_changes(n, m);
        lemma_screen_leaves(
            n.b,
            transition::board_after(n.b, n.stm, m),
            n.stm,
            k,
            m.src(),
            m.dst(),
            transition::capture_square(n.stm, m),
        );
    } else if m.kind() == MoveType::Promotion {
        lemma_promotion_is_real(n, m);
    } else {
        safety::lemma_ep_occupancy(n, m);
        lemma_ep_check_is_real(n, m);
    }
}

// ---------------------------------------------------------------------------
// What is rejected leaves the king attacked
// ---------------------------------------------------------------------------

impl Node {
    /// The move leaves the king of the side that makes it unattacked.
    pub open spec fn leaves_king_safe(self, m: Move) -> bool {
        let a = transition::board_after(self.b, self.stm, m);
        !placement::attacked(a, placement::occ(a), self.stm.opp(), placement::king(a, self.stm))
    }
}

/// A king that steps onto a square that is attacked without it is attacked there.
proof fn lemma_unsafe_step(n: Node, m: Move)
    requires
        n.regular(),
        n.well_moved(m),
        m.kind() == MoveType::Normal,
        n.b[m.src()].kind() == PieceType::King,
        placement::attacked(
            n.b,
            legality::toggled(placement::occ(n.b), m.src()),
            n.stm.opp(),
            m.dst(),
        ),
    ensures
        !n.leaves_king_safe(m),
{
    broadcast use bits::group_bits;

    let a = transition::board_after(n.b, n.stm, m);
    let them = n.stm.opp();
    let to = m.dst();
    let w = legality::toggled(placement::occ(n.b), m.src());
    lemma_changes(n, m);
    safety::lemma_kings_after(n, m);
    let s = choose|s: int|
        #[trigger] placement::attacks_through(n.b, w, s, to) && n.b[s].side() == them;
    assert(s != to && s != m.src() && a[s] == n.b[s]);
    assert forall|i: int| i != s && i != to implies #[trigger] bits::bit(placement::occ(a), i)
        == bits::bit(w, i) by {
        if 0 <= i < 64 {
            assert(bits::bit(placement::occ(n.b), i) == (n.b[i] != Piece::NONE));
            assert(bits::bit(placement::occ(a), i) == (a[i] != Piece::NONE));
        }
    }
    attacks::law_slider_attacks_ignore_the_ends(placement::occ(a), w, s, to);
    assert(placement::attacks_through(a, placement::occ(a), s, to));
}

/// An en-passant capture after which the king is attacked by what stays leaves it attacked.
proof fn lemma_unsafe_ep(n: Node, m: Move)
    requires
        n.regular(),
        n.well_moved(m),
        m.kind() == MoveType::EnPassant,
        n.rejects(m),
    ensures
        !n.leaves_king_safe(m),
{
    let a = transition::board_after(n.b, n.stm, m);
    let them = n.stm.opp();
    let k = placement::king(n.b, n.stm);
    let cap = transition::capture_square(n.stm, m);
    let o = legality::ep_occupancy(placement::occ(n.b), m.src(), cap, m.dst());
    lemma_changes(n, m);
    safety::lemma_kings_after(n, m);
    safety::lemma_ep_occupancy(n, m);
    let s = choose|s: int| #[trigger]
        placement::attacks_through(n.b, o, s, k) && n.b[s].side() == them && s != cap;
    assert(s != m.src() && s != m.dst() && a[s] == n.b[s]);
    safety::lemma_same_view(placement::occ(a), o, s, k);
    assert(placement::attacks_through(a, placement::occ(a), s, k));
}

/// A move that is rejected, other than castling, would leave its king attacked.
pub proof fn law_rejected_moves_leave_the_king_attacked(n: Node, m: Move)
    requires
        n.regular(),
        n.well_moved(m),
        m.kind() != MoveType::Castling,
        n.rejects(m),
    ensures
        !n.leaves_king_safe(m),
{
    let k = placement::king(n.b, n.stm);
    placement::lemma_king(n.b, n.stm);
    safety::lemma_kings_after(n, m);
    if m.kind() == MoveType::EnPassant {
        lemma_unsafe_ep(n, m);
    } else if n.b[m.src()].kind() == PieceType::King {
        lemma_unsafe_step(n, m);
    } else {
        lemma_changes(n, m);
        lemma_screen_leaves(
            n.b,
            transition::board_after(n.b, n.stm, m),
            n.stm.opp(),
            k,
            m.src(),
            m.dst(),
            transition::capture_square(n.stm, m),
        );
    }
}

/// A checker that a move neither takes nor blocks still gives check.
proof fn lemma_check_stands(n: Node, m: Move, c: int)
    requires
        n.regular(),
        n.well_moved(m),
        m.kind() != MoveType::Castling,
        n.b[m.src()].kind() != PieceType::King,
        n.leaves_king_safe(m),
        n.checkers.has(c),
    ensures
        c == transition::capture_square(n.stm, m) || attacks::between(
            placement::king(n.b, n.stm),
            m.dst(),
            c,
        ),
        0 <= c < 64,
        n.b[c].is_real(),
        n.b[c].side() == n.stm.opp(),
        placement::attacks_through(n.b, placement::occ(n.b), c, placement::king(n.b, n.stm)),
{
    let a = transition::board_after(n.b, n.stm, m);
    let k = placement::king(n.b, n.stm);
    let w = placement::occ(n.b);
    let to = m.dst();
    lemma_changes(n, m);
    safety::lemma_kings_after(n, m);
    assert(state::checks(n.b, n.stm.opp(), k, c));
    if c != transition::capture_square(n.stm, m) && !attacks::between(k, to, c) {
        assert(c != m.src() && c != to && a[c] == n.b[c]);
        if attacks::clear(w, c, k) {
            assert(attacks::clear(placement::occ(a), c, k)) by {
                assert forall|x: int| #[trigger] attacks::between(c, x, k) implies !bits::bit(
                    placement::occ(a),
                    x,
                ) by {
                    assert(attacks::between(k, x, c));
                    assert(!bits::bit(w, x));
                    assert(bits::bit(w, x) == (n.b[x] != Piece::NONE));
                    assert(bits::bit(placement::occ(a), x) == (a[x] != Piece::NONE));
                }
            }
        }
        assert(placement::attacks_through(a, placement::occ(a), c, k));
    }
}

/// Of two squares on one ray from the king, one is between the king and the other.
proof fn lemma_one_ray(k: int, t: int, c: int, d: int)
    requires
        attacks::between(k, t, c),
        attacks::between(k, t, d),
        c != d,
    ensures
        attacks::between(k, c, d) || attacks::between(k, d, c),
{
}

/// A slider that gives check has a clear line.
proof fn lemma_clear_check(n: Node, c: int, x: int)
    requires
        n.regular(),
        placement::attacks_through(n.b, placement::occ(n.b), c, placement::king(n.b, n.stm)),
        attacks::between(placement::king(n.b, n.stm), x, c),
    ensures
        n.b[x] == Piece::NONE,
{
    let k = placement::king(n.b, n.stm);
    let pt = n.b[c].kind();
    let w = placement::occ(n.b);
    if pt == PieceType::Knight || pt == PieceType::King || pt == PieceType::Pawn {
        soundness::lemma_no_between(n.b[c].side(), pt, w, c, k, x);
    } else {
        assert(attacks::clear(w, c, k));
        assert(attacks::between(c, x, k));
        assert(bits::bit(w, x) == (n.b[x] != Piece::NONE));
    }
}

/// A pawn's check is not on a line with the square behind it.
proof fn lemma_pawn_and_line(us: Color, k: int, cap: int, to: int, d: int)
    requires
        bitboard::pawn_hits(us.opp(), cap, k),
        to == cap + Direction::forward(us).delta(),
        0 <= to < 64,
    ensures
        !attacks::between(k, to, d),
{
}

/// Two checkers cannot both be answered by a piece other than the king.
proof fn lemma_two_checkers(n: Node, m: Move, c: int, d: int)
    requires
        n.regular(),
        n.well_moved(m),
        m.kind() != MoveType::Castling,
        n.b[m.src()].kind() != PieceType::King,
        n.leaves_king_safe(m),
        n.checkers.has(c),
        n.checkers.has(d),
    ensures
        c == d,
{
    let k = placement::king(n.b, n.stm);
    let to = m.dst();
    let cap = transition::capture_square(n.stm, m);
    lemma_changes(n, m);
    lemma_check_stands(n, m, c);
    lemma_check_stands(n, m, d);
    if c == d {
    } else if c == cap {
        if m.kind() == MoveType::EnPassant {
            lemma_pawn_and_line(n.stm, k, cap, to, d);
        } else {
            lemma_clear_check(n, d, c);
        }
    } else if d == cap {
        if m.kind() == MoveType::EnPassant {
            lemma_pawn_and_line(n.stm, k, cap, to, c);
        } else {
            lemma_clear_check(n, c, d);
        }
    } else {
        lemma_one_ray(k, to, c, d);
        if attacks::between(k, c, d) {
            lemma_clear_check(n, d, c);
        } else {
            lemma_clear_check(n, c, d);
        }
    }
}

/// A move that leaves its king safe answers a check.
proof fn lemma_safe_answers(n: Node, m: Move)
    requires
        n.regular(),
        n.well_moved(m),
        m.kind() != MoveType::Castling,
        n.leaves_king_safe(m),
    ensures
        n.answers(m),
{
    if n.in_check() && n.b[m.src()].kind() != PieceType::King {
        bits::lemma_members(n.checkers.0);
        bits::lemma_members_empty(n.checkers.0);
        let s = n.checkers.members();
        assert(n.checkers.has(s[0]));
        if s.len() >= 2 {
            assert(n.checkers.has(s[1]));
            assert(s[0] < s[1]);
            lemma_two_checkers(n, m, s[0], s[1]);
        }
        lemma_check_stands(n, m, s[0]);
    }
}

/// An en-passant capture that leaves its king safe is not one that generation leaves out.
proof fn lemma_ep_not_left_out(n: Node, m: Move)
    requires
        n.regular(),
        n.well_moved(m),
        m.kind() == MoveType::EnPassant,
        n.leaves_king_safe(m),
        n.in_check(),
    ensures
        !n.target(GenType::Evasions, m.dst() + Direction::forward(n.stm).delta()),
{
    broadcast use Square::lemma_idx;

    let k = placement::king(n.b, n.stm);
    let u = Direction::forward(n.stm).delta();
    let to = m.dst();
    let cap = to - u;
    let c = n.checkers.members()[0];
    bits::lemma_members(n.checkers.0);
    bits::lemma_members_empty(n.checkers.0);
    placement::lemma_king(n.b, n.stm);
    assert(n.checkers.has(c));
    lemma_changes(n, m);
    lemma_check_stands(n, m, c);
    if n.target(GenType::Evasions, to + u) {
        if c == cap {
            if attacks::between(k, to + u, c) {
                soundness::lemma_no_between(
                    n.stm.opp(),
                    PieceType::Pawn,
                    placement::occ(n.b),
                    c,
                    k,
                    to + u,
                );
            }
        } else {
            lemma_file_line(k, to, u, c);
            lemma_clear_check(n, c, cap);
        }
        assert(false);
    }
}

/// A line through two squares of a file passes through the third.
proof fn lemma_file_line(k: int, to: int, u: int, c: int)
    requires
        u == 8 || u == -8,
        attacks::between(k, to, c),
        to + u == c || attacks::between(k, to + u, c),
        k != to - u,
        c != to - u,
        0 <= to - u < 64,
        0 <= to + u < 64,
    ensures
        attacks::between(k, to - u, c),
{
}

// ---------------------------------------------------------------------------
// What follows the rules is generated
// ---------------------------------------------------------------------------

/// Every square that satisfies the predicate is listed.
proof fn lemma_squares_complete(p: spec_fn(int) -> bool, i: int, t: int)
    requires
        0 <= i <= t < 64,
        p(t),
    ensures
        movegen::squares_from(p, i).contains(t),
    decreases 64 - i,
{
    let tail = movegen::squares_from(p, i + 1);
    if i == t {
        assert((seq![i] + tail)[0] == t);
    } else {
        lemma_squares_complete(p, i + 1, t);
        let k = choose|k: int| 0 <= k < tail.len() && tail[k] == t;
        if p(i) {
            assert((seq![i] + tail)[k + 1] == t);
        }
    }
}

proof fn lemma_from_contains(from: int, q: spec_fn(int) -> bool, t: int)
    requires
        0 <= t < 64,
        q(t),
    ensures
        movegen::moves_from(from, movegen::squares(q)).contains(movegen::plain(from, t)),
{
    lemma_squares_complete(q, 0, t);
    let tos = movegen::squares(q);
    let k = choose|k: int| 0 <= k < tos.len() && tos[k] == t;
    assert(movegen::moves_from(from, tos)[k] == movegen::plain(from, t));
}

proof fn lemma_by_contains(d: int, q: spec_fn(int) -> bool, t: int)
    requires
        0 <= t < 64,
        q(t),
    ensures
        movegen::moves_by(d, movegen::squares(q)).contains(movegen::plain(t - d, t)),
{
    lemma_squares_complete(q, 0, t);
    let tos = movegen::squares(q);
    let k = choose|k: int| 0 <= k < tos.len() && tos[k] == t;
    assert(movegen::moves_by(d, tos)[k] == movegen::plain(t - d, t));
}

proof fn lemma_in_first(a: Seq<Move>, b: Seq<Move>, m: Move)
    requires
        a.contains(m),
    ensures
        (a + b).contains(m),
{
    let k = choose|k: int| 0 <= k < a.len() && a[k] == m;
    assert((a + b)[k] == m);
}

proof fn lemma_in_second(a: Seq<Move>, b: Seq<Move>, m: Move)
    requires
        b.contains(m),
    ensures
        (a + b).contains(m),
{
    let k = choose|k: int| 0 <= k < b.len() && b[k] == m;
    assert((a + b)[a.len() + k] == m);
}

proof fn lemma_promotions_contain(gt: GenType, captures: bool, d: int, tos: Seq<int>, k: int, m: Move)
    requires
        0 <= k < tos.len(),
        movegen::promotions(gt, captures, tos[k] - d, tos[k]).contains(m),
    ensures
        movegen::promotions_by(gt, captures, d, tos).contains(m),
    decreases tos.len(),
{
    let here = movegen::promotions(gt, captures, tos[0] - d, tos[0]);
    let rest = tos.drop_first();
    let more = movegen::promotions_by(gt, captures, d, rest);
    if k == 0 {
        lemma_in_first(here, more, m);
    } else {
        assert(rest[k - 1] == tos[k]);
        lemma_promotions_contain(gt, captures, d, rest, k - 1, m);
        lemma_in_second(here, more, m);
    }
}

/// All four promotions belong to the kinds that the legal moves are chosen from.
proof fn lemma_promotion_listed(n: Node, captures: bool, d: int, q: spec_fn(int) -> bool, m: Move)
    requires
        m.kind() == MoveType::Promotion,
        m.src() == m.dst() - d,
        q(m.dst()),
    ensures
        movegen::promotions_by(n.full_kind(), captures, d, movegen::squares(q)).contains(m),
{
    let gt = n.full_kind();
    let tos = movegen::squares(q);
    lemma_squares_complete(q, 0, m.dst());
    let k = choose|k: int| 0 <= k < tos.len() && tos[k] == m.dst();
    types::law_move_is_its_fields(m);
    let four = movegen::promotions(gt, captures, m.src(), m.dst());
    let i: int = match m.promo() {
        PieceType::Queen => 0,
        PieceType::Rook => 1,
        PieceType::Bishop => 2,
        _ => 3,
    };
    assert(four[i] == m);
    lemma_promotions_contain(gt, captures, d, tos, k, m);
}

/// The pawn arrives from where it stands, one step in the direction.
proof fn lemma_arrives(n: Node, m: Move, d: Direction)
    requires
        n.b[m.src()] == Piece::of(n.stm, PieceType::Pawn),
        m.dst() == m.src() + d.delta(),
        m.dst() % 8 == m.src() % 8 + d.df(),
        m.dst() / 8 == m.src() / 8 + d.dr(),
    ensures
        movegen::pawn_arrives(
            n.b,
            n.stm,
            d,
            Square::rel_rank(m.src(), n.stm) == 6,
            m.dst(),
        ),
{
}

/// A pawn captures to its right or to its left.
proof fn lemma_capture_direction(us: Color, from: int, to: int) -> (d: Direction)
    requires
        bitboard::pawn_hits(us, from, to),
    ensures
        d == movegen::right_of(us) || d == movegen::left_of(us),
        to == from + d.delta(),
        to % 8 == from % 8 + d.df(),
        to / 8 == from / 8 + d.dr(),
{
    let r = movegen::right_of(us);
    let l = movegen::left_of(us);
    if to == from + r.delta() {
        r
    } else {
        l
    }
}

impl Node {
    /// The field of the promotion piece is at rest but in a promotion.
    pub open spec fn well_encoded(self, m: Move) -> bool {
        m.kind() != MoveType::Promotion ==> m.promo() == PieceType::Knight
    }

    /// An en-passant capture is not one that generation leaves out.
    pub open spec fn ep_listed(self, m: Move) -> bool {
        m.kind() == MoveType::EnPassant && self.in_check() ==> !self.target(
            GenType::Evasions,
            m.dst() + Direction::forward(self.stm).delta(),
        )
    }
}

/// In answer to a check, a destination that answers is one that is asked for.
proof fn lemma_target(n: Node, m: Move)
    requires
        n.regular(),
        n.well_moved(m),
        n.answers(m),
        m.kind() == MoveType::Normal || m.kind() == MoveType::Promotion,
        n.b[m.src()].kind() != PieceType::King,
    ensures
        n.target(n.full_kind(), m.dst()),
        n.push_counts(n.full_kind(), m.dst()),
        movegen::enemy(n.b, n.stm, m.dst()) ==> n.prey(n.full_kind(), m.dst()),
{
    let k = placement::king(n.b, n.stm);
    if n.in_check() {
        bits::lemma_members(n.checkers.0);
        bits::lemma_members_empty(n.checkers.0);
        let c = n.checkers.members()[0];
        assert(n.checkers.has(c));
        assert(state::checks(n.b, n.stm.opp(), k, c));
        if m.dst() != c {
            lemma_clear_check(n, c, m.dst());
        }
    }
}

/// A pawn's move that follows the rules is generated.
proof fn lemma_pawn_listed(n: Node, m: Move)
    requires
        n.regular(),
        n.well_moved(m),
        n.answers(m),
        n.well_encoded(m),
        n.ep_listed(m),
        m.kind() != MoveType::Castling,
        n.b[m.src()].kind() == PieceType::Pawn,
    ensures
        n.pawn_moves(n.full_kind()).contains(m),
{
    broadcast use Square::lemma_idx;

    let gt = n.full_kind();
    let from = m.src();
    let to = m.dst();
    let r = movegen::right_of(n.stm);
    let l = movegen::left_of(n.stm);
    let up = Direction::forward(n.stm);
    let u = up.delta();
    types::law_move_is_its_fields(m);
    assert(n.b[from] == Piece::of(n.stm, PieceType::Pawn));
    let takes = bitboard::pawn_hits(n.stm, from, to);
    if m.kind() == MoveType::Promotion {
        lemma_target(n, m);
        let right = movegen::promotions_by(
            gt,
            true,
            r.delta(),
            movegen::squares(
                |t: int| movegen::pawn_arrives(n.b, n.stm, r, true, t) && n.prey(gt, t),
            ),
        );
        let left = movegen::promotions_by(
            gt,
            true,
            l.delta(),
            movegen::squares(
                |t: int| movegen::pawn_arrives(n.b, n.stm, l, true, t) && n.prey(gt, t),
            ),
        );
        let ahead = movegen::promotions_by(
            gt,
            false,
            u,
            movegen::squares(
                |t: int|
                    movegen::pawn_arrives(n.b, n.stm, up, true, t) && n.b[t] == Piece::NONE
                        && n.push_counts(gt, t),
            ),
        );
        if takes && movegen::enemy(n.b, n.stm, to) {
            let d = lemma_capture_direction(n.stm, from, to);
            lemma_arrives(n, m, d);
            lemma_promotion_listed(
                n,
                true,
                d.delta(),
                |t: int| movegen::pawn_arrives(n.b, n.stm, d, true, t) && n.prey(gt, t),
                m,
            );
            if d == r {
                lemma_in_first(right, left, m);
            } else {
                lemma_in_second(right, left, m);
            }
            lemma_in_first(right + left, ahead, m);
        } else {
            lemma_arrives(n, m, up);
            lemma_promotion_listed(
                n,
                false,
                u,
                |t: int|
                    movegen::pawn_arrives(n.b, n.stm, up, true, t) && n.b[t] == Piece::NONE
                        && n.push_counts(gt, t),
                m,
            );
            lemma_in_second(right + left, ahead, m);
        }
        lemma_in_second(n.pushes(gt), n.promoting(gt), m);
        lemma_in_first(n.pushes(gt) + n.promoting(gt), n.pawn_captures(gt), m);
    } else if m.kind() == MoveType::EnPassant {
        lemma_ep_in_list(n, m);
        let right = movegen::moves_by(
            r.delta(),
            movegen::squares(
                |t: int| movegen::pawn_arrives(n.b, n.stm, r, false, t) && n.prey(gt, t),
            ),
        );
        let left = movegen::moves_by(
            l.delta(),
            movegen::squares(
                |t: int| movegen::pawn_arrives(n.b, n.stm, l, false, t) && n.prey(gt, t),
            ),
        );
        lemma_in_second(right + left, n.en_passant(gt), m);
        lemma_in_second(n.pushes(gt) + n.promoting(gt), n.pawn_captures(gt), m);
    } else {
        lemma_target(n, m);
        if takes && movegen::enemy(n.b, n.stm, to) {
            lemma_capture_listed(n, m);
            lemma_in_second(n.pushes(gt) + n.promoting(gt), n.pawn_captures(gt), m);
        } else {
            let singles = movegen::moves_by(
                u,
                movegen::squares(|t: int| n.single_push(t) && n.push_counts(gt, t)),
            );
            let doubles = movegen::moves_by(
                2 * u,
                movegen::squares(|t: int| n.double_push(t) && n.push_counts(gt, t)),
            );
            if to == from + u {
                lemma_arrives(n, m, up);
                lemma_by_contains(u, |t: int| n.single_push(t) && n.push_counts(gt, t), to);
                lemma_in_first(singles, doubles, m);
            } else {
                assert(n.single_push(to - u));
                lemma_by_contains(2 * u, |t: int| n.double_push(t) && n.push_counts(gt, t), to);
                lemma_in_second(singles, doubles, m);
            }
            lemma_in_first(n.pushes(gt), n.promoting(gt), m);
            lemma_in_first(n.pushes(gt) + n.promoting(gt), n.pawn_captures(gt), m);
        }
    }
}

proof fn lemma_capture_listed(n: Node, m: Move)
    requires
        n.regular(),
        n.well_moved(m),
        n.well_encoded(m),
        m.kind() == MoveType::Normal,
        n.b[m.src()].kind() == PieceType::Pawn,
        bitboard::pawn_hits(n.stm, m.src(), m.dst()),
        n.prey(n.full_kind(), m.dst()),
    ensures
        n.pawn_captures(n.full_kind()).contains(m),
{
    let gt = n.full_kind();
    let to = m.dst();
    let r = movegen::right_of(n.stm);
    let l = movegen::left_of(n.stm);
    types::law_move_is_its_fields(m);
    assert(n.b[m.src()] == Piece::of(n.stm, PieceType::Pawn));
    let d = lemma_capture_direction(n.stm, m.src(), to);
    lemma_arrives(n, m, d);
    lemma_by_contains(
        d.delta(),
        |t: int| movegen::pawn_arrives(n.b, n.stm, d, false, t) && n.prey(gt, t),
        to,
    );
    let right = movegen::moves_by(
        r.delta(),
        movegen::squares(|t: int| movegen::pawn_arrives(n.b, n.stm, r, false, t) && n.prey(gt, t)),
    );
    let left = movegen::moves_by(
        l.delta(),
        movegen::squares(|t: int| movegen::pawn_arrives(n.b, n.stm, l, false, t) && n.prey(gt, t)),
    );
    if d == r {
        lemma_in_first(right, left, m);
    } else {
        lemma_in_second(right, left, m);
    }
    lemma_in_first(right + left, n.en_passant(gt), m);
}

proof fn lemma_ep_in_list(n: Node, m: Move)
    requires
        n.regular(),
        n.well_moved(m),
        n.well_encoded(m),
        n.ep_listed(m),
        m.kind() == MoveType::EnPassant,
    ensures
        n.en_passant(n.full_kind()).contains(m),
{
    broadcast use Square::lemma_idx;

    let gt = n.full_kind();
    let e = n.ep->At_0;
    types::law_move_is_its_fields(m);
    let q = |s: int|
        bitboard::pawn_hits(n.stm.opp(), e.idx(), s) && n.b[s] == Piece::of(
            n.stm,
            PieceType::Pawn,
        ) && Square::rel_rank(s, n.stm) != 6;
    bitboard::law_pawn_attacks_mirror(n.stm, m.src(), e.idx());
    assert(q(m.src()));
    lemma_squares_complete(q, 0, m.src());
    let froms = movegen::squares(q);
    let k = choose|k: int| 0 <= k < froms.len() && froms[k] == m.src();
    assert(movegen::ep_captures(e.idx(), froms)[k] == m);
}

proof fn lemma_steps_contain(n: Node, gt: GenType, pt: PieceType, froms: Seq<int>, k: int, m: Move)
    requires
        0 <= k < froms.len(),
        n.piece_steps(gt, pt, froms[k]).contains(m),
    ensures
        n.steps_of(gt, pt, froms).contains(m),
    decreases froms.len(),
{
    let here = n.piece_steps(gt, pt, froms[0]);
    let rest = froms.drop_first();
    let more = n.steps_of(gt, pt, rest);
    if k == 0 {
        lemma_in_first(here, more, m);
    } else {
        assert(rest[k - 1] == froms[k]);
        lemma_steps_contain(n, gt, pt, rest, k - 1, m);
        lemma_in_second(here, more, m);
    }
}

/// A piece's move that follows the rules is generated.
proof fn lemma_piece_listed(n: Node, m: Move)
    requires
        n.regular(),
        n.well_moved(m),
        n.answers(m),
        n.well_encoded(m),
        m.kind() == MoveType::Normal,
        n.b[m.src()].kind() != PieceType::Pawn,
        n.b[m.src()].kind() != PieceType::King,
    ensures
        n.piece_moves(n.full_kind(), n.b[m.src()].kind()).contains(m),
{
    let gt = n.full_kind();
    let pt = n.b[m.src()].kind();
    let from = m.src();
    types::law_move_is_its_fields(m);
    lemma_target(n, m);
    lemma_from_contains(
        from,
        |t: int| attacks::hits(n.stm, pt, placement::occ(n.b), from, t) && n.target(gt, t),
        m.dst(),
    );
    let q = |s: int| n.b[s] == Piece::of(n.stm, pt);
    assert(q(from));
    lemma_squares_complete(q, 0, from);
    let froms = movegen::squares(q);
    let k = choose|k: int| 0 <= k < froms.len() && froms[k] == from;
    lemma_steps_contain(n, gt, pt, froms, k, m);
}

/// A castling move that can be made is generated.
proof fn lemma_castling_listed(n: Node, m: Move)
    requires
        n.regular(),
        n.well_moved(m),
        n.well_encoded(m),
        m.kind() == MoveType::Castling,
    ensures
        n.castling_moves(n.full_kind()).contains(m),
{
    let ks = choose|ks: bool| #[trigger] n.castles_with(ks, m.dst());
    types::law_move_is_its_fields(m);
    assert(n.castle_move(ks)[0] == m);
    if ks {
        lemma_in_first(n.castle_move(true), n.castle_move(false), m);
    } else {
        lemma_in_second(n.castle_move(true), n.castle_move(false), m);
    }
}

/// A move that follows the rules of movement and answers a check is generated.
pub proof fn law_moves_that_follow_the_rules_are_generated(n: Node, m: Move)
    requires
        n.regular(),
        n.well_moved(m),
        n.answers(m),
        n.well_encoded(m),
        n.ep_listed(m),
    ensures
        n.pseudo(n.full_kind()).contains(m),
{
    let gt = n.full_kind();
    let k = placement::king(n.b, n.stm);
    placement::lemma_king(n.b, n.stm);
    types::law_move_is_its_fields(m);
    bits::lemma_members_empty(n.checkers.0);
    let p0 = n.pawn_moves(gt);
    let p1 = n.piece_moves(gt, PieceType::Knight);
    let p2 = n.piece_moves(gt, PieceType::Bishop);
    let p3 = n.piece_moves(gt, PieceType::Rook);
    let p4 = n.piece_moves(gt, PieceType::Queen);
    let p5 = n.king_moves(gt);
    let p6 = n.castling_moves(gt);
    let pt = n.b[m.src()].kind();
    if m.kind() == MoveType::Castling {
        lemma_castling_listed(n, m);
        lemma_in_second(p0 + p1 + p2 + p3 + p4 + p5, p6, m);
    } else if pt == PieceType::King {
        lemma_from_contains(
            k,
            |t: int| bitboard::king_hits(k, t) && movegen::wanted(n.b, n.stm, gt, t),
            m.dst(),
        );
        lemma_in_second(p0 + p1 + p2 + p3 + p4, p5, m);
        lemma_in_first(p0 + p1 + p2 + p3 + p4 + p5, p6, m);
    } else {
        if pt == PieceType::Pawn {
            lemma_pawn_listed(n, m);
            lemma_in_first(p0, p1, m);
            lemma_in_first(p0 + p1, p2, m);
            lemma_in_first(p0 + p1 + p2, p3, m);
            lemma_in_first(p0 + p1 + p2 + p3, p4, m);
        } else {
            lemma_piece_listed(n, m);
            if pt == PieceType::Knight {
                lemma_in_second(p0, p1, m);
                lemma_in_first(p0 + p1, p2, m);
                lemma_in_first(p0 + p1 + p2, p3, m);
                lemma_in_first(p0 + p1 + p2 + p3, p4, m);
            } else if pt == PieceType::Bishop {
                lemma_in_second(p0 + p1, p2, m);
                lemma_in_first(p0 + p1 + p2, p3, m);
                lemma_in_first(p0 + p1 + p2 + p3, p4, m);
            } else if pt == PieceType::Rook {
                lemma_in_second(p0 + p1 + p2, p3, m);
                lemma_in_first(p0 + p1 + p2 + p3, p4, m);
            } else {
                lemma_in_second(p0 + p1 + p2 + p3, p4, m);
            }
        }
        lemma_in_first(p0 + p1 + p2 + p3 + p4, p5, m);
        lemma_in_first(p0 + p1 + p2 + p3 + p4 + p5, p6, m);
    }
}

/// The legal moves are exactly those that follow the rules and leave their own king safe; a
/// castling king must not cross an attacked square either.
pub proof fn law_legal_moves_are_the_safe_ones(n: Node, m: Move)
    requires
        n.regular(),
    ensures
        n.legal_moves().contains(m) <==> {
            &&& n.well_moved(m)
            &&& n.well_encoded(m)
            &&& n.leaves_king_safe(m)
            &&& m.kind() == MoveType::Castling ==> legality::is_legal(
                n.b,
                n.stm,
                n.chess960,
                m,
            )
        },
{
    legal_moves::law_legal_moves_are_the_passing_ones(n, m);
    placement::lemma_king(n.b, n.stm);
    if n.legal_moves().contains(m) {
        perft::lemma_legal(n, m);
        safety::law_legal_moves_keep_the_king_safe(n, m);
        lemma_encoded(n);
        let s = n.pseudo(n.full_kind());
        let i = choose|i: int| 0 <= i < s.len() && s[i] == m;
        assert((|m: Move| n.well_encoded(m))(s[i]));
    }
    if n.well_moved(m) && n.well_encoded(m) && n.leaves_king_safe(m) && (m.kind()
        == MoveType::Castling ==> legality::is_legal(n.b, n.stm, n.chess960, m)) {
        if m.kind() != MoveType::Castling {
            lemma_safe_answers(n, m);
            if n.rejects(m) {
                law_rejected_moves_leave_the_king_attacked(n, m);
            }
            if m.kind() == MoveType::EnPassant && n.in_check() {
                lemma_ep_not_left_out(n, m);
            }
        }
        law_moves_that_follow_the_rules_are_generated(n, m);
    }
}

/// Every move that is generated has its fields at rest.
proof fn lemma_encoded(n: Node)
    requires
        n.regular(),
    ensures
        legal_moves::each(n.pseudo(n.full_kind()), |m: Move| n.well_encoded(m)),
{
    broadcast use Square::lemma_idx;

    let p = |m: Move| n.well_encoded(m);
    placement::lemma_king(n.b, n.stm);
    assert forall|s: int, t: int| 0 <= s < 64 && 0 <= t < 64 implies p(
        #[trigger] movegen::plain(s, t),
    ) by {
        legal_moves::lemma_pack(MoveType::Normal, s, t, PieceType::Knight);
    }
    assert forall|s: int, t: int| 0 <= s < 64 && 0 <= t < 64 implies #[trigger] legal_moves::each_promotion(
    s, t, p) by {
        legal_moves::lemma_pack(MoveType::Promotion, s, t, PieceType::Queen);
        legal_moves::lemma_pack(MoveType::Promotion, s, t, PieceType::Rook);
        legal_moves::lemma_pack(MoveType::Promotion, s, t, PieceType::Bishop);
        legal_moves::lemma_pack(MoveType::Promotion, s, t, PieceType::Knight);
    }
    assert forall|s: int, t: int| 0 <= s < 64 && 0 <= t < 64 implies p(
        #[trigger] Move::pack(MoveType::EnPassant, s, t, PieceType::Knight),
    ) by {
        legal_moves::lemma_pack(MoveType::EnPassant, s, t, PieceType::Knight);
    }
    assert forall|s: int, t: int| 0 <= s < 64 && 0 <= t < 64 implies p(
        #[trigger] Move::pack(MoveType::Castling, s, t, PieceType::Knight),
    ) by {
        legal_moves::lemma_pack(MoveType::Castling, s, t, PieceType::Knight);
    }
    assert(legal_moves::each_kind(n, n.full_kind(), p));
    legal_moves::lemma_each_generated(n, n.full_kind(), p);
}

/// A plain move from elsewhere is accepted exactly when it is generated and, for a king in check,
/// leads out of attack.
pub proof fn law_accepted_moves_are_generated(n: Node, m: Move)
    requires
        n.regular(),
        m.kind() == MoveType::Normal,
        m != Move(0),
        m != Move(65),
    ensures
        n.could_generate(m) <==> {
            &&& n.pseudo(n.full_kind()).contains(m)
            &&& n.in_check() && n.b[m.src()].kind() == PieceType::King ==> !placement::attacked(
                n.b,
                legality::toggled(placement::occ(n.b), m.src()),
                n.stm.opp(),
                m.dst(),
            )
        },
{
    placement::lemma_king(n.b, n.stm);
    if n.could_generate(m) {
        law_moves_that_follow_the_rules_are_generated(n, m);
    }
    if n.pseudo(n.full_kind()).contains(m) {
        soundness::lemma_generated(n);
        lemma_encoded(n);
        let s = n.pseudo(n.full_kind());
        let i = choose|i: int| 0 <= i < s.len() && s[i] == m;
        assert((|m: Move| n.well_moved(m) && n.answers(m))(s[i]));
        assert((|m: Move| n.well_encoded(m))(s[i]));
    }
}

} // verus!
