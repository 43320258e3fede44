//! Kings after a move.
//!
//! A legal move leaves its own king safe, and a move that leaves the enemy king attacked is
//! flagged as a check before it is made.

use vstd::prelude::*;
use crate::board::attacks;
use crate::board::bitboard;
use crate::board::bits;
use crate::board::legality;
use crate::board::movegen::Node;
use crate::board::placement;
use crate::board::position;
use crate::board::soundness;
use crate::board::state;
use crate::board::tally;
use crate::board::transition;
use crate::board::types::{CastlingRights, Move, MoveType, Piece, PieceType, Square};

verus! {

/// The members below `n` of any set of squares make a word.
pub proof fn lemma_word_of(p: spec_fn(int) -> bool, n: int) -> (w: u64)
    requires
        0 <= n <= 64,
    ensures
        forall|i: int| #[trigger] bits::bit(w, i) == (0 <= i < n && p(i)),
    decreases n,
{
    broadcast use bits::group_bits;

    if n == 0 {
        0
    } else {
        let w = lemma_word_of(p, n - 1);
        if p(n - 1) {
            legality::joined(w, n - 1)
        } else {
            w
        }
    }
}

/// Every placement has its occupancy.
pub proof fn lemma_occupancy(b: Seq<Piece>)
    ensures
        placement::occupies(b, placement::occ(b)),
{
    let w = lemma_word_of(|i: int| b[i] != Piece::NONE, 64);
    assert(placement::occupies(b, w));
}

/// A move that moves as its piece moves can be made: it takes no king, since the enemy king
/// is not attacked, and a promotion has room.
pub proof fn lemma_can_make(n: Node, m: Move)
    requires
        n.regular(),
        n.well_moved(m),
    ensures
        transition::can_make(n.b, n.stm, m),
{
    broadcast use Square::lemma_idx;

    let them = n.stm.opp();
    let k = placement::king(n.b, them);
    placement::lemma_king(n.b, n.stm);
    placement::lemma_king(n.b, them);
    let from = m.src();
    let to = m.dst();
    assert(n.b[to] != Piece::NONE ==> n.b[to].is_real());
    if m.kind() == MoveType::Castling {
        let ks = choose|ks: bool| #[trigger] n.castles_with(ks, to);
        let cr = CastlingRights::wing(n.stm, ks);
        assert(n.castling.right_wf(n.b, n.stm, ks));
        let kt = position::castle_king_to(from, ks);
        let rt = position::castle_rook_to(from, ks);
        assert(kt != from && kt != to ==> n.castling.path@[cr.nibble()].has(kt));
        assert(rt != from && rt != to ==> n.castling.path@[cr.nibble()].has(rt));
    } else if m.kind() != MoveType::EnPassant {
        assert(to != k) by {
            if to == k && attacks::hits(n.stm, n.b[from].kind(), placement::occ(n.b), from, to) {
                assert(placement::attacks_through(n.b, placement::occ(n.b), from, to));
            }
        }
        if m.kind() == MoveType::Promotion {
            tally::lemma_count_bounds(n.b, Piece::of(n.stm, PieceType::Pawn), 64);
            assert(n.b[from] == Piece::of(n.stm, PieceType::Pawn));
            assert(tally::count_of(n.b, Piece::of(n.stm, m.promo())) + tally::count_of(
                n.b,
                Piece::of(n.stm, PieceType::Pawn),
            ) <= 56);
        }
    }
}

/// Where the kings stand after a move.
pub proof fn lemma_kings_after(n: Node, m: Move)
    requires
        n.regular(),
        n.well_moved(m),
    ensures
        ({
            let a = transition::board_after(n.b, n.stm, m);
            &&& placement::clean(a)
            &&& placement::kings(a)
            &&& placement::occupies(a, placement::occ(a))
            &&& placement::king(a, n.stm.opp()) == placement::king(n.b, n.stm.opp())
            &&& placement::is_king_square(a, n.stm.opp(), placement::king(n.b, n.stm.opp()))
            &&& placement::king(a, n.stm) == (if m.kind() == MoveType::Castling {
                position::castle_king_to(m.src(), m.dst() > m.src())
            } else if n.b[m.src()].kind() == PieceType::King {
                m.dst()
            } else {
                placement::king(n.b, n.stm)
            })
        }),
{
    lemma_can_make(n, m);
    transition::lemma_after(n.b, n.stm, m);
    let a = transition::board_after(n.b, n.stm, m);
    lemma_occupancy(a);
    placement::lemma_king(n.b, n.stm);
    placement::lemma_king(n.b, n.stm.opp());
    placement::lemma_king(a, n.stm);
    placement::lemma_king(a, n.stm.opp());
    let k = placement::king(n.b, n.stm);
    let e = placement::king(n.b, n.stm.opp());
    assert(a[e] == n.b[e]);
    if n.b[m.src()].kind() != PieceType::King {
        assert(a[k] == n.b[k]);
    }
}

/// What lies between the two squares of a move that is not castling is empty.
proof fn lemma_path_empty(n: Node, m: Move, x: int)
    requires
        n.regular(),
        n.well_moved(m),
        m.kind() != MoveType::Castling,
        attacks::between(m.src(), x, m.dst()),
    ensures
        n.b[x] == Piece::NONE,
{
    let pt = n.b[m.src()].kind();
    if pt == PieceType::Bishop || pt == PieceType::Rook || pt == PieceType::Queen {
        assert(attacks::clear(placement::occ(n.b), m.src(), m.dst()));
    }
}

/// A square on the line of `k` and `s` that is neither between them nor one of them lies
/// beyond `k` or beyond `s`, seen from a square between the two.
proof fn lemma_beyond(k: int, f: int, s: int, t: int)
    requires
        attacks::between(k, f, s),
        attacks::on_line(f, t, k),
        t != k,
        t != s,
        !attacks::between(k, t, s),
    ensures
        attacks::between(f, k, t) || attacks::between(f, s, t),
{
}

/// A line that a move opens was held by the piece that moved, and by nothing else.
proof fn lemma_opened(b: Seq<Piece>, a: Seq<Piece>, from: int, to: int, s: int, t: int)
    requires
        placement::occupies(b, placement::occ(b)),
        placement::occupies(a, placement::occ(a)),
        forall|i: int| 0 <= i < 64 && i != from && i != to ==> #[trigger] a[i] == b[i],
        a[to] != Piece::NONE,
        attacks::clear(placement::occ(a), s, t),
        !attacks::clear(placement::occ(b), s, t),
    ensures
        attacks::between(s, from, t),
        !attacks::between(s, to, t),
        forall|v: int| #[trigger] attacks::between(s, v, t) && v != from ==> b[v] == Piece::NONE,
{
    let u = choose|u: int|
        #[trigger] attacks::between(s, u, t) && bits::bit(placement::occ(b), u);
    assert(b[u] != Piece::NONE);
    assert(!bits::bit(placement::occ(a), u));
    assert(a[u] == Piece::NONE);
    if attacks::between(s, to, t) {
        assert(bits::bit(placement::occ(a), to));
    }
    assert forall|v: int| #[trigger] attacks::between(s, v, t) && v != from implies b[v]
        == Piece::NONE by {
        assert(!bits::bit(placement::occ(a), v));
    }
}

/// A king that steps stays out of attack.
proof fn lemma_safe_step(n: Node, m: Move)
    requires
        n.regular(),
        n.well_moved(m),
        !n.rejects(m),
        m.kind() == MoveType::Normal,
        n.b[m.src()].kind() == PieceType::King,
    ensures
        ({
            let a = transition::board_after(n.b, n.stm, m);
            !placement::attacked(a, placement::occ(a), n.stm.opp(), m.dst())
        }),
{
    broadcast use bits::group_bits;

    let a = transition::board_after(n.b, n.stm, m);
    let them = n.stm.opp();
    let from = m.src();
    let to = m.dst();
    let w = legality::toggled(placement::occ(n.b), from);
    placement::lemma_king(n.b, n.stm);
    lemma_kings_after(n, m);
    assert(from == placement::king(n.b, n.stm));
    assert(!placement::attacked(n.b, w, them, to));
    if placement::attacked(a, placement::occ(a), them, to) {
        let s = choose|s: int|
            #[trigger] placement::attacks_through(a, placement::occ(a), s, to) && a[s].side()
                == them;
        assert(s != to && s != from && a[s] == n.b[s]);
        assert forall|i: int| i != s && i != to implies #[trigger] bits::bit(placement::occ(a), i)
            == bits::bit(w, i) by {
            if 0 <= i < 64 {
                assert(bits::bit(placement::occ(n.b), i) == (n.b[i] != Piece::NONE));
                assert(bits::bit(placement::occ(a), i) == (a[i] != Piece::NONE));
            }
        }
        attacks::law_slider_attacks_ignore_the_ends(placement::occ(a), w, s, to);
        assert(placement::attacks_through(n.b, w, s, to));
        assert(false);
    }
}

/// A piece other than the king that moves without a special rule leaves its king safe.
#[verifier::rlimit(40)]
proof fn lemma_safe_piece(n: Node, m: Move)
    requires
        n.regular(),
        n.well_moved(m),
        n.answers(m),
        !n.rejects(m),
        m.kind() == MoveType::Normal || m.kind() == MoveType::Promotion,
        n.b[m.src()].kind() != PieceType::King,
    ensures
        ({
            let a = transition::board_after(n.b, n.stm, m);
            !placement::attacked(
                a,
                placement::occ(a),
                n.stm.opp(),
                placement::king(n.b, n.stm),
            )
        }),
{
    let a = transition::board_after(n.b, n.stm, m);
    let them = n.stm.opp();
    let from = m.src();
    let to = m.dst();
    let k = placement::king(n.b, n.stm);
    placement::lemma_king(n.b, n.stm);
    lemma_kings_after(n, m);
    lemma_can_make(n, m);
    let w = placement::occ(n.b);
    if placement::attacked(a, placement::occ(a), them, k) {
        let s = choose|s: int|
            #[trigger] placement::attacks_through(a, placement::occ(a), s, k) && a[s].side()
                == them;
        assert(s != to && s != from && a[s] == n.b[s]);
        let pt = n.b[s].kind();
        if placement::attacks_through(n.b, w, s, k) {
            lemma_checker_answered(n, m, s);
            if pt == PieceType::Bishop || pt == PieceType::Rook || pt == PieceType::Queen {
                assert(attacks::between(s, to, k));
                assert(bits::bit(placement::occ(a), to));
            } else {
                soundness::lemma_no_between(them, pt, w, s, k, to);
            }
        } else {
            assert(attacks::clear(placement::occ(a), s, k));
            assert(!attacks::clear(w, s, k));
            lemma_opened(n.b, a, from, to, s, k);
            assert(attacks::between(k, from, s));
            assert(placement::sole_screen(n.b, them, k, s, from)) by {
                assert forall|v: int| #[trigger] placement::screens(n.b, them, k, s, v) implies v
                    == from by {
                    assert(attacks::between(s, v, k));
                }
            }
            assert(placement::blocker(n.b, them, k, from));
            assert(attacks::on_line(from, to, k));
            if attacks::between(k, to, s) {
                assert(attacks::between(s, to, k));
            }
            lemma_beyond(k, from, s, to);
            if attacks::between(from, k, to) {
                lemma_path_empty(n, m, k);
            } else {
                lemma_path_empty(n, m, s);
            }
        }
        assert(false);
    }
}

/// A move that answers a check by a piece that stays where it is blocks it.
proof fn lemma_checker_answered(n: Node, m: Move, s: int)
    requires
        n.regular(),
        n.answers(m),
        n.b[m.src()].kind() != PieceType::King,
        m.kind() != MoveType::EnPassant,
        s != m.dst(),
        state::checks(n.b, n.stm.opp(), placement::king(n.b, n.stm), s),
    ensures
        attacks::between(placement::king(n.b, n.stm), m.dst(), s),
{
    bits::lemma_members(n.checkers.0);
    assert(n.checkers.has(s));
    bits::lemma_member_nonzero(n.checkers.0, s);
    let i = choose|i: int| 0 <= i < n.checkers.members().len() && n.checkers.members()[i] == s;
}

/// The occupancy that the legality of an en-passant capture is judged by is the one after it.
pub proof fn lemma_ep_occupancy(n: Node, m: Move)
    requires
        n.regular(),
        n.well_moved(m),
        m.kind() == MoveType::EnPassant,
    ensures
        ({
            let a = transition::board_after(n.b, n.stm, m);
            let cap = transition::capture_square(n.stm, m);
            let o = legality::ep_occupancy(placement::occ(n.b), m.src(), cap, m.dst());
            &&& cap == 8 * (m.src() / 8) + m.dst() % 8
            &&& forall|i: int| #[trigger] bits::bit(placement::occ(a), i) == bits::bit(o, i)
        }),
{
    broadcast use bits::group_bits;

    lemma_kings_after(n, m);
    lemma_can_make(n, m);
    let a = transition::board_after(n.b, n.stm, m);
    let cap = transition::capture_square(n.stm, m);
    let o = legality::ep_occupancy(placement::occ(n.b), m.src(), cap, m.dst());
    assert forall|i: int| #[trigger] bits::bit(placement::occ(a), i) == bits::bit(o, i) by {
        if 0 <= i < 64 {
            assert(bits::bit(placement::occ(n.b), i) == (n.b[i] != Piece::NONE));
            assert(bits::bit(placement::occ(a), i) == (a[i] != Piece::NONE));
        }
    }
}

/// Sliders see no more through one word than through another with the same members.
pub proof fn lemma_same_view(v: u64, w: u64, s: int, t: int)
    requires
        forall|i: int| #[trigger] bits::bit(v, i) == bits::bit(w, i),
    ensures
        attacks::rook_hits(v, s, t) == attacks::rook_hits(w, s, t),
        attacks::bishop_hits(v, s, t) == attacks::bishop_hits(w, s, t),
{
    attacks::law_slider_attacks_ignore_the_ends(v, w, s, t);
}

/// A piece is its colour and its kind.
proof fn lemma_piece_of(p: Piece)
    requires
        p.is_real(),
    ensures
        p == Piece::of(p.side(), p.kind()),
{
}

/// A legal en-passant capture leaves its king safe.
proof fn lemma_safe_en_passant(n: Node, m: Move)
    requires
        n.regular(),
        n.well_moved(m),
        !n.rejects(m),
        m.kind() == MoveType::EnPassant,
    ensures
        ({
            let a = transition::board_after(n.b, n.stm, m);
            !placement::attacked(
                a,
                placement::occ(a),
                n.stm.opp(),
                placement::king(n.b, n.stm),
            )
        }),
{
    let a = transition::board_after(n.b, n.stm, m);
    let them = n.stm.opp();
    let k = placement::king(n.b, n.stm);
    let cap = transition::capture_square(n.stm, m);
    let o = legality::ep_occupancy(placement::occ(n.b), m.src(), cap, m.dst());
    placement::lemma_king(n.b, n.stm);
    lemma_kings_after(n, m);
    lemma_can_make(n, m);
    lemma_ep_occupancy(n, m);
    if placement::attacked(a, placement::occ(a), them, k) {
        let s = choose|s: int|
            #[trigger] placement::attacks_through(a, placement::occ(a), s, k) && a[s].side()
                == them;
        assert(s != m.src() && s != m.dst() && s != cap && a[s] == n.b[s]);
        lemma_same_view(placement::occ(a), o, s, k);
        assert(placement::attacks_through(n.b, o, s, k));
        assert(false);
    }
}

/// The wing, the king's and the rook's destination of a castling move, and what they are on.
pub proof fn lemma_castling(n: Node, m: Move) -> (ks: bool)
    requires
        n.regular(),
        n.well_moved(m),
        m.kind() == MoveType::Castling,
    ensures
        n.castles_with(ks, m.dst()),
        ks == (m.dst() > m.src()),
        m.src() == placement::king(n.b, n.stm),
        n.b[m.src()] == Piece::of(n.stm, PieceType::King),
        n.b[m.dst()] == Piece::of(n.stm, PieceType::Rook),
        Square::rel_rank(m.src(), n.stm) == 0,
        m.src() / 8 == m.dst() / 8,
        !n.chess960 ==> m.dst() % 8 == (if ks {
            7int
        } else {
            0int
        }),
        forall|t: int|
            0 <= t < 64 && #[trigger] position::castle_path(m.src(), m.dst(), ks, t) ==> n.b[t]
                == Piece::NONE,
{
    placement::lemma_king(n.b, n.stm);
    let ks = choose|ks: bool| #[trigger] n.castles_with(ks, m.dst());
    let cr = CastlingRights::wing(n.stm, ks);
    assert(n.castling.right_wf(n.b, n.stm, ks));
    assert(soundness::rook_at_home(n, n.stm, ks));
    assert forall|t: int|
        0 <= t < 64 && #[trigger] position::castle_path(m.src(), m.dst(), ks, t) implies n.b[t]
        == Piece::NONE by {
        assert(n.castling.path@[cr.nibble()].has(t));
    }
    ks
}

/// A legal castling move leaves its king safe.
#[verifier::rlimit(60)]
proof fn lemma_safe_castling(n: Node, m: Move)
    requires
        n.regular(),
        n.well_moved(m),
        !n.rejects(m),
        m.kind() == MoveType::Castling,
    ensures
        ({
            let a = transition::board_after(n.b, n.stm, m);
            !placement::attacked(
                a,
                placement::occ(a),
                n.stm.opp(),
                position::castle_king_to(m.src(), m.dst() > m.src()),
            )
        }),
{
    let a = transition::board_after(n.b, n.stm, m);
    let them = n.stm.opp();
    let from = m.src();
    let to = m.dst();
    let ks = lemma_castling(n, m);
    let kt = position::castle_king_to(from, ks);
    let rt = position::castle_rook_to(from, ks);
    let w = placement::occ(n.b);
    lemma_kings_after(n, m);
    lemma_can_make(n, m);
    assert(legality::king_travels(from, kt, kt));
    assert(!placement::attacked(n.b, w, them, kt));
    if placement::attacked(a, placement::occ(a), them, kt) {
        let s = choose|s: int|
            #[trigger] placement::attacks_through(a, placement::occ(a), s, kt) && a[s].side()
                == them;
        assert(s != from && s != to && s != kt && s != rt && a[s] == n.b[s]);
        lemma_piece_of(n.b[s]);
        if !placement::attacks_through(n.b, w, s, kt) {
            assert(attacks::clear(placement::occ(a), s, kt));
            assert(!attacks::clear(w, s, kt));
            let u = choose|u: int| #[trigger] attacks::between(s, u, kt) && bits::bit(w, u);
            assert(n.b[u] != Piece::NONE);
            assert(!bits::bit(placement::occ(a), u));
            assert(a[u] == Piece::NONE);
            assert(u == from || u == to);
            assert(s / 8 == kt / 8);
            assert(!attacks::between(s, rt, kt)) by {
                if attacks::between(s, rt, kt) {
                    assert(bits::bit(placement::occ(a), rt));
                }
            }
            // The only room for the attacker is the far corner, behind the square next to it.
            assert(!ks && s % 8 == 0 && u % 8 == 1);
            if n.chess960 {
                lemma_corner_attack(n, m, s, u);
            }
        }
        assert(false);
    }
}

/// The attacker in the corner is seen once the castling rook is taken off.
proof fn lemma_corner_attack(n: Node, m: Move, s: int, u: int)
    requires
        n.regular(),
        n.well_moved(m),
        m.kind() == MoveType::Castling,
        0 <= s < 64,
        m.dst() < m.src(),
        s / 8 == m.src() / 8,
        s % 8 == 0,
        s != m.dst(),
        u == s + 1,
        u == m.src() || u == m.dst(),
        n.b[s].is_real(),
        n.b[s].side() == n.stm.opp(),
        n.b[s].kind() == PieceType::Rook || n.b[s].kind() == PieceType::Queen,
    ensures
        ({
            let kt = position::castle_king_to(m.src(), false);
            legality::rook_raked(
                n.b,
                legality::joined(legality::toggled(placement::occ(n.b), m.dst()), kt),
                n.stm.opp(),
                kt,
            )
        }),
{
    broadcast use bits::group_bits;

    let ks = lemma_castling(n, m);
    let kt = position::castle_king_to(m.src(), false);
    let o = legality::joined(legality::toggled(placement::occ(n.b), m.dst()), kt);
    assert(u == m.dst());
    assert(bits::bit(placement::occ(n.b), m.dst()));
    assert(attacks::clear(o, s, kt)) by {
        assert forall|v: int| #[trigger] attacks::between(s, v, kt) implies !bits::bit(o, v) by {
            assert(v == u);
        }
    }
    lemma_piece_of(n.b[s]);
    assert(legality::rook_rakes(n.b, o, n.stm.opp(), s, kt));
}

/// A legal move of a regular node leaves its own king unattacked.
pub proof fn law_legal_moves_keep_the_king_safe(n: Node, m: Move)
    requires
        n.regular(),
        n.well_moved(m),
        n.answers(m),
        !n.rejects(m),
    ensures
        ({
            let a = transition::board_after(n.b, n.stm, m);
            !placement::attacked(a, placement::occ(a), n.stm.opp(), placement::king(a, n.stm))
        }),
{
    lemma_kings_after(n, m);
    match m.kind() {
        MoveType::Castling => {
            lemma_safe_castling(n, m);
        },
        MoveType::EnPassant => {
            lemma_safe_en_passant(n, m);
        },
        _ => {
            if n.b[m.src()].kind() == PieceType::King {
                lemma_safe_step(n, m);
            } else {
                lemma_safe_piece(n, m);
            }
        },
    }
}

// ---------------------------------------------------------------------------
// Moves that give check
// ---------------------------------------------------------------------------

/// Nothing of the moving side attacks the enemy king before the move.
proof fn lemma_not_attacked(n: Node, s: int)
    requires
        n.regular(),
        0 <= s < 64,
        n.b[s].is_real(),
        n.b[s].side() == n.stm,
    ensures
        !attacks::hits(
            n.stm,
            n.b[s].kind(),
            placement::occ(n.b),
            s,
            placement::king(n.b, n.stm.opp()),
        ),
{
    let k = placement::king(n.b, n.stm.opp());
    if attacks::hits(n.stm, n.b[s].kind(), placement::occ(n.b), s, k) {
        assert(placement::attacks_through(n.b, placement::occ(n.b), s, k));
    }
}

/// A slider whose line to the enemy king a move opens is one that the moved piece screened.
#[verifier::rlimit(40)]
proof fn lemma_discovered(n: Node, m: Move, s: int)
    requires
        n.regular(),
        n.well_moved(m),
        m.kind() == MoveType::Normal || m.kind() == MoveType::Promotion,
        0 <= s < 64,
        s != m.src(),
        s != m.dst(),
        n.b[s].is_real(),
        n.b[s].side() == n.stm,
        ({
            let a = transition::board_after(n.b, n.stm, m);
            let k = placement::king(n.b, n.stm.opp());
            attacks::hits(n.stm, n.b[s].kind(), placement::occ(a), s, k)
        }),
    ensures
        ({
            let k = placement::king(n.b, n.stm.opp());
            placement::blocker(n.b, n.stm, k, m.src()) && !attacks::on_line(m.src(), m.dst(), k)
        }),
{
    let a = transition::board_after(n.b, n.stm, m);
    let k = placement::king(n.b, n.stm.opp());
    let from = m.src();
    let to = m.dst();
    let w = placement::occ(n.b);
    placement::lemma_king(n.b, n.stm.opp());
    lemma_kings_after(n, m);
    lemma_can_make(n, m);
    lemma_not_attacked(n, s);
    lemma_not_attacked(n, from);
    assert(attacks::clear(placement::occ(a), s, k));
    assert(!attacks::clear(w, s, k));
    lemma_opened(n.b, a, from, to, s, k);
    assert(attacks::between(k, from, s));
    assert(attacks::clear(w, from, k)) by {
        assert forall|v: int| #[trigger] attacks::between(from, v, k) implies !bits::bit(w, v) by {
            assert(attacks::between(s, v, k));
        }
    }
    assert(!placement::sniper(n.b, n.stm, k, from));
    assert(placement::sole_screen(n.b, n.stm, k, s, from)) by {
        assert forall|v: int| #[trigger] placement::screens(n.b, n.stm, k, s, v) implies v
            == from by {
            assert(attacks::between(s, v, k));
        }
    }
    if attacks::on_line(from, to, k) {
        if attacks::between(k, to, s) {
            assert(attacks::between(s, to, k));
        }
        lemma_beyond(k, from, s, to);
        if attacks::between(from, k, to) {
            lemma_path_empty(n, m, k);
        } else {
            lemma_path_empty(n, m, s);
        }
        assert(false);
    }
}

/// A piece that checks from where it arrives does so by what it attacks from there.
#[verifier::rlimit(40)]
proof fn lemma_direct(n: Node, m: Move)
    requires
        n.regular(),
        n.well_moved(m),
        m.kind() != MoveType::Castling,
        n.b[m.src()].kind() != PieceType::King,
        ({
            let a = transition::board_after(n.b, n.stm, m);
            let k = placement::king(n.b, n.stm.opp());
            attacks::hits(n.stm, a[m.dst()].kind(), placement::occ(a), m.dst(), k)
        }),
    ensures
        legality::checks_king(n.b, n.stm, m),
{
    broadcast use bits::group_bits;

    let a = transition::board_after(n.b, n.stm, m);
    let k = placement::king(n.b, n.stm.opp());
    let from = m.src();
    let to = m.dst();
    let w = placement::occ(n.b);
    placement::lemma_king(n.b, n.stm.opp());
    lemma_kings_after(n, m);
    lemma_can_make(n, m);
    lemma_not_attacked(n, from);
    if m.kind() == MoveType::Promotion {
        let o = legality::toggled(w, from);
        assert forall|i: int| i != to && i != k implies #[trigger] bits::bit(placement::occ(a), i)
            == bits::bit(o, i) by {
            if 0 <= i < 64 {
                assert(bits::bit(w, i) == (n.b[i] != Piece::NONE));
                assert(bits::bit(placement::occ(a), i) == (a[i] != Piece::NONE));
            }
        }
        attacks::law_slider_attacks_ignore_the_ends(placement::occ(a), o, to, k);
    } else if m.kind() == MoveType::Normal {
        let pt = n.b[from].kind();
        if !attacks::hits(n.stm, pt, w, to, k) {
            assert(attacks::clear(placement::occ(a), to, k));
            assert(!attacks::clear(w, to, k));
            let u = choose|u: int| #[trigger] attacks::between(to, u, k) && bits::bit(w, u);
            assert(n.b[u] != Piece::NONE);
            assert(!bits::bit(placement::occ(a), u));
            assert(u == from);
            assert(attacks::clear(w, from, k)) by {
                assert forall|v: int| #[trigger] attacks::between(from, v, k) implies !bits::bit(
                    w,
                    v,
                ) by {
                    assert(attacks::between(to, v, k));
                    assert(!bits::bit(placement::occ(a), v));
                }
            }
            assert(false);
        }
    }
}

/// A castling move opens no line to the enemy king.
#[verifier::rlimit(60)]
proof fn lemma_castling_opens_nothing(n: Node, m: Move, s: int)
    requires
        n.regular(),
        n.well_moved(m),
        m.kind() == MoveType::Castling,
        0 <= s < 64,
        ({
            let kt = position::castle_king_to(m.src(), m.dst() > m.src());
            let rt = position::castle_rook_to(m.src(), m.dst() > m.src());
            s != m.src() && s != m.dst() && s != kt && s != rt
        }),
        n.b[s].is_real(),
        n.b[s].side() == n.stm,
    ensures
        ({
            let a = transition::board_after(n.b, n.stm, m);
            let k = placement::king(n.b, n.stm.opp());
            !attacks::hits(n.stm, n.b[s].kind(), placement::occ(a), s, k)
        }),
{
    let a = transition::board_after(n.b, n.stm, m);
    let k = placement::king(n.b, n.stm.opp());
    let from = m.src();
    let to = m.dst();
    let w = placement::occ(n.b);
    let ks = lemma_castling(n, m);
    let kt = position::castle_king_to(from, ks);
    let rt = position::castle_rook_to(from, ks);
    placement::lemma_king(n.b, n.stm.opp());
    lemma_kings_after(n, m);
    lemma_can_make(n, m);
    lemma_not_attacked(n, s);
    if attacks::hits(n.stm, n.b[s].kind(), placement::occ(a), s, k) {
        assert(attacks::clear(placement::occ(a), s, k));
        assert(!attacks::clear(w, s, k));
        let u = choose|u: int| #[trigger] attacks::between(s, u, k) && bits::bit(w, u);
        assert(n.b[u] != Piece::NONE);
        assert(!bits::bit(placement::occ(a), u));
        assert(u == from || u == to);
        // The king and rook stand on a first rank, where only the rank passes through.
        assert(from / 8 == 0 || from / 8 == 7);
        assert(s / 8 == from / 8 && k / 8 == from / 8);
        assert(!attacks::between(s, kt, k)) by {
            if attacks::between(s, kt, k) {
                assert(bits::bit(placement::occ(a), kt));
            }
        }
        assert(!attacks::between(s, rt, k)) by {
            if attacks::between(s, rt, k) {
                assert(bits::bit(placement::occ(a), rt));
            }
        }
        let near = if ks == (s < k) {
            k
        } else {
            s
        };
        assert(position::castle_path(from, to, ks, near));
        assert(false);
    }
}

/// A legal move of a regular node that leaves the enemy king attacked is known to give check
/// before it is made.
pub proof fn law_checking_moves_are_known(n: Node, m: Move)
    requires
        n.regular(),
        n.well_moved(m),
        n.answers(m),
        !n.rejects(m),
        ({
            let a = transition::board_after(n.b, n.stm, m);
            placement::attacked(a, placement::occ(a), n.stm, placement::king(a, n.stm.opp()))
        }),
    ensures
        legality::checks_king(n.b, n.stm, m),
{
    let a = transition::board_after(n.b, n.stm, m);
    let them = n.stm.opp();
    let k = placement::king(n.b, them);
    let from = m.src();
    let to = m.dst();
    lemma_kings_after(n, m);
    lemma_can_make(n, m);
    placement::lemma_king(n.b, n.stm);
    placement::lemma_king(n.b, them);
    placement::lemma_king(a, n.stm);
    law_legal_moves_keep_the_king_safe(n, m);
    let s = choose|s: int|
        #[trigger] placement::attacks_through(a, placement::occ(a), s, k) && a[s].side() == n.stm;
    // A king next to the enemy king would itself stand in check.
    assert(a[s].kind() != PieceType::King) by {
        if a[s].kind() == PieceType::King {
            lemma_piece_of(a[s]);
            assert(s == placement::king(a, n.stm));
            assert(bitboard::king_hits(k, s));
            assert(placement::attacks_through(a, placement::occ(a), k, s));
        }
    }
    match m.kind() {
        MoveType::Castling => {
            lemma_castling_check(n, m, s);
        },
        MoveType::EnPassant => {
            if s == to {
                lemma_direct(n, m);
            } else {
                lemma_ep_check(n, m, s);
            }
        },
        _ => {
            if s == to {
                lemma_direct(n, m);
            } else {
                assert(s != from && a[s] == n.b[s]);
                lemma_discovered(n, m, s);
            }
        },
    }
}

proof fn lemma_ep_check(n: Node, m: Move, s: int)
    requires
        n.regular(),
        n.well_moved(m),
        m.kind() == MoveType::EnPassant,
        s != m.dst(),
        ({
            let a = transition::board_after(n.b, n.stm, m);
            let k = placement::king(n.b, n.stm.opp());
            placement::attacks_through(a, placement::occ(a), s, k) && a[s].side() == n.stm
        }),
    ensures
        legality::checks_king(n.b, n.stm, m),
{
    let a = transition::board_after(n.b, n.stm, m);
    let k = placement::king(n.b, n.stm.opp());
    let o = legality::ep_occupancy(
        placement::occ(n.b),
        m.src(),
        transition::capture_square(n.stm, m),
        m.dst(),
    );
    lemma_kings_after(n, m);
    lemma_can_make(n, m);
    lemma_ep_occupancy(n, m);
    assert(a[s] == n.b[s]);
    lemma_piece_of(n.b[s]);
    lemma_not_attacked(n, s);
    lemma_same_view(placement::occ(a), o, s, k);
    let pt = n.b[s].kind();
    if attacks::rook_hits(o, s, k) && (pt == PieceType::Rook || pt == PieceType::Queen) {
        assert(legality::rook_rakes(n.b, o, n.stm, s, k));
    } else {
        assert(legality::bishop_rakes(n.b, o, n.stm, s, k));
    }
}

proof fn lemma_castling_check(n: Node, m: Move, s: int)
    requires
        n.regular(),
        n.well_moved(m),
        m.kind() == MoveType::Castling,
        ({
            let a = transition::board_after(n.b, n.stm, m);
            let k = placement::king(n.b, n.stm.opp());
            &&& placement::attacks_through(a, placement::occ(a), s, k)
            &&& a[s].side() == n.stm
            &&& a[s].kind() != PieceType::King
        }),
    ensures
        legality::checks_king(n.b, n.stm, m),
{
    broadcast use bits::group_bits;

    let a = transition::board_after(n.b, n.stm, m);
    let k = placement::king(n.b, n.stm.opp());
    let ks = lemma_castling(n, m);
    let kt = position::castle_king_to(m.src(), ks);
    let rt = position::castle_rook_to(m.src(), ks);
    let w = placement::occ(n.b);
    lemma_kings_after(n, m);
    lemma_can_make(n, m);
    if s == rt {
        let o = legality::joined(
            legality::joined(legality::toggled(legality::toggled(w, m.src()), m.dst()), rt),
            kt,
        );
        assert forall|i: int| #[trigger] bits::bit(placement::occ(a), i) == bits::bit(o, i) by {
            if 0 <= i < 64 {
                assert(bits::bit(w, i) == (n.b[i] != Piece::NONE));
                assert(bits::bit(placement::occ(a), i) == (a[i] != Piece::NONE));
            }
        }
        lemma_same_view(placement::occ(a), o, rt, k);
    } else {
        assert(s != kt && s != m.src() && s != m.dst() && a[s] == n.b[s]);
        lemma_castling_opens_nothing(n, m, s);
        assert(false);
    }
}

} // verus!
