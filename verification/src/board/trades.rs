//! What an exchange is worth: the swap-off is a game in which each side may stop or take on.

use vstd::prelude::*;
use crate::board::attacks;
use crate::board::bitboard;
use crate::board::bitboard::Bitboard;
use crate::board::bits;
use crate::board::exchange;
use crate::board::legality;
use crate::board::placement;
use crate::board::safety;
use crate::board::types::{Color, Move, MoveType, Piece, PieceType};

verus! {

/// What a piece risks by taking: its worth, and the king more than any other.
pub open spec fn price(pt: PieceType) -> int {
    match pt {
        PieceType::Pawn => 208,
        PieceType::Knight => 781,
        PieceType::Bishop => 825,
        PieceType::Rook => 1276,
        PieceType::Queen => 2538,
        _ => 100_000,
    }
}

/// The piece on `i` is one of `s` that may take: it stands, it attacks, and it does not shield its
/// king from a pinner that still stands.
pub open spec fn may_take(
    b: Seq<Piece>,
    pinners: Seq<Bitboard>,
    blockers: Seq<Bitboard>,
    s: Color,
    occ: u64,
    attackers: u64,
    i: int,
) -> bool {
    &&& 0 <= i < 64
    &&& bits::bit(attackers, i)
    &&& bits::bit(occ, i)
    &&& b[i] != Piece::NONE
    &&& b[i].side() == s
    &&& (exists|q: int| #[trigger] bits::bit(pinners[s.opp().idx()].0, q) && bits::bit(occ, q))
        ==> !bits::bit(blockers[s.idx()].0, i)
}

/// The piece on `i` takes: of those that may, it risks least, and of equals it stands first.
pub open spec fn takes(
    b: Seq<Piece>,
    pinners: Seq<Bitboard>,
    blockers: Seq<Bitboard>,
    s: Color,
    occ: u64,
    attackers: u64,
    i: int,
) -> bool {
    &&& may_take(b, pinners, blockers, s, occ, attackers, i)
    &&& forall|j: int| #[trigger]
        may_take(b, pinners, blockers, s, occ, attackers, j) ==> price(b[i].kind()) <= price(
            b[j].kind(),
        ) && (price(b[i].kind()) == price(b[j].kind()) ==> i <= j)
}

/// Some piece of `c` is left to attack.
pub open spec fn covered(b: Seq<Piece>, c: Color, occ: u64, attackers: u64) -> bool {
    exists|j: int| #[trigger]
        bits::bit(attackers, j) && bits::bit(occ, j) && b[j] != Piece::NONE && b[j].side() == c
}

/// What `s` wins at best when a piece worth `stake` may be taken on `t`, and both sides may stop at
/// any time: nothing by stopping, and by taking the stake less what the other side wins of the
/// piece that took. A king takes only what is not covered. At most `fuel` captures are looked at.
pub open spec fn best(
    b: Seq<Piece>,
    pinners: Seq<Bitboard>,
    blockers: Seq<Bitboard>,
    t: int,
    fuel: nat,
    s: Color,
    occ: u64,
    attackers: u64,
    stake: int,
) -> int
    decreases fuel,
{
    if fuel == 0 || !(exists|i: int| #[trigger]
        takes(b, pinners, blockers, s, occ, attackers, i)) {
        0
    } else {
        let i = choose|i: int| #[trigger] takes(b, pinners, blockers, s, occ, attackers, i);
        if b[i].kind() == PieceType::King {
            if covered(b, s.opp(), occ, attackers) {
                0
            } else {
                stake
            }
        } else {
            let o = legality::toggled(occ, i);
            let taken = stake - best(
                b,
                pinners,
                blockers,
                t,
                (fuel - 1) as nat,
                s.opp(),
                o,
                (attackers & occ) | exchange::join_word(b, o, t, b[i].kind()),
                price(b[i].kind()),
            );
            if taken > 0 {
                taken
            } else {
                0
            }
        }
    }
}

/// A capture never wins more than what stands on the square, and none has to be made.
pub proof fn law_an_exchange_wins_at_most_the_stake(
    b: Seq<Piece>,
    pinners: Seq<Bitboard>,
    blockers: Seq<Bitboard>,
    t: int,
    fuel: nat,
    s: Color,
    occ: u64,
    attackers: u64,
    stake: int,
)
    requires
        0 <= stake,
    ensures
        0 <= best(b, pinners, blockers, t, fuel, s, occ, attackers, stake) <= stake,
    decreases fuel,
{
    if fuel > 0 && exists|i: int| #[trigger] takes(b, pinners, blockers, s, occ, attackers, i) {
        let i = choose|i: int| #[trigger] takes(b, pinners, blockers, s, occ, attackers, i);
        if b[i].kind() != PieceType::King {
            let o = legality::toggled(occ, i);
            law_an_exchange_wins_at_most_the_stake(
                b,
                pinners,
                blockers,
                t,
                (fuel - 1) as nat,
                s.opp(),
                o,
                (attackers & occ) | exchange::join_word(b, o, t, b[i].kind()),
                price(b[i].kind()),
            );
        }
    }
}

proof fn lemma_sides(b: Seq<Piece>, c: Color)
    ensures
        exchange::is_side_word(b, c, exchange::side_word(b, c)),
{
    let p = |i: int| b[i] != Piece::NONE && b[i].side() == c;
    let w = safety::lemma_word_of(p, 64);
    assert(exchange::is_side_word(b, c, w));
    exchange::lemma_side_word(b, c, w);
}

/// The word of those that may take.
spec fn takers(
    b: Seq<Piece>,
    pinners: Seq<Bitboard>,
    blockers: Seq<Bitboard>,
    s: Color,
    occ: u64,
    attackers: u64,
) -> u64 {
    exchange::free(
        attackers & occ & exchange::side_word(b, s),
        occ,
        pinners[s.opp().idx()].0,
        blockers[s.idx()].0,
    )
}

#[verifier::spinoff_prover]
proof fn lemma_takers(
    b: Seq<Piece>,
    pinners: Seq<Bitboard>,
    blockers: Seq<Bitboard>,
    s: Color,
    occ: u64,
    attackers: u64,
)
    ensures
        forall|i: int| #[trigger]
            bits::bit(takers(b, pinners, blockers, s, occ, attackers), i) == may_take(
                b,
                pinners,
                blockers,
                s,
                occ,
                attackers,
                i,
            ),
        (takers(b, pinners, blockers, s, occ, attackers) == 0) == !(exists|i: int| #[trigger]
            may_take(b, pinners, blockers, s, occ, attackers, i)),
        (attackers & occ & exchange::side_word(b, s) == 0) == !covered(b, s, occ, attackers),
{
    broadcast use bits::group_bits;

    lemma_sides(b, s);
    let side = exchange::side_word(b, s);
    let own = attackers & occ & side;
    let pins = pinners[s.opp().idx()].0;
    let w = takers(b, pinners, blockers, s, occ, attackers);
    bits::lemma_nonzero(pins & occ);
    assert((pins & occ != 0) == exists|q: int| #[trigger]
        bits::bit(pins, q) && bits::bit(occ, q)) by {
        if pins & occ != 0 {
            let q = choose|q: int| bits::bit(pins & occ, q);
            assert(bits::bit(pins, q) && bits::bit(occ, q));
        }
        if exists|q: int| #[trigger] bits::bit(pins, q) && bits::bit(occ, q) {
            let q = choose|q: int| #[trigger] bits::bit(pins, q) && bits::bit(occ, q);
            assert(bits::bit(pins & occ, q));
            bits::lemma_member_nonzero(pins & occ, q);
        }
    }
    assert forall|i: int| #[trigger]
        bits::bit(w, i) == may_take(b, pinners, blockers, s, occ, attackers, i) by {
        if 0 <= i < 64 {
            assert(bits::bit(side, i) == (b[i] != Piece::NONE && b[i].side() == s));
            assert(bits::bit(own, i) == (bits::bit(attackers & occ, i) && bits::bit(side, i)));
        }
    }
    bits::lemma_nonzero(w);
    if w != 0 {
        let i = choose|i: int| bits::bit(w, i);
        assert(may_take(b, pinners, blockers, s, occ, attackers, i));
    }
    if exists|i: int| #[trigger] may_take(b, pinners, blockers, s, occ, attackers, i) {
        let i = choose|i: int| #[trigger] may_take(b, pinners, blockers, s, occ, attackers, i);
        assert(bits::bit(w, i));
        bits::lemma_member_nonzero(w, i);
    }
    bits::lemma_nonzero(own);
    if own != 0 {
        let i = choose|i: int| bits::bit(own, i);
        assert(bits::bit(attackers & occ, i) && bits::bit(side, i));
        assert(bits::bit(attackers, i));
    }
    if covered(b, s, occ, attackers) {
        let j = choose|j: int| #[trigger]
            bits::bit(attackers, j) && bits::bit(occ, j) && b[j] != Piece::NONE && b[j].side() == s;
        bits::lemma_bit_range(attackers, j);
        assert(bits::bit(side, j));
        assert(bits::bit(own, j));
        bits::lemma_member_nonzero(own, j);
    }
}

/// The piece that the swap-off takes with is worth no more than any other that may take, and a king
/// takes only where nothing else may.
#[verifier::spinoff_prover]
pub proof fn law_the_cheapest_takes(b: Seq<Piece>, w: u64)
    requires
        w != 0,
        forall|i: int| #[trigger] bits::bit(w, i) ==> b[i].is_real(),
    ensures
        ({
            let pt = exchange::cheapest(b, w);
            let f = exchange::first(b, w, pt);
            &&& bits::bit(w, f)
            &&& b[f].kind() == pt
            &&& forall|j: int| #[trigger]
                bits::bit(w, j) ==> price(pt) <= price(b[j].kind()) && (b[j].kind() == pt ==> f
                    <= j) && (b[j].kind() != PieceType::King ==> pt.worth() <= b[j].kind().worth())
        }),
{
    let pt = exchange::cheapest(b, w);
    bits::lemma_nonzero(w);
    let k = choose|i: int| bits::bit(w, i);
    assert(exchange::has_kind(b, w, b[k].kind()));
    assert forall|j: int| #[trigger] bits::bit(w, j) implies price(pt) <= price(b[j].kind()) && (
    b[j].kind() != PieceType::King ==> pt.worth() <= b[j].kind().worth()) by {
        assert(exchange::has_kind(b, w, b[j].kind()));
    }
    assert(exchange::has_kind(b, w, pt));
    let i = choose|i: int| #[trigger] bits::bit(w, i) && b[i].kind() == pt;
    bits::lemma_bit_range(w, i);
    let f = lemma_least(b, w, pt, i);
    exchange::lemma_first(b, w, pt, f);
}

proof fn lemma_least(b: Seq<Piece>, w: u64, pt: PieceType, i: int) -> (f: int)
    requires
        bits::bit(w, i),
        b[i].kind() == pt,
        0 <= i < 64,
    ensures
        exchange::is_first(b, w, pt, f),
    decreases i,
{
    if exists|j: int| #[trigger] bits::bit(w, j) && b[j].kind() == pt && j < i {
        let j = choose|j: int| #[trigger] bits::bit(w, j) && b[j].kind() == pt && j < i;
        bits::lemma_bit_range(w, j);
        lemma_least(b, w, pt, j)
    } else {
        i
    }
}

proof fn lemma_same_price(a: PieceType, b: PieceType)
    requires
        a != PieceType::NoType,
        b != PieceType::NoType,
        price(a) == price(b),
    ensures
        a == b,
{
}

/// The word's cheapest piece is the one that takes.
#[verifier::spinoff_prover]
proof fn lemma_next(
    b: Seq<Piece>,
    pinners: Seq<Bitboard>,
    blockers: Seq<Bitboard>,
    s: Color,
    occ: u64,
    attackers: u64,
)
    requires
        placement::clean(b),
    ensures
        ({
            let w = takers(b, pinners, blockers, s, occ, attackers);
            let pt = exchange::cheapest(b, w);
            let f = exchange::first(b, w, pt);
            &&& (w == 0) == !(exists|i: int| #[trigger]
                takes(b, pinners, blockers, s, occ, attackers, i))
            &&& w != 0 ==> takes(b, pinners, blockers, s, occ, attackers, f) && b[f].kind() == pt
                && (forall|i: int| #[trigger]
                takes(b, pinners, blockers, s, occ, attackers, i) ==> i == f)
        }),
{
    let w = takers(b, pinners, blockers, s, occ, attackers);
    lemma_takers(b, pinners, blockers, s, occ, attackers);
    assert forall|i: int| #[trigger] bits::bit(w, i) implies b[i].is_real() by {
        assert(may_take(b, pinners, blockers, s, occ, attackers, i));
    }
    if w != 0 {
        law_the_cheapest_takes(b, w);
        let pt = exchange::cheapest(b, w);
        let f = exchange::first(b, w, pt);
        assert(may_take(b, pinners, blockers, s, occ, attackers, f));
        assert forall|j: int| #[trigger]
            may_take(b, pinners, blockers, s, occ, attackers, j) implies price(b[f].kind())
            <= price(b[j].kind()) && (price(b[f].kind()) == price(b[j].kind()) ==> f <= j) by {
            assert(bits::bit(w, j));
            if price(b[f].kind()) == price(b[j].kind()) {
                lemma_same_price(b[f].kind(), b[j].kind());
            }
        }
        assert(takes(b, pinners, blockers, s, occ, attackers, f));
    }
}

/// The swap-off compares the game's value with what the last capture leaves: `stake` stands on the
/// square, and `swap` of it is more than the one who just took can afford to lose.
#[verifier::spinoff_prover]
#[verifier::rlimit(60)]
proof fn lemma_swap_off_is_the_game(
    b: Seq<Piece>,
    pinners: Seq<Bitboard>,
    blockers: Seq<Bitboard>,
    t: int,
    fuel: nat,
    stm: Color,
    occ: u64,
    attackers: u64,
    stake: int,
    swap: int,
    result: bool,
)
    requires
        placement::clean(b),
        0 <= swap <= stake,
        result ==> 1 <= swap,
        !result ==> swap < stake,
    ensures
        exchange::swap_off(b, pinners, blockers, t, fuel, stm, occ, attackers, swap, result) == ({
            let v = best(b, pinners, blockers, t, fuel, stm.opp(), occ, attackers, stake);
            if result {
                v <= stake - swap
            } else {
                v >= stake - swap
            }
        }),
    decreases fuel,
{
    let s = stm.opp();
    let a = attackers & occ;
    let own = takers(b, pinners, blockers, s, occ, attackers);
    assert(s.opp() == stm);
    lemma_next(b, pinners, blockers, s, occ, attackers);
    lemma_takers(b, pinners, blockers, s, occ, attackers);
    lemma_takers(b, pinners, blockers, stm, occ, attackers);
    if a & exchange::side_word(b, s) == 0 {
        assert(own == 0) by {
            if own != 0 {
                let i = choose|i: int| #[trigger]
                    may_take(b, pinners, blockers, s, occ, attackers, i);
                assert(bits::bit(attackers, i));
            }
        }
    }
    if fuel > 0 && own != 0 {
        let pt = exchange::cheapest(b, own);
        let f = exchange::first(b, own, pt);
        let i = choose|i: int| #[trigger] takes(b, pinners, blockers, s, occ, attackers, i);
        assert(i == f);
        if pt != PieceType::King {
            let o = legality::toggled(occ, f);
            let more = a | exchange::join_word(b, o, t, pt);
            assert(may_take(b, pinners, blockers, s, occ, attackers, f));
            assert(b[f].is_real());
            assert(price(pt) == pt.worth());
            law_an_exchange_wins_at_most_the_stake(
                b,
                pinners,
                blockers,
                t,
                (fuel - 1) as nat,
                stm,
                o,
                more,
                price(pt),
            );
            let next = pt.worth() - swap;
            if next >= (if !result {
                1int
            } else {
                0int
            }) {
                lemma_swap_off_is_the_game(
                    b,
                    pinners,
                    blockers,
                    t,
                    (fuel - 1) as nat,
                    s,
                    o,
                    more,
                    price(pt),
                    next,
                    !result,
                );
            }
        }
    }
}

/// An exchange wins a threshold exactly when it is worth that much: what stands on the square, less
/// what the other side wins at best of the piece that took it. The special kinds of move count as
/// even.
pub proof fn law_the_exchange_is_a_game(
    b: Seq<Piece>,
    stm: Color,
    pinners: Seq<Bitboard>,
    blockers: Seq<Bitboard>,
    m: Move,
    threshold: int,
)
    requires
        placement::clean(b),
    ensures
        m.kind() != MoveType::Normal ==> exchange::exchange_wins(
            b,
            stm,
            pinners,
            blockers,
            m,
            threshold,
        ) == (threshold <= 0),
        m.kind() == MoveType::Normal ==> exchange::exchange_wins(
            b,
            stm,
            pinners,
            blockers,
            m,
            threshold,
        ) == ({
            let occ = legality::toggled(legality::toggled(placement::occ(b), m.src()), m.dst());
            let reply = best(
                b,
                pinners,
                blockers,
                m.dst(),
                64,
                stm.opp(),
                occ,
                exchange::attack_word(b, occ, m.dst()),
                b[m.src()].kind().worth(),
            );
            b[m.dst()].kind().worth() - reply >= threshold
        }),
{
    if m.kind() == MoveType::Normal {
        let occ = legality::toggled(legality::toggled(placement::occ(b), m.src()), m.dst());
        let att = exchange::attack_word(b, occ, m.dst());
        let stake = b[m.src()].kind().worth();
        let gain = b[m.dst()].kind().worth() - threshold;
        law_an_exchange_wins_at_most_the_stake(
            b,
            pinners,
            blockers,
            m.dst(),
            64,
            stm.opp(),
            occ,
            att,
            stake,
        );
        if gain >= 0 && stake - gain > 0 {
            lemma_swap_off_is_the_game(
                b,
                pinners,
                blockers,
                m.dst(),
                64,
                stm,
                occ,
                att,
                stake,
                stake - gain,
                true,
            );
        }
    }
}

/// Lines are the same both ways.
proof fn lemma_both_ways(w: u64, x: int, y: int)
    ensures
        attacks::clear(w, x, y) == attacks::clear(w, y, x),
        attacks::rook_hits(w, x, y) == attacks::rook_hits(w, y, x),
        attacks::bishop_hits(w, x, y) == attacks::bishop_hits(w, y, x),
{
    assert forall|u: int| #[trigger] attacks::between(x, u, y) == attacks::between(y, u, x) by {}
    if attacks::clear(w, x, y) {
        assert forall|u: int| #[trigger] attacks::between(y, u, x) implies !bits::bit(w, u) by {
            assert(attacks::between(x, u, y));
        }
    }
    if attacks::clear(w, y, x) {
        assert forall|u: int| #[trigger] attacks::between(x, u, y) implies !bits::bit(w, u) by {
            assert(attacks::between(y, u, x));
        }
    }
}

/// Lifting the piece on `i` leaves open what was open, and opens only lines through `i`.
proof fn lemma_lifted(w: u64, o: u64, i: int, x: int, y: int)
    requires
        forall|u: int| #[trigger] bits::bit(o, u) == (bits::bit(w, u) && u != i),
    ensures
        attacks::clear(w, x, y) ==> attacks::clear(o, x, y),
        attacks::clear(o, x, y) && !attacks::clear(w, x, y) ==> attacks::between(x, i, y),
{
    if attacks::clear(w, x, y) {
        assert forall|u: int| #[trigger] attacks::between(x, u, y) implies !bits::bit(o, u) by {}
    }
    if attacks::clear(o, x, y) && !attacks::clear(w, x, y) {
        let u = choose|u: int| #[trigger] attacks::between(x, u, y) && bits::bit(w, u);
        assert(!bits::bit(o, u));
    }
}

#[verifier::spinoff_prover]
proof fn lemma_on_line(x: int, i: int, y: int)
    requires
        attacks::between(x, i, y),
    ensures
        attacks::rook_line(x, y) == attacks::rook_line(i, y),
        attacks::bishop_line(x, y) == attacks::bishop_line(i, y),
        attacks::rook_line(i, y) != attacks::bishop_line(i, y),
        !bitboard::knight_hits(i, y),
        forall|c: Color| #[trigger] bitboard::pawn_hits(c, i, y) ==> attacks::bishop_line(i, y),
{
}

/// After a capture by the piece on `i`, those that attack the square are the ones that attack it
/// with that piece gone: the sliders behind it have joined, and nothing else has. After a capture
/// by a queen, a rook on an open diagonal or a bishop on an open rank or file counts too.
#[verifier::spinoff_prover]
pub proof fn law_sliders_join_through_the_opened_line(
    b: Seq<Piece>,
    occ: u64,
    t: int,
    attackers: u64,
    i: int,
    j: int,
)
    requires
        0 <= t < 64,
        0 <= j < 64,
        bits::bit(occ, i),
        i != t,
        forall|k: int|
            bits::bit(occ, k) ==> #[trigger] bits::bit(attackers, k) == placement::attacks_through(
                b,
                occ,
                k,
                t,
            ),
        placement::attacks_through(b, occ, i, t),
        b[i].kind() != PieceType::King,
        bits::bit(legality::toggled(occ, i), j),
        b[j].is_real(),
    ensures
        ({
            let o = legality::toggled(occ, i);
            let next = (attackers & occ) | exchange::join_word(b, o, t, b[i].kind());
            &&& placement::attacks_through(b, o, j, t) ==> bits::bit(next, j)
            &&& bits::bit(next, j) && !placement::attacks_through(b, o, j, t) ==> b[i].kind()
                == PieceType::Queen && ((b[j].kind() == PieceType::Rook && attacks::bishop_hits(
                o,
                j,
                t,
            )) || (b[j].kind() == PieceType::Bishop && attacks::rook_hits(o, j, t)))
        }),
{
    broadcast use bits::group_bits;

    let o = legality::toggled(occ, i);
    let pt = b[i].kind();
    let w = safety::lemma_word_of(|k: int| exchange::joins(b, o, t, pt, k), 64);
    assert(exchange::is_join_word(b, o, t, pt, w));
    exchange::lemma_join_word(b, o, t, pt, w);
    assert forall|u: int| #[trigger] bits::bit(o, u) == (bits::bit(occ, u) && u != i) by {}
    assert(bits::bit(occ, j) && j != i);
    assert(bits::bit(attackers, j) == placement::attacks_through(b, occ, j, t));
    assert(bits::bit(w, j) == exchange::joins(b, o, t, pt, j));
    lemma_lifted(occ, o, i, j, t);
    lemma_both_ways(o, t, j);
    lemma_both_ways(occ, t, j);
    if attacks::between(j, i, t) {
        lemma_on_line(j, i, t);
    }
}

} // verus!
