//! Static exchange evaluation: what a capture sequence on one square wins.
//!
//! The swap-off rule: each side in turn takes with its cheapest attacker, and stops as soon
//! as taking no longer pays. It answers a question about material only.

use vstd::prelude::*;
use crate::board::attacks::{bishop_attacks, queen_attacks, rook_attacks};
use crate::board::attacks;
use crate::board::bitboard::Bitboard;
use crate::board::bits;
use crate::board::legality;
use crate::board::placement;
use crate::board::position::Position;
use crate::board::trades;
use crate::board::types::{piece_type_value, piece_value, Color, Move, MoveType, Piece, PieceType, Square, Value};

verus! {

/// The word is the set of squares that colour `c` occupies.
pub open spec fn is_side_word(b: Seq<Piece>, c: Color, w: u64) -> bool {
    forall|i: int|
        0 <= i < 64 ==> #[trigger] bits::bit(w, i) == (b[i] != Piece::NONE && b[i].side() == c)
}

/// The squares that colour `c` occupies.
pub open spec fn side_word(b: Seq<Piece>, c: Color) -> u64 {
    choose|w: u64| is_side_word(b, c, w)
}

/// The word is the set of pieces that attack `t` through occupancy `occ`.
pub open spec fn is_attack_word(b: Seq<Piece>, occ: u64, t: int, w: u64) -> bool {
    forall|i: int| 0 <= i < 64 ==> #[trigger] bits::bit(w, i) == placement::attacks_through(b, occ, i, t)
}

/// The pieces that attack `t` through occupancy `occ`.
pub open spec fn attack_word(b: Seq<Piece>, occ: u64, t: int) -> u64 {
    choose|w: u64| is_attack_word(b, occ, t, w)
}

/// The slider on `i` may join in through the line that a capture by a `pt` opens.
pub open spec fn joins(b: Seq<Piece>, occ: u64, t: int, pt: PieceType, i: int) -> bool {
    let k = b[i].kind();
    match pt {
        PieceType::Pawn | PieceType::Bishop => attacks::bishop_hits(occ, t, i) && (k
            == PieceType::Bishop || k == PieceType::Queen),
        PieceType::Rook => attacks::rook_hits(occ, t, i) && (k == PieceType::Rook || k
            == PieceType::Queen),
        PieceType::Queen => (attacks::rook_hits(occ, t, i) || attacks::bishop_hits(occ, t, i)) && (k
            == PieceType::Bishop || k == PieceType::Rook || k == PieceType::Queen),
        _ => false,
    }
}

/// The word is the set of sliders that join in.
pub open spec fn is_join_word(b: Seq<Piece>, occ: u64, t: int, pt: PieceType, w: u64) -> bool {
    forall|i: int| 0 <= i < 64 ==> #[trigger] bits::bit(w, i) == joins(b, occ, t, pt, i)
}

/// The sliders that join in.
pub open spec fn join_word(b: Seq<Piece>, occ: u64, t: int, pt: PieceType) -> u64 {
    choose|w: u64| is_join_word(b, occ, t, pt, w)
}

/// The set holds a piece of type `pt`.
pub open spec fn has_kind(b: Seq<Piece>, w: u64, pt: PieceType) -> bool {
    exists|i: int| #[trigger] bits::bit(w, i) && b[i].kind() == pt
}

/// The cheapest type in the set.
pub open spec fn cheapest(b: Seq<Piece>, w: u64) -> PieceType {
    if has_kind(b, w, PieceType::Pawn) {
        PieceType::Pawn
    } else if has_kind(b, w, PieceType::Knight) {
        PieceType::Knight
    } else if has_kind(b, w, PieceType::Bishop) {
        PieceType::Bishop
    } else if has_kind(b, w, PieceType::Rook) {
        PieceType::Rook
    } else if has_kind(b, w, PieceType::Queen) {
        PieceType::Queen
    } else {
        PieceType::King
    }
}

/// Square `i` is the first of the set that holds a piece of type `pt`.
pub open spec fn is_first(b: Seq<Piece>, w: u64, pt: PieceType, i: int) -> bool {
    &&& bits::bit(w, i)
    &&& b[i].kind() == pt
    &&& forall|j: int| #[trigger] bits::bit(w, j) && b[j].kind() == pt ==> i <= j
}

/// The first square of the set that holds a piece of type `pt`.
pub open spec fn first(b: Seq<Piece>, w: u64, pt: PieceType) -> int {
    choose|i: int| is_first(b, w, pt, i)
}

/// The attackers of `own` that may take: while a pinner stands, pinned pieces may not.
pub open spec fn free(own: u64, occ: u64, pinners: u64, blockers: u64) -> u64 {
    if pinners & occ != 0 {
        own & !blockers
    } else {
        own
    }
}

/// The outcome of the exchange on `t` from the point where `stm` has just taken: `result`
/// says whether the first mover stands at its aim, `swap` what the last capture puts at
/// stake. At most `fuel` more captures are looked at.
pub open spec fn swap_off(
    b: Seq<Piece>,
    pinners: Seq<Bitboard>,
    blockers: Seq<Bitboard>,
    t: int,
    fuel: nat,
    stm: Color,
    occ: u64,
    attackers: u64,
    swap: int,
    result: bool,
) -> bool
    decreases fuel,
{
    let s = stm.opp();
    let a = attackers & occ;
    let own = free(a & side_word(b, s), occ, pinners[stm.idx()].0, blockers[s.idx()].0);
    if fuel == 0 || a & side_word(b, s) == 0 || own == 0 {
        result
    } else {
        let r = !result;
        let pt = cheapest(b, own);
        let next = pt.worth() - swap;
        if pt == PieceType::King {
            // A king may only take when the other side has run out of attackers.
            if a & side_word(b, stm) != 0 {
                !r
            } else {
                r
            }
        } else if next < (if r {
            1int
        } else {
            0int
        }) {
            r
        } else {
            let o = legality::toggled(occ, first(b, own, pt));
            swap_off(
                b,
                pinners,
                blockers,
                t,
                (fuel - 1) as nat,
                s,
                o,
                a | join_word(b, o, t, pt),
                next,
                r,
            )
        }
    }
}

/// The exchange that starts with `m` wins at least `threshold`.
///
/// The special kinds of move are not replayed: their material effect is no exchange on one
/// square, and they count as even.
pub open spec fn exchange_wins(
    b: Seq<Piece>,
    stm: Color,
    pinners: Seq<Bitboard>,
    blockers: Seq<Bitboard>,
    m: Move,
    threshold: int,
) -> bool {
    let from = m.src();
    let to = m.dst();
    if m.kind() != MoveType::Normal {
        threshold <= 0
    } else {
        let gain = b[to].kind().worth() - threshold;
        if gain < 0 {
            false
        } else {
            let risk = b[from].kind().worth() - gain;
            if risk <= 0 {
                true
            } else {
                let occ = legality::toggled(legality::toggled(placement::occ(b), from), to);
                swap_off(
                    b,
                    pinners,
                    blockers,
                    to,
                    64,
                    stm,
                    occ,
                    attack_word(b, occ, to),
                    risk,
                    true,
                )
            }
        }
    }
}

pub proof fn lemma_side_word(b: Seq<Piece>, c: Color, w: u64)
    requires
        is_side_word(b, c, w),
    ensures
        side_word(b, c) == w,
{
    let v = side_word(b, c);
    assert(is_side_word(b, c, v));
    assert forall|i: int| 0 <= i < 64 implies #[trigger] bits::bit(v, i) == bits::bit(w, i) by {
        assert(bits::bit(w, i) == (b[i] != Piece::NONE && b[i].side() == c));
    }
    bits::lemma_ext(v, w);
}

pub proof fn lemma_attack_word(b: Seq<Piece>, occ: u64, t: int, w: u64)
    requires
        is_attack_word(b, occ, t, w),
    ensures
        attack_word(b, occ, t) == w,
{
    let v = attack_word(b, occ, t);
    assert(is_attack_word(b, occ, t, v));
    assert forall|i: int| 0 <= i < 64 implies #[trigger] bits::bit(v, i) == bits::bit(w, i) by {
        assert(bits::bit(w, i) == placement::attacks_through(b, occ, i, t));
    }
    bits::lemma_ext(v, w);
}

pub proof fn lemma_join_word(b: Seq<Piece>, occ: u64, t: int, pt: PieceType, w: u64)
    requires
        is_join_word(b, occ, t, pt, w),
    ensures
        join_word(b, occ, t, pt) == w,
{
    let v = join_word(b, occ, t, pt);
    assert(is_join_word(b, occ, t, pt, v));
    assert forall|i: int| 0 <= i < 64 implies #[trigger] bits::bit(v, i) == bits::bit(w, i) by {
        assert(bits::bit(w, i) == joins(b, occ, t, pt, i));
    }
    bits::lemma_ext(v, w);
}

pub proof fn lemma_first(b: Seq<Piece>, w: u64, pt: PieceType, i: int)
    requires
        is_first(b, w, pt, i),
    ensures
        first(b, w, pt) == i,
{
    let j = first(b, w, pt);
    assert(is_first(b, w, pt, j));
}

impl Position {
    /// The set of squares of `c`.
    fn side_set(&self, c: Color) -> (r: Bitboard)
        requires
            self.sound(),
        ensures
            r.0 == side_word(self.board@, c),
            is_side_word(self.board@, c, r.0),
    {
        let r = self.colored(c);
        proof {
            assert forall|i: int| 0 <= i < 64 implies #[trigger] bits::bit(r.0, i) == (self.board@[i]
                != Piece::NONE && self.board@[i].side() == c) by {
                assert(r.has(i) == (0 <= i < 64 && self.board@[i] != Piece::NONE
                    && self.board@[i].side() == c));
            }
            lemma_side_word(self.board@, c, r.0);
        }
        r
    }

    /// The first square in `own` that holds a piece of type `pt`.
    fn first_of(&self, own: Bitboard, pt: PieceType) -> (r: Option<Square>)
        requires
            self.sound(),
            pt != PieceType::NoType,
        ensures
            r.is_some() == has_kind(self.board@, own.0, pt),
            r matches Some(s) ==> s.idx() == first(self.board@, own.0, pt) && own.has(s.idx()),
    {
        let found = own & self.pieces(pt);
        proof {
            broadcast use bits::group_bits;

            bits::lemma_nonzero(found.0);
            if has_kind(self.board@, own.0, pt) {
                let i = choose|i: int| #[trigger]
                    bits::bit(own.0, i) && self.board@[i].kind() == pt;
                assert(found.has(i));
            }
        }
        if found.is_empty() {
            None
        } else {
            let s = found.lsb();
            proof {
                broadcast use bits::group_bits;

                assert(found.has(s.idx()));
                assert forall|j: int| #[trigger]
                    bits::bit(own.0, j) && self.board@[j].kind() == pt implies s.idx() <= j by {
                    assert(found.has(j));
                }
                lemma_first(self.board@, own.0, pt, s.idx());
            }
            Some(s)
        }
    }

    /// The cheapest piece in `own`.
    fn cheapest_of(&self, own: Bitboard) -> (r: (PieceType, Square))
        requires
            self.sound(),
            own.0 != 0,
            forall|i: int| #[trigger] own.has(i) ==> self.board@[i].is_real(),
        ensures
            r.0 == cheapest(self.board@, own.0),
            r.0 != PieceType::NoType,
            r.1.idx() == first(self.board@, own.0, r.0),
            own.has(r.1.idx()),
            self.board@[r.1.idx()].kind() == r.0,
            forall|i: int| #[trigger]
                own.has(i) && self.board@[i].kind() != PieceType::King ==> r.0 != PieceType::King
                    && r.0.worth() <= self.board@[i].kind().worth(),
    {
        proof {
            trades::law_the_cheapest_takes(self.board@, own.0);
        }
        if let Some(s) = self.first_of(own, PieceType::Pawn) {
            return (PieceType::Pawn, s);
        }
        if let Some(s) = self.first_of(own, PieceType::Knight) {
            return (PieceType::Knight, s);
        }
        if let Some(s) = self.first_of(own, PieceType::Bishop) {
            return (PieceType::Bishop, s);
        }
        if let Some(s) = self.first_of(own, PieceType::Rook) {
            return (PieceType::Rook, s);
        }
        if let Some(s) = self.first_of(own, PieceType::Queen) {
            return (PieceType::Queen, s);
        }
        match self.first_of(own, PieceType::King) {
            Some(s) => (PieceType::King, s),
            None => {
                proof {
                    bits::lemma_nonzero(own.0);
                    let i = choose|i: int| bits::bit(own.0, i);
                    assert(own.has(i));
                    assert(has_kind(self.board@, own.0, self.board@[i].kind()));
                }
                (PieceType::King, Square::A1)
            },
        }
    }

    /// The sliders that join in through the line that a capture by a `pt` opens.
    fn joiners(&self, to: Square, occ: Bitboard, pt: PieceType) -> (r: Bitboard)
        requires
            self.sound(),
        ensures
            r.0 == join_word(self.board@, occ.0, to.idx(), pt),
            is_join_word(self.board@, occ.0, to.idx(), pt, r.0),
    {
        let bishops = self.pieces(PieceType::Bishop);
        let rooks = self.pieces(PieceType::Rook);
        let queens = self.pieces(PieceType::Queen);
        let r = match pt {
            PieceType::Pawn | PieceType::Bishop => bishop_attacks(to, occ) & (bishops | queens),
            PieceType::Rook => rook_attacks(to, occ) & (rooks | queens),
            PieceType::Queen => queen_attacks(to, occ) & (bishops | rooks | queens),
            _ => Bitboard(0),
        };
        proof {
            broadcast use bits::group_bits;

            assert forall|i: int| 0 <= i < 64 implies #[trigger] bits::bit(r.0, i) == joins(
                self.board@,
                occ.0,
                to.idx(),
                pt,
                i,
            ) by {}
            lemma_join_word(self.board@, occ.0, to.idx(), pt, r.0);
        }
        r
    }

    /// True when the exchange sequence starting with `m` wins at least `threshold`.
    pub fn see_ge(&self, m: Move, threshold: Value) -> (r: bool)
        requires
            self.wf(),
            m.kind() == MoveType::Normal ==> self.board@[m.dst()].kind().worth() - threshold.0
                <= i32::MAX,
        ensures
            r == exchange_wins(
                self.board@,
                self.side_to_move,
                self.top().pinners@,
                self.top().blockers@,
                m,
                threshold.0 as int,
            ),
    {
        if m.move_type() != MoveType::Normal {
            return threshold.0 <= 0;
        }
        let from = m.from();
        let to = m.to();
        let worth: i32 = piece_value(self.piece_on(to)).0;
        if worth < threshold.0 {
            return false;
        }
        let gain: i32 = worth - threshold.0;
        let risk: i32 = piece_value(self.piece_on(from)).0 - gain;
        if risk <= 0 {
            return true;
        }
        let mut occupied = self.occupied();
        occupied.toggle(from);
        occupied.toggle(to);
        let attackers = self.attackers_to_occ(to, occupied);
        proof {
            assert forall|i: int| 0 <= i < 64 implies #[trigger] bits::bit(attackers.0, i)
                == placement::attacks_through(self.board@, occupied.0, i, to.idx()) by {
                assert(attackers.has(i) == placement::attacks_through(
                    self.board@,
                    occupied.0,
                    i,
                    to.idx(),
                ));
            }
            lemma_attack_word(self.board@, occupied.0, to.idx(), attackers.0);
        }
        self.run_exchange(to, occupied, attackers, risk)
    }

    /// Run the exchange on `to`, after the side to move has taken with `risk` at stake.
    fn run_exchange(&self, to: Square, occupied: Bitboard, attackers: Bitboard, risk: i32) -> (r: bool)
        requires
            self.wf(),
            0 <= risk <= 2538,
            forall|i: int| #[trigger] attackers.has(i) ==> self.board@[i].is_real(),
        ensures
            r == swap_off(
                self.board@,
                self.top().pinners@,
                self.top().blockers@,
                to.idx(),
                64,
                self.side_to_move,
                occupied.0,
                attackers.0,
                risk as int,
                true,
            ),
    {
        let ghost b = self.board@;
        let ghost pins = self.top().pinners@;
        let ghost blocks = self.top().blockers@;
        let ghost target = swap_off(
            b,
            pins,
            blocks,
            to.idx(),
            64,
            self.side_to_move,
            occupied.0,
            attackers.0,
            risk as int,
            true,
        );
        let mut occ = occupied;
        let mut att = attackers;
        let mut stm = self.side_to_move;
        let mut swap: i32 = risk;
        let mut result = true;
        let mut fuel: usize = 64;
        while fuel > 0
            invariant
                self.wf(),
                b == self.board@,
                pins == self.top().pinners@,
                blocks == self.top().blockers@,
                0 <= swap <= 2538,
                target == swap_off(
                    b,
                    pins,
                    blocks,
                    to.idx(),
                    64,
                    self.side_to_move,
                    occupied.0,
                    attackers.0,
                    risk as int,
                    true,
                ),
                forall|i: int| #[trigger] att.has(i) ==> b[i].is_real(),
                target == swap_off(
                    b,
                    pins,
                    blocks,
                    to.idx(),
                    fuel as nat,
                    stm,
                    occ.0,
                    att.0,
                    swap as int,
                    result,
                ),
            decreases fuel,
        {
            let them = stm;
            stm = stm.flip();
            att = att & occ;
            let mut own = att & self.side_set(stm);
            if own.is_empty() {
                return result;
            }
            // A pinned piece cannot join the exchange unless its pinner is already gone.
            if (self.st().pinners[them.index()] & occ).any() {
                own = own & Bitboard(!self.blockers_for_king(stm).0);
                if own.is_empty() {
                    return result;
                }
            }
            proof {
                broadcast use bits::group_bits;

                assert forall|i: int| #[trigger] own.has(i) implies b[i].is_real() by {
                    assert(att.has(i));
                }
            }
            result = !result;
            // Take with the cheapest attacker, then let the slider behind it join in.
            let (pt, sq) = self.cheapest_of(own);
            // A king takes only when the other side has run out of attackers.
            if pt == PieceType::King {
                if (att & self.side_set(them)).any() {
                    return !result;
                }
                return result;
            }
            swap = piece_type_value(pt).0 - swap;
            if swap < (if result { 1i32 } else { 0i32 }) {
                return result;
            }
            occ.toggle(sq);
            let more = self.joiners(to, occ, pt);
            proof {
                broadcast use bits::group_bits;

                assert forall|i: int| #[trigger] bits::bit(att.0 | more.0, i) implies b[i].is_real() by {
                    if more.has(i) {
                        assert(joins(b, occ.0, to.idx(), pt, i));
                    }
                }
            }
            att = att | more;
            fuel -= 1;
        }
        result
    }
}

/// The further the exchange has to go for the first mover, the harder it is: what one side has
/// more at stake, the other has to gain.
proof fn lemma_swap_off_monotone(
    b: Seq<Piece>,
    pinners: Seq<Bitboard>,
    blockers: Seq<Bitboard>,
    t: int,
    fuel: nat,
    stm: Color,
    occ: u64,
    attackers: u64,
    low: int,
    high: int,
    result: bool,
)
    requires
        low <= high,
    ensures
        result && swap_off(b, pinners, blockers, t, fuel, stm, occ, attackers, high, result)
            ==> swap_off(b, pinners, blockers, t, fuel, stm, occ, attackers, low, result),
        !result && swap_off(b, pinners, blockers, t, fuel, stm, occ, attackers, low, result)
            ==> swap_off(b, pinners, blockers, t, fuel, stm, occ, attackers, high, result),
    decreases fuel,
{
    let s = stm.opp();
    let a = attackers & occ;
    let own = free(a & side_word(b, s), occ, pinners[stm.idx()].0, blockers[s.idx()].0);
    if fuel > 0 {
        let pt = cheapest(b, own);
        let o = legality::toggled(occ, first(b, own, pt));
        lemma_swap_off_monotone(
            b,
            pinners,
            blockers,
            t,
            (fuel - 1) as nat,
            s,
            o,
            a | join_word(b, o, t, pt),
            pt.worth() - high,
            pt.worth() - low,
            !result,
        );
    }
}

/// An exchange that wins at least a threshold wins at least every lower one.
pub proof fn law_exchanges_win_every_lower_threshold(
    b: Seq<Piece>,
    stm: Color,
    pinners: Seq<Bitboard>,
    blockers: Seq<Bitboard>,
    m: Move,
    low: int,
    high: int,
)
    requires
        low <= high,
        exchange_wins(b, stm, pinners, blockers, m, high),
    ensures
        exchange_wins(b, stm, pinners, blockers, m, low),
{
    if m.kind() == MoveType::Normal {
        let from = m.src();
        let to = m.dst();
        let occ = legality::toggled(legality::toggled(placement::occ(b), from), to);
        lemma_swap_off_monotone(
            b,
            pinners,
            blockers,
            to,
            64,
            stm,
            occ,
            attack_word(b, occ, to),
            b[from].kind().worth() - (b[to].kind().worth() - low),
            b[from].kind().worth() - (b[to].kind().worth() - high),
            true,
        );
    }
}

} // verus!
