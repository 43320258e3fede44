//! Questions about a move that are answered before it is made: whether it is legal, and
//! whether it gives check.

use vstd::prelude::*;
use crate::board::attacks::{aligned, bishop_attacks, piece_attacks, rook_attacks};
use crate::board::attacks;
use crate::board::bitboard::Bitboard;
use crate::board::bits;
use crate::board::placement;
use crate::board::position::Position;
use crate::board::position;
use crate::board::transition::castle_squares;
use crate::board::transition;
use crate::board::types::{Color, Direction, Move, MoveType, Piece, PieceType, Square};

verus! {

/// The word with the membership of `i` flipped.
pub open spec fn toggled(w: u64, i: int) -> u64 {
    w ^ (1u64 << (i as u64))
}

/// The word with `i` a member.
pub open spec fn joined(w: u64, i: int) -> u64 {
    w | (1u64 << (i as u64))
}

/// A rook or queen of `c` attacks `t` through occupancy `w`.
pub open spec fn rook_raked(b: Seq<Piece>, w: u64, c: Color, t: int) -> bool {
    exists|s: int| #[trigger] rook_rakes(b, w, c, s, t)
}

/// The rook or queen of `c` on `s` attacks `t` through occupancy `w`.
pub open spec fn rook_rakes(b: Seq<Piece>, w: u64, c: Color, s: int, t: int) -> bool {
    &&& 0 <= s < 64
    &&& b[s] == Piece::of(c, PieceType::Rook) || b[s] == Piece::of(c, PieceType::Queen)
    &&& attacks::rook_hits(w, s, t)
}

/// A bishop or queen of `c` attacks `t` through occupancy `w`.
pub open spec fn bishop_raked(b: Seq<Piece>, w: u64, c: Color, t: int) -> bool {
    exists|s: int| #[trigger] bishop_rakes(b, w, c, s, t)
}

/// The bishop or queen of `c` on `s` attacks `t` through occupancy `w`.
pub open spec fn bishop_rakes(b: Seq<Piece>, w: u64, c: Color, s: int, t: int) -> bool {
    &&& 0 <= s < 64
    &&& b[s] == Piece::of(c, PieceType::Bishop) || b[s] == Piece::of(c, PieceType::Queen)
    &&& attacks::bishop_hits(w, s, t)
}

/// The occupancy after an en-passant capture: two pawns leave and one arrives.
pub open spec fn ep_occupancy(w: u64, from: int, cap: int, to: int) -> u64 {
    joined(toggled(toggled(w, from), cap), to)
}

/// Some piece of `c` attacks `t` through occupancy `w`, other than the one on `gone`.
pub open spec fn attacked_without(b: Seq<Piece>, w: u64, c: Color, t: int, gone: int) -> bool {
    exists|s: int| #[trigger]
        placement::attacks_through(b, w, s, t) && b[s].side() == c && s != gone
}

/// The king travels over `s`, from its square to its destination, both ends with it.
pub open spec fn king_travels(from: int, kt: int, s: int) -> bool {
    (from <= s <= kt) || (kt <= s <= from)
}

/// No piece of `c` attacks a square the king travels over.
pub open spec fn safe_travel(b: Seq<Piece>, w: u64, c: Color, from: int, kt: int) -> bool {
    forall|s: int| #[trigger] king_travels(from, kt, s) ==> !placement::attacked(b, w, c, s)
}

/// The pseudo-legal move `m` leaves its own king safe.
pub open spec fn is_legal(b: Seq<Piece>, us: Color, chess960: bool, m: Move) -> bool {
    let w = placement::occ(b);
    let them = us.opp();
    let k = placement::king(b, us);
    let from = m.src();
    let to = m.dst();
    if m.kind() == MoveType::EnPassant {
        let cap = transition::capture_square(us, m);
        !attacked_without(b, ep_occupancy(w, from, cap, to), them, k, cap)
    } else if m.kind() == MoveType::Castling {
        let kt = position::castle_king_to(from, to > from);
        &&& safe_travel(b, w, them, from, kt)
        &&& chess960 ==> !rook_raked(b, joined(toggled(w, to), kt), them, kt)
    } else if b[from].kind() == PieceType::King {
        !placement::attacked(b, toggled(w, from), them, to)
    } else {
        placement::blocker(b, them, k, from) && b[from].side() == us ==> attacks::on_line(from, to, k)
    }
}

/// The move `m` of `us` gives check.
pub open spec fn checks_king(b: Seq<Piece>, us: Color, m: Move) -> bool {
    let w = placement::occ(b);
    let k = placement::king(b, us.opp());
    let from = m.src();
    let to = m.dst();
    ||| b[from].kind() != PieceType::King && attacks::hits(us, b[from].kind(), w, to, k)
    ||| placement::blocker(b, us, k, from) && !attacks::on_line(from, to, k)
    ||| match m.kind() {
        MoveType::Normal => false,
        MoveType::Promotion => attacks::hits(us, m.promo(), toggled(w, from), to, k),
        MoveType::EnPassant => {
            let o = ep_occupancy(w, from, 8 * (from / 8) + to % 8, to);
            rook_raked(b, o, us, k) || bishop_raked(b, o, us, k)
        },
        MoveType::Castling => {
            let kt = position::castle_king_to(from, to > from);
            let rt = position::castle_rook_to(from, to > from);
            let o = joined(joined(toggled(toggled(w, from), to), rt), kt);
            attacks::rook_hits(o, rt, k)
        },
    }
}

impl Position {
    /// Whether a rook or queen of `c` attacks `sq` through `w`.
    fn raked_by_rooks(&self, w: Bitboard, c: Color, sq: Square) -> (r: bool)
        requires
            self.sound(),
        ensures
            r == rook_raked(self.board@, w.0, c, sq.idx()),
    {
        let found = rook_attacks(sq, w) & self.pieces_of2(c, PieceType::Rook, PieceType::Queen);
        proof {
            broadcast use bits::group_bits;

            bits::lemma_nonzero(found.0);
            assert forall|s: int| #[trigger] found.has(s) == rook_rakes(
                self.board@,
                w.0,
                c,
                s,
                sq.idx(),
            ) by {
                attacks::law_slider_attacks_are_symmetric(w.0, s, sq.idx());
            }
            if rook_raked(self.board@, w.0, c, sq.idx()) {
                let s = choose|s: int| #[trigger] rook_rakes(self.board@, w.0, c, s, sq.idx());
                assert(found.has(s));
            }
        }
        found.any()
    }

    /// Whether a bishop or queen of `c` attacks `sq` through `w`.
    fn raked_by_bishops(&self, w: Bitboard, c: Color, sq: Square) -> (r: bool)
        requires
            self.sound(),
        ensures
            r == bishop_raked(self.board@, w.0, c, sq.idx()),
    {
        let found = bishop_attacks(sq, w) & self.pieces_of2(c, PieceType::Bishop, PieceType::Queen);
        proof {
            broadcast use bits::group_bits;

            bits::lemma_nonzero(found.0);
            assert forall|s: int| #[trigger] found.has(s) == bishop_rakes(
                self.board@,
                w.0,
                c,
                s,
                sq.idx(),
            ) by {
                attacks::law_slider_attacks_are_symmetric(w.0, s, sq.idx());
            }
            if bishop_raked(self.board@, w.0, c, sq.idx()) {
                let s = choose|s: int| #[trigger] bishop_rakes(self.board@, w.0, c, s, sq.idx());
                assert(found.has(s));
            }
        }
        found.any()
    }

    /// Whether some piece of `c` attacks `sq` through `w`.
    pub fn attacked_by(&self, w: Bitboard, c: Color, sq: Square) -> (r: bool)
        requires
            self.sound(),
        ensures
            r == placement::attacked(self.board@, w.0, c, sq.idx()),
    {
        let found = self.attackers_to_occ(sq, w) & self.colored(c);
        proof {
            broadcast use bits::group_bits;

            bits::lemma_nonzero(found.0);
            if placement::attacked(self.board@, w.0, c, sq.idx()) {
                let s = choose|s: int| #[trigger]
                    placement::attacks_through(self.board@, w.0, s, sq.idx())
                        && self.board@[s].side() == c;
                assert(found.has(s));
            }
            if exists|s: int| bits::bit(found.0, s) {
                let s = choose|s: int| bits::bit(found.0, s);
                assert(found.has(s));
                assert(placement::attacks_through(self.board@, w.0, s, sq.idx()));
            }
        }
        found.any()
    }

    /// Whether some piece of `c` attacks `sq` through `w`, other than the one on `gone`.
    fn attacked_by_others(&self, w: Bitboard, c: Color, sq: Square, gone: Square) -> (r: bool)
        requires
            self.sound(),
        ensures
            r == attacked_without(self.board@, w.0, c, sq.idx(), gone.idx()),
    {
        let mut found = self.attackers_to_occ(sq, w) & self.colored(c);
        found.clear(gone);
        proof {
            broadcast use bits::group_bits;

            bits::lemma_nonzero(found.0);
            if attacked_without(self.board@, w.0, c, sq.idx(), gone.idx()) {
                let s = choose|s: int| #[trigger]
                    placement::attacks_through(self.board@, w.0, s, sq.idx())
                        && self.board@[s].side() == c && s != gone.idx();
                assert(found.has(s));
            }
            if exists|s: int| bits::bit(found.0, s) {
                let s = choose|s: int| bits::bit(found.0, s);
                assert(found.has(s));
                assert(placement::attacks_through(self.board@, w.0, s, sq.idx()));
            }
        }
        found.any()
    }

    /// Whether `c` attacks a square the king travels over on its way from `from` to `to`.
    fn crosses_attack(&self, from: Square, to: Square, c: Color) -> (r: bool)
        requires
            self.sound(),
        ensures
            r == !safe_travel(self.board@, placement::occ(self.board@), c, from.idx(), to.idx()),
    {
        broadcast use Square::lemma_idx;

        let w = self.occupied();
        let forward = from.index() <= to.index();
        let lo: usize = if forward {
            from.index()
        } else {
            to.index()
        };
        let hi: usize = if forward {
            to.index()
        } else {
            from.index()
        };
        let mut s: usize = lo;
        while s <= hi
            invariant
                self.sound(),
                lo <= s <= hi + 1,
                hi < 64,
                w.0 == placement::occ(self.board@),
                forall|t: int| #[trigger] king_travels(from.idx(), to.idx(), t) == (lo <= t <= hi),
                forall|t: int|
                    lo <= t < s ==> !#[trigger] placement::attacked(
                        self.board@,
                        placement::occ(self.board@),
                        c,
                        t,
                    ),
            decreases hi + 1 - s,
        {
            if self.attacked_by(w, c, Square::new(s)) {
                assert(king_travels(from.idx(), to.idx(), s as int));
                return true;
            }
            s += 1;
        }
        false
    }

    /// True when the pseudo-legal move `m` leaves its own king safe.
    ///
    /// Only the cases that can go wrong are checked: an en-passant capture after which the king
    /// is attacked, a castling king that crosses an attacked square, a king move onto an attacked
    /// square, and a pinned piece leaving the pin line.
    pub fn legal(&self, m: Move) -> (r: bool)
        requires
            self.wf(),
            m.kind() == MoveType::EnPassant ==> 0 <= transition::capture_square(
                self.side_to_move,
                m,
            ) < 64,
        ensures
            r == is_legal(self.board@, self.side_to_move, self.chess960, m),
    {
        broadcast use Square::lemma_idx;

        let us = self.side_to_move;
        let them = us.flip();
        let from = m.from();
        let to = m.to();
        let mt = m.move_type();

        if mt == MoveType::EnPassant {
            // Removing both pawns at once can open a rank onto the king, which no pin test
            // sees because neither pawn is a blocker on its own; and a check that the capture
            // does not answer stands.
            let ksq = self.king_square(us);
            let capsq = to.shift(Direction::pawn_push(them));
            let mut w = self.occupied();
            w.toggle(from);
            w.toggle(capsq);
            w.set(to);
            return !self.attacked_by_others(w, them, ksq, capsq);
        }
        if mt == MoveType::Castling {
            // `to` is the rook's square. Check every square the king crosses, its
            // destination with them, and, for Chess960, that the rook was no screen.
            let (king_to, _) = castle_squares(from, to);
            if self.crosses_attack(from, king_to, them) {
                return false;
            }
            if self.chess960 {
                let mut o = self.occupied();
                o.toggle(to);
                o.set(king_to);
                return !self.raked_by_rooks(o, them, king_to);
            }
            return true;
        }
        if self.piece_on(from).piece_type() == PieceType::King {
            // The king is taken off the occupancy, or it would block the ray it flees.
            let mut w = self.occupied();
            w.toggle(from);
            return !self.attacked_by(w, them, to);
        }
        // A non-blocker cannot expose the king; a blocker may only move along the line
        // through the king.
        !self.blockers_for_king(us).contains(from) || aligned(from, to, self.king_square(us))
    }

    /// True when `m` gives check, decided before the move is made.
    ///
    /// Derived from the cached check squares and the blockers of the enemy king rather than by
    /// making the move.
    pub fn gives_check(&self, m: Move) -> (r: bool)
        requires
            self.wf(),
        ensures
            r == checks_king(self.board@, self.side_to_move, m),
    {
        broadcast use Square::lemma_idx;

        let from = m.from();
        let to = m.to();
        let us = self.side_to_move;
        let ksq = self.king_square(us.flip());

        // Direct check: the mover lands on a square that attacks the enemy king.
        if self.check_squares(self.piece_on(from).piece_type()).contains(to) {
            return true;
        }
        // Discovered check: the mover was a blocker and leaves the line.
        let (screens, _) = self.slider_blockers(us, ksq);
        if screens.contains(from) && !aligned(from, to, ksq) {
            return true;
        }
        match m.move_type() {
            MoveType::Normal => false,
            MoveType::Promotion => {
                let mut w = self.occupied();
                w.toggle(from);
                let found = piece_attacks(m.promotion_type(), to, w);
                assert(found.has(ksq.idx()) == attacks::hits(
                    us,
                    m.promo(),
                    w.0,
                    to.idx(),
                    ksq.idx(),
                ));
                found.contains(ksq)
            },
            MoveType::EnPassant => {
                // Two pawns leave the board and one appears; only a full look at the
                // sliders answers it.
                let capsq = Square::make(to.file(), from.rank());
                let mut w = self.occupied();
                w.toggle(from);
                w.toggle(capsq);
                w.set(to);
                self.raked_by_rooks(w, us, ksq) || self.raked_by_bishops(w, us, ksq)
            },
            MoveType::Castling => {
                // Only the rook can give check after castling.
                let (king_to, rook_to) = castle_squares(from, to);
                let mut w = self.occupied();
                w.toggle(from);
                w.toggle(to);
                w.set(rook_to);
                w.set(king_to);
                rook_attacks(rook_to, w).contains(ksq)
            },
        }
    }

    /// Make `m`, deriving the check flag from the position.
    pub fn do_move(&mut self, m: Move)
        requires
            old(self).wf(),
            old(self).accepts(m),
        ensures
            final(self).wf(),
            old(self).made(
                final(self),
                m,
                checks_king(old(self).board@, old(self).side_to_move, m),
            ),
    {
        let flag = self.gives_check(m);
        self.do_move_checked(m, flag);
    }
}

} // verus!
