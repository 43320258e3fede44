//! Why the legal moves are legal.
//!
//! A node is regular when it could have come about by play: its checkers are the pieces that
//! give check, the side that has just moved is not in check, an en-passant target has its pawn,
//! and the castling rooks stand where the rules put them. The theorems here say that every
//! legal move of a regular node can be made, leaves its own king safe, is flagged as a check
//! when it is one, and leads to a regular node again.

use vstd::prelude::*;
use crate::board::attacks;
use crate::board::bitboard;
use crate::board::bits;
use crate::board::legal_moves;
use crate::board::movegen::{GenType, Node};
use crate::board::movegen;
use crate::board::placement::Board;
use crate::board::placement;
use crate::board::position::Position;
use crate::board::position;
use crate::board::state;
use crate::board::tally;
use crate::board::types::{
    CastlingRights, Color, Direction, Move, MoveType, Piece, PieceType, Rank, Square,
    SquareOrNone,
};

verus! {

/// King and rook of a right stand on their first rank, and in standard chess the rook in the
/// corner.
pub open spec fn rook_at_home(n: Node, c: Color, king_side: bool) -> bool {
    let r = n.castling.rook_square@[CastlingRights::wing(c, king_side).nibble()]->At_0.idx();
    let k = placement::king(n.b, c);
    &&& Square::rel_rank(k, c) == 0
    &&& r / 8 == k / 8
    &&& !n.chess960 ==> r % 8 == (if king_side {
        7int
    } else {
        0int
    })
}

/// Every promotion leaves the material columns room.
pub open spec fn spacious(b: Seq<Piece>) -> bool {
    forall|c: Color, pt: PieceType|
        2 <= pt.idx() <= 5 ==> #[trigger] tally::count_of(b, Piece::of(c, pt)) + tally::count_of(
            b,
            Piece::of(c, PieceType::Pawn),
        ) <= 56
}

impl Node {
    /// The checkers are the enemy pieces that attack the king of the side to move.
    pub open spec fn checkers_exact(self) -> bool {
        forall|s: int| #[trigger]
            self.checkers.has(s) == state::checks(
                self.b,
                self.stm.opp(),
                placement::king(self.b, self.stm),
                s,
            )
    }

    /// The side to move does not attack the enemy king.
    pub open spec fn enemy_safe(self) -> bool {
        !placement::attacked(
            self.b,
            placement::occ(self.b),
            self.stm,
            placement::king(self.b, self.stm.opp()),
        )
    }

    /// The node could have come about by play.
    pub open spec fn regular(self) -> bool {
        &&& placement::clean(self.b)
        &&& placement::kings(self.b)
        &&& placement::occupies(self.b, placement::occ(self.b))
        &&& state::roomy(self.b)
        &&& spacious(self.b)
        &&& self.checkers_exact()
        &&& self.enemy_safe()
        &&& self.castling.wf(self.b, self.rights)
        &&& forall|c: Color, ks: bool|
            self.rights.has(#[trigger] CastlingRights::wing(c, ks)) ==> rook_at_home(self, c, ks)
        &&& self.ep matches SquareOrNone::At(e) ==> position::ep_ok(self.b, self.stm, e.idx())
    }

    /// The piece on `from` moves as its kind moves, and a special move finds what it needs.
    pub open spec fn well_moved(self, m: Move) -> bool {
        let from = m.src();
        let to = m.dst();
        let pc = self.b[from];
        let u = Direction::forward(self.stm).delta();
        let takes = bitboard::pawn_hits(self.stm, from, to) && movegen::enemy(
            self.b,
            self.stm,
            to,
        );
        let steps = to == from + u && self.b[to] == Piece::NONE;
        &&& pc.is_real()
        &&& pc.side() == self.stm
        &&& match m.kind() {
            MoveType::Normal => {
                &&& movegen::not_own(self.b, self.stm, to)
                &&& if pc.kind() == PieceType::Pawn {
                    &&& Square::rel_rank(from, self.stm) != 6
                    &&& takes || steps || (to == from + 2 * u && Square::rel_rank(from, self.stm) == 1
                        && self.b[from + u] == Piece::NONE && self.b[to] == Piece::NONE)
                } else {
                    attacks::hits(self.stm, pc.kind(), placement::occ(self.b), from, to)
                }
            },
            MoveType::Promotion => {
                &&& pc.kind() == PieceType::Pawn
                &&& Square::rel_rank(from, self.stm) == 6
                &&& takes || steps
            },
            MoveType::EnPassant => {
                &&& pc.kind() == PieceType::Pawn
                &&& bitboard::pawn_hits(self.stm, from, to)
                &&& self.ep matches SquareOrNone::At(e) && e.idx() == to
            },
            MoveType::Castling => {
                &&& !self.in_check()
                &&& from == placement::king(self.b, self.stm)
                &&& exists|ks: bool| #[trigger] self.castles_with(ks, to)
            },
        }
    }

    /// The right on the given wing can be used, with the rook on `r`.
    pub open spec fn castles_with(self, ks: bool, r: int) -> bool {
        &&& self.castle_open(ks)
        &&& self.castling.rook_square@[CastlingRights::wing(self.stm, ks).nibble()] matches SquareOrNone::At(
            s,
        ) && s.idx() == r
    }

    /// In check, a piece other than the king blocks or captures the only checker, or takes
    /// en passant.
    pub open spec fn answers(self, m: Move) -> bool {
        let c = self.checkers.members()[0];
        self.in_check() && self.b[m.src()].kind() != PieceType::King ==> {
            &&& self.checkers.members().len() < 2
            &&& m.kind() == MoveType::EnPassant || m.dst() == c || attacks::between(
                placement::king(self.b, self.stm),
                m.dst(),
                c,
            )
        }
    }
}

/// Nothing but a lone square lies between a square and what a knight, a king or a pawn on it
/// attacks.
pub proof fn lemma_no_between(c: Color, pt: PieceType, w: u64, s: int, k: int, t: int)
    requires
        pt == PieceType::Knight || pt == PieceType::King || pt == PieceType::Pawn,
        attacks::hits(c, pt, w, s, k),
    ensures
        !attacks::between(s, t, k),
        !attacks::between(k, t, s),
{
}

/// The squares between the king and a checker are empty, and the checker is an enemy: a
/// destination that answers a check is never held by the own side.
pub proof fn lemma_target_not_own(n: Node, gt: GenType, t: int)
    requires
        n.regular(),
        gt == n.full_kind(),
        n.checkers.members().len() < 2,
        0 <= t < 64,
        n.target(gt, t),
    ensures
        movegen::not_own(n.b, n.stm, t),
{
    if n.in_check() {
        let k = placement::king(n.b, n.stm);
        let c = n.checkers.members()[0];
        bits::lemma_members(n.checkers.0);
        bits::lemma_members_empty(n.checkers.0);
        assert(n.checkers.has(c));
        assert(state::checks(n.b, n.stm.opp(), k, c));
        if t != c {
            assert(attacks::between(k, t, c));
            let pt = n.b[c].kind();
            if pt == PieceType::Knight || pt == PieceType::King || pt == PieceType::Pawn {
                lemma_no_between(n.b[c].side(), pt, placement::occ(n.b), c, k, t);
            } else {
                assert(attacks::clear(placement::occ(n.b), c, k));
                assert(attacks::between(c, t, k));
                assert(bits::bit(placement::occ(n.b), t) == (n.b[t] != Piece::NONE));
            }
        }
    }
}

/// A checker is an enemy piece.
proof fn lemma_checker_enemy(n: Node, t: int)
    requires
        n.regular(),
        n.checkers.has(t),
    ensures
        movegen::enemy(n.b, n.stm, t),
        n.in_check(),
{
    bits::lemma_member_nonzero(n.checkers.0, t);
    assert(state::checks(n.b, n.stm.opp(), placement::king(n.b, n.stm), t));
}

/// Every move that a regular node generates moves as its piece moves, and answers a check.
pub proof fn lemma_generated(n: Node)
    requires
        n.regular(),
    ensures
        legal_moves::each(n.pseudo(n.full_kind()), |m: Move| n.well_moved(m) && n.answers(m)),
{
    let gt = n.full_kind();
    let p = |m: Move| n.well_moved(m) && n.answers(m);
    placement::lemma_king(n.b, n.stm);
    let k = placement::king(n.b, n.stm);
    bits::lemma_members(n.checkers.0);
    bits::lemma_members_empty(n.checkers.0);
    if n.checkers.members().len() >= 2 {
        let q = |t: int|
            bitboard::king_hits(k, t) && movegen::wanted(n.b, n.stm, gt, t);
        legal_moves::lemma_squares_sound(q, 0);
        let tos = movegen::squares(q);
        let s = movegen::moves_from(k, tos);
        assert forall|i: int| 0 <= i < s.len() implies p(#[trigger] s[i]) by {
            assert(s[i] == movegen::plain(k, tos[i]));
            assert(q(tos[i]));
            legal_moves::lemma_pack(MoveType::Normal, k, tos[i], PieceType::Knight);
        }
    } else {
        lemma_each_kind_ok(n);
        legal_moves::lemma_each_generated(n, gt, p);
    }
}

#[verifier::rlimit(40)]
proof fn lemma_each_kind_ok(n: Node)
    requires
        n.regular(),
        n.checkers.members().len() < 2,
    ensures
        legal_moves::each_kind(n, n.full_kind(), |m: Move| n.well_moved(m) && n.answers(m)),
{
    broadcast use Square::lemma_idx;

    let gt = n.full_kind();
    let p = |m: Move| n.well_moved(m) && n.answers(m);
    placement::lemma_king(n.b, n.stm);
    let k = placement::king(n.b, n.stm);
    let u = Direction::forward(n.stm).delta();
    bits::lemma_members(n.checkers.0);
    bits::lemma_members_empty(n.checkers.0);
    let c = n.checkers.members()[0];
    // With fewer than two checkers, a checker is the first one.
    assert forall|t: int| n.checkers.has(t) implies t == c && n.in_check() by {
        lemma_checker_enemy(n, t);
        let i = choose|i: int| 0 <= i < n.checkers.members().len() && n.checkers.members()[i] == t;
    }
    assert forall|t: int| 0 <= t < 64 && n.prey(gt, t) implies movegen::enemy(n.b, n.stm, t) && (
    n.in_check() ==> t == c) by {
        if gt == GenType::Evasions {
            assert(n.checkers.has(t));
            lemma_checker_enemy(n, t);
        }
    }
    assert forall|t: int| 0 <= t < 64 && n.in_check() && n.push_counts(gt, t) implies t == c
        || attacks::between(k, t, c) by {}
    assert forall|t: int| 0 <= t < 64 && #[trigger] n.single_push(t) && n.push_counts(gt, t) implies p(
        movegen::plain(t - u, t),
    ) by {
        legal_moves::lemma_pack(MoveType::Normal, t - u, t, PieceType::Knight);
    }
    assert forall|t: int| 0 <= t < 64 && #[trigger] n.double_push(t) && n.push_counts(gt, t) implies p(
        movegen::plain(t - 2 * u, t),
    ) by {
        legal_moves::lemma_pack(MoveType::Normal, t - 2 * u, t, PieceType::Knight);
    }
    assert forall|d: Direction, t: int|
        0 <= t < 64 && (d == movegen::right_of(n.stm) || d == movegen::left_of(n.stm))
            && #[trigger] movegen::pawn_arrives(n.b, n.stm, d, true, t) && n.prey(gt, t) implies legal_moves::each_promotion(
    t - d.delta(), t, p) by {
        let s = t - d.delta();
        legal_moves::lemma_pack(MoveType::Promotion, s, t, PieceType::Queen);
        legal_moves::lemma_pack(MoveType::Promotion, s, t, PieceType::Rook);
        legal_moves::lemma_pack(MoveType::Promotion, s, t, PieceType::Bishop);
        legal_moves::lemma_pack(MoveType::Promotion, s, t, PieceType::Knight);
        assert(bitboard::pawn_hits(n.stm, s, t));
    }
    assert forall|t: int|
        0 <= t < 64 && #[trigger] movegen::pawn_arrives(
            n.b,
            n.stm,
            Direction::forward(n.stm),
            true,
            t,
        ) && n.b[t] == Piece::NONE && n.push_counts(gt, t) implies legal_moves::each_promotion(
        t - u,
        t,
        p,
    ) by {
        let s = t - u;
        legal_moves::lemma_pack(MoveType::Promotion, s, t, PieceType::Queen);
        legal_moves::lemma_pack(MoveType::Promotion, s, t, PieceType::Rook);
        legal_moves::lemma_pack(MoveType::Promotion, s, t, PieceType::Bishop);
        legal_moves::lemma_pack(MoveType::Promotion, s, t, PieceType::Knight);
    }
    assert forall|d: Direction, t: int|
        0 <= t < 64 && (d == movegen::right_of(n.stm) || d == movegen::left_of(n.stm))
            && #[trigger] movegen::pawn_arrives(n.b, n.stm, d, false, t) && n.prey(gt, t) implies p(
        movegen::plain(t - d.delta(), t),
    ) by {
        let s = t - d.delta();
        legal_moves::lemma_pack(MoveType::Normal, s, t, PieceType::Knight);
        assert(bitboard::pawn_hits(n.stm, s, t));
    }
    if let SquareOrNone::At(e) = n.ep {
        assert forall|s: int|
            0 <= s < 64 && bitboard::pawn_hits(n.stm.opp(), e.idx(), s) && n.b[s] == Piece::of(
                n.stm,
                PieceType::Pawn,
            ) && Square::rel_rank(s, n.stm) != 6 implies p(
            #[trigger] Move::pack(MoveType::EnPassant, s, e.idx(), PieceType::Knight),
        ) by {
            legal_moves::lemma_pack(MoveType::EnPassant, s, e.idx(), PieceType::Knight);
            bitboard::law_pawn_attacks_mirror(n.stm, s, e.idx());
        }
    }
    assert forall|pt: PieceType, s: int, t: int|
        (pt == PieceType::Knight || pt == PieceType::Bishop || pt == PieceType::Rook || pt
            == PieceType::Queen) && 0 <= s < 64 && 0 <= t < 64 && n.b[s] == Piece::of(n.stm, pt)
            && #[trigger] attacks::hits(n.stm, pt, placement::occ(n.b), s, t) && n.target(gt, t) implies p(
    movegen::plain(s, t)) by {
        legal_moves::lemma_pack(MoveType::Normal, s, t, PieceType::Knight);
        lemma_target_not_own(n, gt, t);
    }
    assert forall|t: int|
        0 <= t < 64 && #[trigger] bitboard::king_hits(k, t) && movegen::not_own(n.b, n.stm, t) implies p(
    movegen::plain(k, t)) by {
        legal_moves::lemma_pack(MoveType::Normal, k, t, PieceType::Knight);
    }
    assert forall|ks: bool, r: Square|
        !n.in_check() && n.castle_open(ks) && n.castling.rook_square@[CastlingRights::wing(
            n.stm,
            ks,
        ).nibble()] == SquareOrNone::At(r) implies p(
        #[trigger] legal_moves::castle_with(n, ks, r),
    ) by {
        legal_moves::lemma_pack(MoveType::Castling, k, r.idx(), PieceType::Knight);
        assert(n.castles_with(ks, r.idx()));
    }
}

// ---------------------------------------------------------------------------
// Testing for regularity
// ---------------------------------------------------------------------------

/// True when every promotion leaves the material columns room.
fn is_spacious(board: &Board) -> (r: bool)
    requires
        board.wf(),
    ensures
        r == spacious(board@),
{
    let mut i: usize = 0;
    while i < 8
        invariant
            i <= 8,
            board.wf(),
            forall|c: Color, pt: PieceType|
                2 <= pt.idx() <= 5 && c.idx() * 4 + pt.idx() - 2 < i ==> #[trigger] tally::count_of(
                    board@,
                    Piece::of(c, pt),
                ) + tally::count_of(board@, Piece::of(c, PieceType::Pawn)) <= 56,
        decreases 8 - i,
    {
        let c = if i < 4 {
            Color::White
        } else {
            Color::Black
        };
        let pt = match i % 4 {
            0 => PieceType::Knight,
            1 => PieceType::Bishop,
            2 => PieceType::Rook,
            _ => PieceType::Queen,
        };
        if board.count(c, pt) + board.count(c, PieceType::Pawn) > 56 {
            return false;
        }
        assert forall|d: Color, q: PieceType|
            2 <= q.idx() <= 5 && d.idx() * 4 + q.idx() - 2 < i + 1 implies #[trigger] tally::count_of(
            board@,
            Piece::of(d, q),
        ) + tally::count_of(board@, Piece::of(d, PieceType::Pawn)) <= 56 by {
            if d.idx() * 4 + q.idx() - 2 == i {
                assert(d == c && q == pt);
            }
        }
        i += 1;
    }
    true
}

impl Position {
    /// True when the right, if it is held, has its king and rook at home.
    fn is_at_home(&self, c: Color, king_side: bool) -> (r: bool)
        requires
            self.wf(),
        ensures
            r == (self.node().rights.has(CastlingRights::wing(c, king_side)) ==> rook_at_home(
                self.node(),
                c,
                king_side,
            )),
    {
        broadcast use Square::lemma_idx;

        let cr = if king_side {
            CastlingRights::king_side(c)
        } else {
            CastlingRights::queen_side(c)
        };
        if !self.can_castle(cr) {
            return true;
        }
        assert(self.castling.right_wf(self.board@, c, king_side));
        let k = self.king_square(c);
        match self.castling.rook_square[cr.index()] {
            SquareOrNone::At(rook) => {
                let corner: usize = if king_side {
                    7
                } else {
                    0
                };
                k.relative_rank(c) == Rank::R1 && rook.rank() == k.rank() && (self.chess960
                    || rook.index() % 8 == corner)
            },
            SquareOrNone::NONE => false,
        }
    }

    /// True when the position could have come about by play, as far as its squares show: the
    /// recorded checkers are the real ones, the side that has just moved is not in check, every
    /// promotion has room, and castling kings and rooks are at home.
    pub fn is_regular(&self) -> (r: bool)
        requires
            self.wf(),
        ensures
            r == self.node().regular(),
    {
        broadcast use bits::group_bits;

        let us = self.side_to_move;
        let occupied = self.occupied();
        let attackers = self.attackers_to(self.king_square(us)) & self.colored(us.flip());
        let ghost n = self.node();
        proof {
            assert(forall|s: int| #[trigger]
                attackers.has(s) == state::checks(n.b, us.opp(), placement::king(n.b, us), s));
            if n.checkers_exact() {
                assert forall|s: int| 0 <= s < 64 implies #[trigger] bits::bit(n.checkers.0, s)
                    == bits::bit(attackers.0, s) by {
                    assert(n.checkers.has(s) == attackers.has(s));
                }
                bits::lemma_ext(n.checkers.0, attackers.0);
            }
        }
        if self.checkers() != attackers {
            return false;
        }
        if self.attacked_by(occupied, us, self.king_square(us.flip())) {
            return false;
        }
        let home_wk = self.is_at_home(Color::White, true);
        let home_wq = self.is_at_home(Color::White, false);
        let home_bk = self.is_at_home(Color::Black, true);
        let home_bq = self.is_at_home(Color::Black, false);
        let spacious = is_spacious(&self.board);
        proof {
            if home_wk && home_wq && home_bk && home_bq {
                assert forall|c: Color, ks: bool|
                    n.rights.has(#[trigger] CastlingRights::wing(c, ks)) implies rook_at_home(
                    n,
                    c,
                    ks,
                ) by {}
            } else {
                assert(n.rights.has(CastlingRights::wing(Color::White, true)) ==> rook_at_home(
                    n,
                    Color::White,
                    true,
                ) || !n.regular());
            }
        }
        home_wk && home_wq && home_bk && home_bq && spacious
    }
}

} // verus!
