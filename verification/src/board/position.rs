//! The board state: piece placement, the incrementally maintained derived state, and the
//! make/unmake transition.
//!
//! [`Position`] holds what a move rewrites in place (the placement, the side to move); a
//! [`StateInfo`] holds what a move cannot recompute cheaply on the way back. The chain of
//! states is a vector the position owns: undoing a move pops it.
//!
//! `wf` is what every operation keeps: the derived fields of the current state are those
//! that a recomputation from the board alone would give.

use vstd::prelude::*;
use vstd::array::array_fill_for_copy_types;
use std::sync::Arc;
use crate::board::attacks;
use crate::board::bitboard::Bitboard;
use crate::board::bitboard;
use crate::board::bits;
use crate::board::placement::Board;
use crate::board::placement;
use crate::board::state::{place, StateInfo};
use crate::board::state;
use crate::board::tally;
use crate::board::types::{
    CastlingRights, Color, Direction, Key, Move, MoveType, Piece, PieceType, Square, SquareOrNone,
    Value,
};
use crate::board::zobrist::Tables;
use crate::board::zobrist;

verus! {

/// The castling data of a game: set when the position is set up, constant through it.
#[derive(Clone, Copy, Debug)]
pub struct Castling {
    /// The rook's origin for each single right, so that Chess960 castling is a data lookup.
    pub rook_square: [SquareOrNone; 16],
    /// The squares the king and rook must find empty for each right, minus the two movers.
    pub path: [Bitboard; 16],
    /// For each square, the rights that moving from or to it destroys.
    pub mask: [CastlingRights; 64],
}

/// Where the king lands: the g-file or the c-file of its own rank.
pub open spec fn castle_king_to(from: int, king_side: bool) -> int {
    8 * (from / 8) + (if king_side {
        6int
    } else {
        2int
    })
}

/// Where the rook lands: the f-file or the d-file of the king's rank.
pub open spec fn castle_rook_to(from: int, king_side: bool) -> int {
    8 * (from / 8) + (if king_side {
        5int
    } else {
        3int
    })
}

/// Square `t` must be empty for the king on `k` to castle with the rook on `r`.
pub open spec fn castle_path(k: int, r: int, king_side: bool, t: int) -> bool {
    let kt = castle_king_to(k, king_side);
    let rt = castle_rook_to(k, king_side);
    &&& t == kt || t == rt || attacks::between(r, t, rt) || attacks::between(k, t, kt)
    &&& t != k
    &&& t != r
}

impl Castling {
    /// The data of a game without castling.
    pub fn empty() -> (r: Castling)
        ensures
            r.rook_square@ == Seq::new(16, |i: int| SquareOrNone::NONE),
            r.path@ == Seq::new(16, |i: int| Bitboard(0)),
            r.mask@ == Seq::new(64, |i: int| CastlingRights::of(false, false, false, false)),
    {
        let rook_square = array_fill_for_copy_types::<SquareOrNone, 16>(SquareOrNone::NONE);
        let path = array_fill_for_copy_types::<Bitboard, 16>(Bitboard(0));
        let mask = array_fill_for_copy_types::<CastlingRights, 64>(CastlingRights::none());
        assert(rook_square@ =~= Seq::new(16, |i: int| SquareOrNone::NONE));
        assert(path@ =~= Seq::new(16, |i: int| Bitboard(0)));
        assert(mask@ =~= Seq::new(64, |i: int| CastlingRights::of(false, false, false, false)));
        Castling { rook_square, path, mask }
    }

    /// The data of one right: its rook stands where it is recorded, on the right side of the
    /// king, both squares are marked, and the path is the one the rules ask for.
    pub open spec fn right_wf(&self, b: Seq<Piece>, c: Color, king_side: bool) -> bool {
        let cr = CastlingRights::wing(c, king_side);
        let k = placement::king(b, c);
        &&& self.rook_square@[cr.nibble()] is At
        &&& {
            let r = self.rook_square@[cr.nibble()]->At_0.idx();
            &&& 0 <= r < 64
            &&& b[r] == Piece::of(c, PieceType::Rook)
            &&& (r > k) == king_side
            &&& self.mask@[k].has(cr)
            &&& self.mask@[r].has(cr)
            &&& forall|t: int| #[trigger]
                self.path@[cr.nibble()].has(t) == castle_path(k, r, king_side, t)
        }
    }

    /// Every right in `rights` has its data.
    pub open spec fn wf(&self, b: Seq<Piece>, rights: CastlingRights) -> bool {
        forall|c: Color, king_side: bool|
            rights.has(#[trigger] CastlingRights::wing(c, king_side)) ==> self.right_wf(
                b,
                c,
                king_side,
            )
    }
}

/// An en-passant target: on the sixth rank of the side to move, empty, with the pawn that
/// was pushed behind it and a pawn that can take.
pub open spec fn ep_ok(b: Seq<Piece>, stm: Color, s: int) -> bool {
    &&& 0 <= s < 64
    &&& Square::rel_rank(s, stm) == 5
    &&& b[s] == Piece::NONE
    &&& b[s - Direction::forward(stm).delta()] == Piece::of(stm.opp(), PieceType::Pawn)
    &&& exists|p: int| #[trigger] ep_taker(b, stm, s, p)
}

/// A pawn of `stm` on `p` attacks `s`.
pub open spec fn ep_taker(b: Seq<Piece>, stm: Color, s: int, p: int) -> bool {
    bitboard::pawn_hits(stm, p, s) && b[p] == Piece::of(stm, PieceType::Pawn)
}

/// A chess position, plus the state chain reaching it.
#[derive(Debug)]
pub struct Position {
    pub board: Board,
    pub side_to_move: Color,
    pub game_ply: i32,
    pub castling: Castling,
    pub chess960: bool,
    /// Never empty: index 0 is the position as set up, the last entry the current state.
    pub states: Vec<StateInfo>,
    /// The hash keys, shared by every copy of the position.
    pub keys: Arc<Tables>,
}

impl Position {
    /// The current state.
    #[verifier::inline]
    pub open spec fn top(&self) -> StateInfo {
        self.states@[self.states@.len() - 1]
    }

    /// The placement's three forms agree and the chain is not empty. Holds of a blank board
    /// too.
    pub open spec fn sound(&self) -> bool {
        &&& self.board.wf()
        &&& self.states@.len() >= 1
        &&& self.keys.wf()
    }

    /// The position is playable, and every derived field of its current state is what the
    /// placement makes it.
    pub open spec fn wf(&self) -> bool {
        &&& self.sound()
        &&& placement::kings(self.board@)
        &&& state::roomy(self.board@)
        &&& self.game_ply >= 0
        &&& self.top().tallied(self.board@)
        &&& self.top().keyed(self.board@, self.side_to_move)
        &&& self.top().surveyed(self.board@, self.side_to_move)
        &&& self.castling.wf(self.board@, self.top().castling_rights)
        &&& self.top().ep_square matches SquareOrNone::At(s) ==> ep_ok(
            self.board@,
            self.side_to_move,
            s.idx(),
        )
    }

    /// The board is empty and the chain has one entry, which holds nothing.
    pub open spec fn is_blank(&self) -> bool {
        &&& self.sound()
        &&& self.board@ == Seq::new(64, |i: int| Piece::NONE)
        &&& self.side_to_move == Color::White
        &&& self.game_ply == 0
        &&& !self.chess960
        &&& self.states@.len() == 1
        &&& self.top().castling_rights == CastlingRights::of(false, false, false, false)
        &&& self.top().ep_square == SquareOrNone::NONE
        &&& self.top().rule50 == 0
        &&& self.top().plies_from_null == 0
        &&& self.top().repetition == 0
        &&& self.top().captured_piece == Piece::NONE
        &&& self.top().unsurveyed()
        &&& self.castling.rook_square@ == Seq::new(16, |i: int| SquareOrNone::NONE)
        &&& self.castling.path@ == Seq::new(16, |i: int| Bitboard(0))
        &&& self.castling.mask@ == Seq::new(
            64,
            |i: int| CastlingRights::of(false, false, false, false),
        )
    }

    /// An empty board with a one-entry state chain. Not a legal position: `set` before use.
    pub fn blank() -> (r: Position)
        ensures
            r.is_blank(),
    {
        let mut states: Vec<StateInfo> = Vec::new();
        states.push(StateInfo::empty());
        let r = Position {
            board: Board::empty(),
            side_to_move: Color::White,
            game_ply: 0,
            castling: Castling::empty(),
            chess960: false,
            states,
            keys: Arc::new(zobrist::build()),
        };
        r
    }

    /// The two positions hold the same placement, side, clocks, castling data and chain.
    pub open spec fn same(&self, other: &Position) -> bool {
        &&& self.board@ == other.board@
        &&& self.side_to_move == other.side_to_move
        &&& self.game_ply == other.game_ply
        &&& self.castling == other.castling
        &&& self.chess960 == other.chess960
        &&& self.states@ == other.states@
    }

    // -- accessors ---------------------------------------------------------

    /// The current state.
    #[inline(always)]
    pub fn st(&self) -> (r: &StateInfo)
        requires
            self.states@.len() >= 1,
        ensures
            *r == self.top(),
    {
        &self.states[self.states.len() - 1]
    }

    /// The piece standing on `sq`, or `Piece::NONE`.
    #[inline(always)]
    pub fn piece_on(&self, sq: Square) -> (r: Piece)
        ensures
            r == self.board@[sq.idx()],
    {
        self.board.piece_on(sq)
    }

    /// True when `sq` holds no piece.
    #[inline(always)]
    pub fn is_empty_square(&self, sq: Square) -> (r: bool)
        ensures
            r == (self.board@[sq.idx()] == Piece::NONE),
    {
        self.board.piece_on(sq).is_none()
    }

    /// Every occupied square.
    #[inline(always)]
    pub fn occupied(&self) -> (r: Bitboard)
        requires
            self.sound(),
        ensures
            r.0 == placement::occ(self.board@),
            forall|i: int| #[trigger] r.has(i) == (0 <= i < 64 && self.board@[i] != Piece::NONE),
    {
        self.board.occupied()
    }

    /// Every piece of type `pt`, both colours; for `NoType`, every occupied square.
    #[inline(always)]
    pub fn pieces(&self, pt: PieceType) -> (r: Bitboard)
        requires
            self.sound(),
        ensures
            pt != PieceType::NoType ==> forall|i: int| #[trigger]
                r.has(i) == (0 <= i < 64 && self.board@[i].kind() == pt),
            pt == PieceType::NoType ==> forall|i: int| #[trigger]
                r.has(i) == (0 <= i < 64 && self.board@[i] != Piece::NONE),
    {
        self.board.pieces(pt)
    }

    /// Every piece of `c`.
    #[inline(always)]
    pub fn colored(&self, c: Color) -> (r: Bitboard)
        requires
            self.sound(),
        ensures
            forall|i: int| #[trigger]
                r.has(i) == (0 <= i < 64 && self.board@[i] != Piece::NONE && self.board@[i].side()
                    == c),
    {
        self.board.colored(c)
    }

    /// Every piece of `c` and type `pt`; for `NoType`, every piece of `c`.
    #[inline(always)]
    pub fn pieces_of(&self, c: Color, pt: PieceType) -> (r: Bitboard)
        requires
            self.sound(),
        ensures
            pt != PieceType::NoType ==> forall|i: int| #[trigger]
                r.has(i) == (0 <= i < 64 && self.board@[i] == Piece::of(c, pt)),
            pt == PieceType::NoType ==> forall|i: int| #[trigger]
                r.has(i) == (0 <= i < 64 && self.board@[i] != Piece::NONE && self.board@[i].side()
                    == c),
    {
        self.board.pieces_of(c, pt)
    }

    /// Every piece of `c` and either of two types.
    #[inline(always)]
    pub fn pieces_of2(&self, c: Color, a: PieceType, b: PieceType) -> (r: Bitboard)
        requires
            self.sound(),
            a != PieceType::NoType,
            b != PieceType::NoType,
        ensures
            forall|i: int| #[trigger]
                r.has(i) == (0 <= i < 64 && (self.board@[i] == Piece::of(c, a) || self.board@[i]
                    == Piece::of(c, b))),
    {
        self.board.pieces_of2(c, a, b)
    }

    /// How many pieces of `c` and type `pt` are on the board.
    #[inline(always)]
    pub fn count(&self, c: Color, pt: PieceType) -> (r: i32)
        requires
            self.sound(),
            pt != PieceType::NoType,
        ensures
            r == tally::count_of(self.board@, Piece::of(c, pt)),
            0 <= r <= 64,
    {
        self.board.count(c, pt)
    }

    /// How many pieces of type `pt`, both colours.
    #[inline(always)]
    pub fn count_both(&self, pt: PieceType) -> (r: i32)
        requires
            self.sound(),
            pt != PieceType::NoType,
        ensures
            r == tally::count_of(self.board@, Piece::of(Color::White, pt)) + tally::count_of(
                self.board@,
                Piece::of(Color::Black, pt),
            ),
    {
        self.count(Color::White, pt) + self.count(Color::Black, pt)
    }

    /// The total number of pieces on the board.
    #[inline(always)]
    pub fn piece_total(&self) -> (r: u32)
        requires
            self.sound(),
        ensures
            r == bits::members(placement::occ(self.board@)).len(),
            r <= 64,
    {
        self.occupied().count()
    }

    /// `c`'s king square.
    #[inline(always)]
    pub fn king_square(&self, c: Color) -> (r: Square)
        requires
            self.sound(),
            tally::count_of(self.board@, Piece::of(c, PieceType::King)) >= 1,
        ensures
            r.idx() == placement::king(self.board@, c),
            self.board@[r.idx()] == Piece::of(c, PieceType::King),
    {
        self.board.king_square(c)
    }

    /// The side to move.
    #[inline(always)]
    pub fn side_to_move(&self) -> (r: Color)
        ensures
            r == self.side_to_move,
    {
        self.side_to_move
    }

    /// The position key.
    #[inline(always)]
    pub fn key(&self) -> (r: Key)
        requires
            self.states@.len() >= 1,
        ensures
            r == self.top().key,
    {
        self.st().key
    }

    /// The pieces giving check to the side to move.
    #[inline(always)]
    pub fn checkers(&self) -> (r: Bitboard)
        requires
            self.states@.len() >= 1,
        ensures
            r == self.top().checkers,
    {
        self.st().checkers
    }

    /// True when the side to move is in check.
    #[inline(always)]
    pub fn in_check(&self) -> (r: bool)
        requires
            self.states@.len() >= 1,
        ensures
            r == (self.top().checkers.0 != 0),
    {
        self.st().checkers.any()
    }

    /// The en-passant target square, if there is one.
    #[inline(always)]
    pub fn ep_square(&self) -> (r: SquareOrNone)
        requires
            self.states@.len() >= 1,
        ensures
            r == self.top().ep_square,
    {
        self.st().ep_square
    }

    /// The halfmove clock.
    #[inline(always)]
    pub fn rule50_count(&self) -> (r: i32)
        requires
            self.states@.len() >= 1,
        ensures
            r == self.top().rule50,
    {
        self.st().rule50
    }

    /// The number of plies played from the start of the game.
    #[inline(always)]
    pub fn game_ply(&self) -> (r: i32)
        ensures
            r == self.game_ply,
    {
        self.game_ply
    }

    /// True when castling is being played under Chess960 rules.
    #[inline(always)]
    pub fn is_chess960(&self) -> (r: bool)
        ensures
            r == self.chess960,
    {
        self.chess960
    }

    /// `c`'s non-pawn, non-king material.
    #[inline(always)]
    pub fn non_pawn_material(&self, c: Color) -> (r: Value)
        requires
            self.states@.len() >= 1,
        ensures
            r == self.top().non_pawn_material@[c.idx()],
            self.wf() ==> r.0 == tally::worth_of(self.board@, c),
    {
        self.st().non_pawn_material[c.index()]
    }

    /// Both sides' non-pawn material.
    #[inline(always)]
    pub fn non_pawn_material_total(&self) -> (r: Value)
        requires
            self.wf(),
        ensures
            r.0 == tally::worth_of(self.board@, Color::White) + tally::worth_of(
                self.board@,
                Color::Black,
            ),
            0 <= r.0 <= 324_864,
    {
        proof {
            tally::lemma_worth_bounds(self.board@, Color::White, 64);
            tally::lemma_worth_bounds(self.board@, Color::Black, 64);
        }
        Value(self.st().non_pawn_material[0].0 + self.st().non_pawn_material[1].0)
    }

    /// True when some right of `cr` is still available.
    #[inline(always)]
    pub fn can_castle(&self, cr: CastlingRights) -> (r: bool)
        requires
            self.states@.len() >= 1,
        ensures
            r == ({
                let own = self.top().castling_rights;
                (own.white_oo && cr.white_oo) || (own.white_ooo && cr.white_ooo) || (own.black_oo
                    && cr.black_oo) || (own.black_ooo && cr.black_ooo)
            }),
    {
        !self.st().castling_rights.intersect(cr).is_empty()
    }

    /// The rook that castling right `cr` moves.
    #[inline(always)]
    pub fn castling_rook_square(&self, cr: CastlingRights) -> (r: SquareOrNone)
        ensures
            r == self.castling.rook_square@[cr.nibble()],
    {
        self.castling.rook_square[cr.index()]
    }

    /// True when a piece between the king and the rook blocks castling right `cr`.
    #[inline(always)]
    pub fn castling_impeded(&self, cr: CastlingRights) -> (r: bool)
        requires
            self.sound(),
        ensures
            r == (exists|t: int|
                0 <= t < 64 && self.board@[t] != Piece::NONE && #[trigger] self.castling.path@[cr.nibble()].has(t)),
    {
        proof {
            broadcast use bits::group_bits;

        }
        let both = self.occupied() & self.castling.path[cr.index()];
        proof {
            broadcast use bits::group_bits;

            bits::lemma_nonzero(both.0);
            if exists|t: int|
                0 <= t < 64 && self.board@[t] != Piece::NONE && #[trigger] self.castling.path@[cr.nibble()].has(t) {
                let t = choose|t: int|
                    0 <= t < 64 && self.board@[t] != Piece::NONE && #[trigger] self.castling.path@[cr.nibble()].has(t);
                assert(both.has(t));
            }
        }
        both.any()
    }

    /// `m` takes a piece: en passant does, castling does not.
    pub open spec fn captures(&self, m: Move) -> bool {
        (self.board@[m.dst()] != Piece::NONE && m.kind() != MoveType::Castling) || m.kind()
            == MoveType::EnPassant
    }

    /// True when `m` captures a piece: with en passant, without castling, which names the
    /// rook's square as its destination.
    #[inline(always)]
    pub fn is_capture(&self, m: Move) -> (r: bool)
        ensures
            r == self.captures(m),
    {
        (!self.is_empty_square(m.to()) && m.move_type() != MoveType::Castling) || m.move_type()
            == MoveType::EnPassant
    }

    /// True when `m` is a capture or a promotion.
    #[inline(always)]
    pub fn is_capture_stage(&self, m: Move) -> (r: bool)
        ensures
            r == (self.captures(m) || m.kind() == MoveType::Promotion),
    {
        self.is_capture(m) || m.move_type() == MoveType::Promotion
    }

    /// The piece the last move captured.
    #[inline(always)]
    pub fn captured_piece(&self) -> (r: Piece)
        requires
            self.states@.len() >= 1,
        ensures
            r == self.top().captured_piece,
    {
        self.st().captured_piece
    }

    /// Hash the halfmove clock into `k` from the fourteenth ply on, so that a position
    /// reached with a different clock cannot reuse an entry the rule invalidates.
    pub fn adjust_key50(k: Key, rule50: i32) -> (r: Key)
        ensures
            rule50 < 14 ==> r == k,
            rule50 >= 14 ==> r == k ^ ((((rule50 - 14) / 8) as u64).wrapping_mul(
                6_364_136_223_846_793_005,
            ).wrapping_add(1_442_695_040_888_963_407)),
    {
        if rule50 < 14 {
            return k;
        }
        let seed: Key = ((rule50 - 14) / 8) as u64;
        k ^ seed.wrapping_mul(6_364_136_223_846_793_005).wrapping_add(1_442_695_040_888_963_407)
    }

    /// Pieces of either colour that attack `sq`, given the current occupancy.
    pub fn attackers_to(&self, sq: Square) -> (r: Bitboard)
        requires
            self.sound(),
        ensures
            forall|s: int| #[trigger]
                r.has(s) == placement::attacks_through(
                    self.board@,
                    placement::occ(self.board@),
                    s,
                    sq.idx(),
                ),
    {
        self.board.attackers_to_occ(sq, self.occupied())
    }

    /// Pieces of either colour that attack `sq`, given `occ`.
    pub fn attackers_to_occ(&self, sq: Square, occ: Bitboard) -> (r: Bitboard)
        requires
            self.sound(),
        ensures
            forall|s: int| #[trigger]
                r.has(s) == placement::attacks_through(self.board@, occ.0, s, sq.idx()),
    {
        self.board.attackers_to_occ(sq, occ)
    }

    /// Pieces that stand between `sq` and a slider of colour `c`, plus those sliders.
    ///
    /// Returns the blockers and the pinners. A blocker of either colour is returned: an own blocker
    /// is pinned, an enemy blocker could deliver a discovered check by moving.
    pub fn slider_blockers(&self, c: Color, sq: Square) -> (r: (Bitboard, Bitboard))
        requires
            self.sound(),
        ensures
            forall|u: int| #[trigger]
                r.0.has(u) == placement::blocker(self.board@, c, sq.idx(), u),
            forall|q: int| #[trigger] r.1.has(q) == placement::pinner(self.board@, c, sq.idx(), q),
    {
        self.board.slider_blockers(c, sq)
    }

    /// Own pieces of `c` whose move could expose their own king.
    #[inline(always)]
    pub fn blockers_for_king(&self, c: Color) -> (r: Bitboard)
        requires
            self.states@.len() >= 1,
        ensures
            r == self.top().blockers@[c.idx()],
            self.wf() ==> forall|u: int| #[trigger]
                r.has(u) == (placement::blocker(
                    self.board@,
                    c.opp(),
                    placement::king(self.board@, c),
                    u,
                ) && self.board@[u].side() == c),
    {
        self.st().blockers[c.index()]
    }

    /// Squares from which a piece of type `pt` would check the enemy king.
    #[inline(always)]
    pub fn check_squares(&self, pt: PieceType) -> (r: Bitboard)
        requires
            self.states@.len() >= 1,
        ensures
            r == self.top().check_squares@[pt.idx()],
            self.wf() ==> forall|t: int| #[trigger]
                r.has(t) == (pt != PieceType::King && attacks::hits(
                    self.side_to_move,
                    pt,
                    placement::occ(self.board@),
                    t,
                    placement::king(self.board@, self.side_to_move.opp()),
                )),
    {
        self.st().check_squares[pt.index()]
    }
}

} // verus!
