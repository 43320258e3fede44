//! Move generation.
//!
//! Every generator here is pseudo-legal except [`generate_legal`]: a move it produces is
//! reachable by the piece's geometry and lands on a square its own side does not occupy, but
//! it may still leave its own king in check. [`Position::legal`] is the filter.
//!
//! The order of the generated moves is part of the contract: `pseudo` says the exact
//! sequence, piece by piece and square by square.

use vstd::prelude::*;
use crate::board::attacks::{between_bb, piece_attacks};
use crate::board::attacks;
use crate::board::bitboard::{king_attacks, pawn_attacks_from, relative_rank_bb, Bitboard};
use crate::board::bitboard;
use crate::board::bits;
use crate::board::placement;
use crate::board::position::{Castling, Position};
use crate::board::position;
use crate::board::types::{
    CastlingRights, Color, Direction, Move, MoveType, Piece, PieceType, Square, SquareOrNone,
};

verus! {

// ---------------------------------------------------------------------------
// The move list
// ---------------------------------------------------------------------------

/// Anything generation can append a move to.
pub trait MoveSink {
    /// The moves appended so far.
    spec fn moves(&self) -> Seq<Move>;

    /// Append one move.
    fn push_move(&mut self, m: Move)
        ensures
            final(self).moves() == old(self).moves().push(m),
    ;
}

/// A buffer of moves.
#[derive(Debug)]
pub struct MoveList {
    pub list: Vec<Move>,
}

impl View for MoveList {
    type V = Seq<Move>;

    open spec fn view(&self) -> Seq<Move> {
        self.list@
    }
}

/// The first `n` elements of `s` that have a true verdict, in order.
pub open spec fn selected(s: Seq<Move>, verdicts: Seq<bool>, n: int) -> Seq<Move>
    decreases n,
{
    if n <= 0 {
        Seq::empty()
    } else if verdicts[n - 1] {
        selected(s, verdicts, n - 1).push(s[n - 1])
    } else {
        selected(s, verdicts, n - 1)
    }
}

/// A verdict more does not change what the verdicts before it select.
proof fn lemma_selected_prefix(s: Seq<Move>, v: Seq<bool>, k: bool, n: int)
    requires
        n <= v.len(),
    ensures
        selected(s, v.push(k), n) == selected(s, v, n),
    decreases n,
{
    if n > 0 {
        lemma_selected_prefix(s, v, k, n - 1);
    }
}

impl MoveList {
    /// An empty list.
    pub fn new() -> (r: MoveList)
        ensures
            r@ == Seq::<Move>::empty(),
    {
        MoveList { list: Vec::with_capacity(64) }
    }

    /// Append `m`.
    pub fn push(&mut self, m: Move)
        ensures
            final(self)@ == old(self)@.push(m),
    {
        self.list.push(m);
    }

    /// The moves generated so far.
    pub fn as_slice(&self) -> (r: &[Move])
        ensures
            r@ == self@,
    {
        self.list.as_slice()
    }

    /// The number of moves.
    pub fn len(&self) -> (r: usize)
        ensures
            r == self@.len(),
    {
        self.list.len()
    }

    /// True when nothing has been generated.
    pub fn is_empty(&self) -> (r: bool)
        ensures
            r == (self@.len() == 0),
    {
        self.list.len() == 0
    }

    /// True when `m` is in the list.
    pub fn contains(&self, m: Move) -> (r: bool)
        ensures
            r == self@.contains(m),
    {
        let mut i: usize = 0;
        while i < self.list.len()
            invariant
                i <= self@.len(),
                forall|k: int| 0 <= k < i ==> self@[k] != m,
            decreases self@.len() - i,
        {
            if self.list[i] == m {
                assert(self@[i as int] == m);
                return true;
            }
            i += 1;
        }
        false
    }

    /// Drop every move for which `keep` is false, preserving order.
    pub fn retain<F: Fn(Move) -> bool>(&mut self, keep: F)
        requires
            forall|m: Move| #[trigger] keep.requires((m,)),
        ensures
            exists|v: Seq<bool>| #[trigger]
                judges(keep, old(self)@, v) && final(self)@ == selected(
                    old(self)@,
                    v,
                    old(self)@.len() as int,
                ),
    {
        let ghost all = self@;
        let ghost mut v: Seq<bool> = Seq::empty();
        let mut out: Vec<Move> = Vec::new();
        let mut i: usize = 0;
        while i < self.list.len()
            invariant
                i <= self.list@.len(),
                self.list@ == all,
                v.len() == i,
                forall|m: Move| #[trigger] keep.requires((m,)),
                forall|j: int| 0 <= j < i ==> keep.ensures((all[j],), #[trigger] v[j]),
                out@ == selected(all, v, i as int),
            decreases self.list@.len() - i,
        {
            let m = self.list[i];
            let k = keep(m);
            if k {
                out.push(m);
            }
            proof {
                lemma_selected_prefix(all, v, k, i as int);
                v = v.push(k);
            }
            i += 1;
        }
        assert(judges(keep, all, v));
        self.list = out;
    }
}

/// The verdicts are ones that `keep` can give on the moves of `s`.
pub open spec fn judges<F: Fn(Move) -> bool>(keep: F, s: Seq<Move>, v: Seq<bool>) -> bool {
    &&& v.len() == s.len()
    &&& forall|j: int| 0 <= j < s.len() ==> keep.ensures((s[j],), #[trigger] v[j])
}

impl Default for MoveList {
    /// An empty list.
    fn default() -> (r: MoveList)
        ensures
            r@ == Seq::<Move>::empty(),
    {
        MoveList::new()
    }
}

impl MoveSink for MoveList {
    open spec fn moves(&self) -> Seq<Move> {
        self@
    }

    fn push_move(&mut self, m: Move) {
        self.push(m);
    }
}

/// Which subset of moves a generator produces.
#[derive(Clone, Copy, Debug, PartialEq, Eq, Structural)]
pub enum GenType {
    /// Captures and queen promotions.
    Captures,
    /// Everything else: quiet moves and under-promotions.
    Quiets,
    /// Every pseudo-legal move, for a position that is not in check.
    NonEvasions,
    /// Every pseudo-legal move that could answer a check.
    Evasions,
}

// ---------------------------------------------------------------------------
// What is generated
// ---------------------------------------------------------------------------

/// What move generation looks at.
pub struct Node {
    pub b: Seq<Piece>,
    pub stm: Color,
    pub rights: CastlingRights,
    pub ep: SquareOrNone,
    pub checkers: Bitboard,
    pub castling: Castling,
    pub chess960: bool,
}

/// The members of a set from `i` on, ascending.
pub open spec fn squares_from(p: spec_fn(int) -> bool, i: int) -> Seq<int>
    decreases 64 - i,
{
    if i >= 64 {
        Seq::empty()
    } else if p(i) {
        seq![i] + squares_from(p, i + 1)
    } else {
        squares_from(p, i + 1)
    }
}

/// The members of a set of squares, ascending.
pub open spec fn squares(p: spec_fn(int) -> bool) -> Seq<int> {
    squares_from(p, 0)
}

/// The word and the predicate are one set.
pub proof fn lemma_squares(w: u64, p: spec_fn(int) -> bool)
    requires
        forall|i: int| 0 <= i < 64 ==> #[trigger] bits::bit(w, i) == p(i),
    ensures
        bits::members(w) == squares(p),
{
    lemma_squares_from(w, p, 0);
}

proof fn lemma_squares_from(w: u64, p: spec_fn(int) -> bool, i: int)
    requires
        0 <= i <= 64,
        forall|i: int| 0 <= i < 64 ==> #[trigger] bits::bit(w, i) == p(i),
    ensures
        bits::members_from(w, i) == squares_from(p, i),
    decreases 64 - i,
{
    if i < 64 {
        lemma_squares_from(w, p, i + 1);
        assert(bits::bit(w, i) == p(i));
    }
}

/// A plain move.
pub open spec fn plain(from: int, to: int) -> Move {
    Move::pack(MoveType::Normal, from, to, PieceType::Knight)
}

/// Plain moves from one square.
pub open spec fn moves_from(from: int, tos: Seq<int>) -> Seq<Move> {
    tos.map_values(|to: int| plain(from, to))
}

/// Plain moves that all step by `d`.
pub open spec fn moves_by(d: int, tos: Seq<int>) -> Seq<Move> {
    tos.map_values(|to: int| plain(to - d, to))
}

/// Square `t` is not held by `us`.
pub open spec fn not_own(b: Seq<Piece>, us: Color, t: int) -> bool {
    b[t] == Piece::NONE || b[t].side() != us
}

/// Square `t` is held by the other side.
pub open spec fn enemy(b: Seq<Piece>, us: Color, t: int) -> bool {
    b[t] != Piece::NONE && b[t].side() == us.opp()
}

/// The squares that a kind of generation asks for.
pub open spec fn wanted(b: Seq<Piece>, us: Color, gt: GenType, t: int) -> bool {
    match gt {
        GenType::Captures => enemy(b, us, t),
        GenType::Quiets => b[t] == Piece::NONE,
        _ => not_own(b, us, t),
    }
}

impl Node {
    /// The side to move is in check.
    pub open spec fn in_check(self) -> bool {
        self.checkers.0 != 0
    }

    /// The destinations a piece other than the king may have: in check those that block the
    /// checking line or capture the checker, otherwise those that are asked for.
    pub open spec fn target(self, gt: GenType, t: int) -> bool {
        if self.in_check() {
            let c = self.checkers.members()[0];
            &&& t == c || attacks::between(placement::king(self.b, self.stm), t, c)
            &&& gt == GenType::Captures ==> enemy(self.b, self.stm, t)
            &&& gt == GenType::Quiets ==> self.b[t] == Piece::NONE
        } else {
            wanted(self.b, self.stm, gt, t)
        }
    }

    /// The moves of one piece of type `pt`.
    pub open spec fn piece_steps(self, gt: GenType, pt: PieceType, from: int) -> Seq<Move> {
        moves_from(
            from,
            squares(
                |t: int|
                    attacks::hits(self.stm, pt, placement::occ(self.b), from, t) && self.target(gt, t),
            ),
        )
    }

    /// The moves of the pieces of type `pt` on the squares `froms`.
    pub open spec fn steps_of(self, gt: GenType, pt: PieceType, froms: Seq<int>) -> Seq<Move>
        decreases froms.len(),
    {
        if froms.len() == 0 {
            Seq::empty()
        } else {
            self.piece_steps(gt, pt, froms[0]) + self.steps_of(gt, pt, froms.drop_first())
        }
    }

    /// The moves of every piece of type `pt`.
    pub open spec fn piece_moves(self, gt: GenType, pt: PieceType) -> Seq<Move> {
        self.steps_of(gt, pt, squares(|s: int| self.b[s] == Piece::of(self.stm, pt)))
    }

    /// The king's moves, among the squares that are asked for. A king escapes a check by
    /// leaving, so no checking line restricts it.
    pub open spec fn king_moves(self, gt: GenType) -> Seq<Move> {
        let k = placement::king(self.b, self.stm);
        moves_from(
            k,
            squares(|t: int| bitboard::king_hits(k, t) && wanted(self.b, self.stm, gt, t)),
        )
    }

    /// The right of the side to move on the given wing can be used now.
    pub open spec fn castle_open(self, king_side: bool) -> bool {
        let cr = CastlingRights::wing(self.stm, king_side);
        &&& self.rights.has(cr)
        &&& forall|t: int|
            0 <= t < 64 && #[trigger] self.castling.path@[cr.nibble()].has(t) ==> self.b[t]
                == Piece::NONE
    }

    /// The castling move on the given wing, when it can be made: it names the rook's square
    /// as its destination.
    pub open spec fn castle_move(self, king_side: bool) -> Seq<Move> {
        let cr = CastlingRights::wing(self.stm, king_side);
        if self.castle_open(king_side) {
            seq![
                Move::pack(
                    MoveType::Castling,
                    placement::king(self.b, self.stm),
                    self.castling.rook_square@[cr.nibble()].byte(),
                    PieceType::Knight,
                ),
            ]
        } else {
            Seq::empty()
        }
    }
}

// ---------------------------------------------------------------------------
// Pawns
// ---------------------------------------------------------------------------

/// The capture direction on the right hand of `c`'s pawns.
pub open spec fn right_of(c: Color) -> Direction {
    match c {
        Color::White => Direction::NorthEast,
        Color::Black => Direction::SouthWest,
    }
}

/// The capture direction on the left hand of `c`'s pawns.
pub open spec fn left_of(c: Color) -> Direction {
    match c {
        Color::White => Direction::NorthWest,
        Color::Black => Direction::SouthEast,
    }
}

/// A pawn of `us` arrives on `t` by a step in direction `d`; `seventh` says whether it comes
/// from its seventh rank.
pub open spec fn pawn_arrives(b: Seq<Piece>, us: Color, d: Direction, seventh: bool, t: int) -> bool {
    let s = t - d.delta();
    &&& 0 <= t < 64
    &&& 0 <= t % 8 - d.df() < 8
    &&& 0 <= t / 8 - d.dr() < 8
    &&& b[s] == Piece::of(us, PieceType::Pawn)
    &&& (Square::rel_rank(s, us) == 6) == seventh
}

/// The moves of one promotion. Which of the four pieces belong to `gt` depends on whether
/// the promotion captures: a capturing one is a capture whatever it promotes to, a pushing
/// one is a capture only when it makes a queen.
pub open spec fn promotions(gt: GenType, captures: bool, from: int, to: int) -> Seq<Move> {
    let queen = if gt != GenType::Quiets {
        seq![Move::pack(MoveType::Promotion, from, to, PieceType::Queen)]
    } else {
        Seq::empty()
    };
    let under = match gt {
        GenType::Captures => captures,
        GenType::Quiets => !captures,
        _ => true,
    };
    if under {
        queen + seq![
            Move::pack(MoveType::Promotion, from, to, PieceType::Rook),
            Move::pack(MoveType::Promotion, from, to, PieceType::Bishop),
            Move::pack(MoveType::Promotion, from, to, PieceType::Knight),
        ]
    } else {
        queen
    }
}

/// The promotions that step by `d` onto the squares `tos`.
pub open spec fn promotions_by(gt: GenType, captures: bool, d: int, tos: Seq<int>) -> Seq<Move>
    decreases tos.len(),
{
    if tos.len() == 0 {
        Seq::empty()
    } else {
        promotions(gt, captures, tos[0] - d, tos[0]) + promotions_by(
            gt,
            captures,
            d,
            tos.drop_first(),
        )
    }
}

/// The en-passant captures of the pawns on the squares `froms`.
pub open spec fn ep_captures(ep: int, froms: Seq<int>) -> Seq<Move> {
    froms.map_values(|from: int| Move::pack(MoveType::EnPassant, from, ep, PieceType::Knight))
}

impl Node {
    /// The moves are to answer a check: evasions are asked for, or the side to move is in check.
    pub open spec fn answering(self, gt: GenType) -> bool {
        gt == GenType::Evasions || self.in_check()
    }

    /// The enemies a pawn may take: in answer to a check only the checkers.
    pub open spec fn prey(self, gt: GenType, t: int) -> bool {
        if self.answering(gt) {
            self.checkers.has(t)
        } else {
            enemy(self.b, self.stm, t)
        }
    }

    /// In answer to a check a push must block it.
    pub open spec fn push_counts(self, gt: GenType, t: int) -> bool {
        self.answering(gt) ==> self.target(GenType::Evasions, t)
    }

    /// A pawn can step forward onto `t` without promoting.
    pub open spec fn single_push(self, t: int) -> bool {
        pawn_arrives(self.b, self.stm, Direction::forward(self.stm), false, t) && self.b[t]
            == Piece::NONE
    }

    /// A pawn can make a double step onto `t`.
    pub open spec fn double_push(self, t: int) -> bool {
        let mid = t - Direction::forward(self.stm).delta();
        &&& 0 <= t < 64
        &&& 0 <= mid < 64
        &&& self.single_push(mid)
        &&& Square::rel_rank(mid, self.stm) == 2
        &&& self.b[t] == Piece::NONE
    }

    /// The pushes that do not promote: single steps, then double steps.
    pub open spec fn pushes(self, gt: GenType) -> Seq<Move> {
        let u = Direction::forward(self.stm).delta();
        if gt == GenType::Captures {
            Seq::empty()
        } else {
            moves_by(u, squares(|t: int| self.single_push(t) && self.push_counts(gt, t))) + moves_by(
                2 * u,
                squares(|t: int| self.double_push(t) && self.push_counts(gt, t)),
            )
        }
    }

    /// The promotions: captures to the right, captures to the left, pushes.
    pub open spec fn promoting(self, gt: GenType) -> Seq<Move> {
        let r = right_of(self.stm);
        let l = left_of(self.stm);
        let u = Direction::forward(self.stm);
        promotions_by(
            gt,
            true,
            r.delta(),
            squares(|t: int| pawn_arrives(self.b, self.stm, r, true, t) && self.prey(gt, t)),
        ) + promotions_by(
            gt,
            true,
            l.delta(),
            squares(|t: int| pawn_arrives(self.b, self.stm, l, true, t) && self.prey(gt, t)),
        ) + promotions_by(
            gt,
            false,
            u.delta(),
            squares(
                |t: int|
                    pawn_arrives(self.b, self.stm, u, true, t) && self.b[t] == Piece::NONE
                        && self.push_counts(gt, t),
            ),
        )
    }

    /// The en-passant captures. In answer to a check there is none when the square behind the
    /// target could block the check: the pushed pawn then blocked nothing, and taking it
    /// leaves the check standing.
    pub open spec fn en_passant(self, gt: GenType) -> Seq<Move> {
        match self.ep {
            SquareOrNone::At(e) => if self.answering(gt) && self.target(
                GenType::Evasions,
                e.idx() + Direction::forward(self.stm).delta(),
            ) {
                Seq::empty()
            } else {
                ep_captures(
                    e.idx(),
                    squares(
                        |s: int|
                            bitboard::pawn_hits(self.stm.opp(), e.idx(), s) && self.b[s]
                                == Piece::of(self.stm, PieceType::Pawn) && Square::rel_rank(
                                s,
                                self.stm,
                            ) != 6,
                    ),
                )
            },
            SquareOrNone::NONE => Seq::empty(),
        }
    }

    /// The ordinary captures to the right and to the left, then en passant.
    pub open spec fn pawn_captures(self, gt: GenType) -> Seq<Move> {
        let r = right_of(self.stm);
        let l = left_of(self.stm);
        if gt == GenType::Quiets {
            Seq::empty()
        } else {
            moves_by(
                r.delta(),
                squares(|t: int| pawn_arrives(self.b, self.stm, r, false, t) && self.prey(gt, t)),
            ) + moves_by(
                l.delta(),
                squares(|t: int| pawn_arrives(self.b, self.stm, l, false, t) && self.prey(gt, t)),
            ) + self.en_passant(gt)
        }
    }

    /// The pawns' moves.
    pub open spec fn pawn_moves(self, gt: GenType) -> Seq<Move> {
        self.pushes(gt) + self.promoting(gt) + self.pawn_captures(gt)
    }

    /// Castling is a quiet move and impossible in check.
    pub open spec fn castling_moves(self, gt: GenType) -> Seq<Move> {
        if !self.in_check() && (gt == GenType::Quiets || gt == GenType::NonEvasions) {
            self.castle_move(true) + self.castle_move(false)
        } else {
            Seq::empty()
        }
    }

    /// The pseudo-legal moves of kind `gt`, in the order they are generated. A double check
    /// can only be answered by a king move.
    pub open spec fn pseudo(self, gt: GenType) -> Seq<Move> {
        if self.checkers.members().len() >= 2 {
            self.king_moves(gt)
        } else {
            self.pawn_moves(gt) + self.piece_moves(gt, PieceType::Knight) + self.piece_moves(
                gt,
                PieceType::Bishop,
            ) + self.piece_moves(gt, PieceType::Rook) + self.piece_moves(gt, PieceType::Queen)
                + self.king_moves(gt) + self.castling_moves(gt)
        }
    }
}

// ---------------------------------------------------------------------------
// Generation
// ---------------------------------------------------------------------------

impl Position {
    /// What move generation looks at.
    pub open spec fn node(&self) -> Node {
        Node {
            b: self.board@,
            stm: self.side_to_move,
            rights: self.top().castling_rights,
            ep: self.top().ep_square,
            checkers: self.top().checkers,
            castling: self.castling,
            chess960: self.chess960,
        }
    }
}

/// Append the plain moves from `from` to every member of `set`.
fn push_from<S: MoveSink>(list: &mut S, from: Square, set: Bitboard)
    ensures
        final(list).moves() == old(list).moves() + moves_from(from.idx(), set.members()),
{
    broadcast use Square::lemma_idx;

    let ghost start = list.moves();
    let mut left = set;
    let ghost mut done: int = 0;
    proof {
        bits::lemma_members(set.0);
    }
    while left.0 != 0
        invariant
            0 <= done <= set.members().len(),
            left.members() == set.members().skip(done),
            list.moves() == start + moves_from(from.idx(), set.members()).take(done),
        decreases left.members().len(),
    {
        let to = left.pop_lsb();
        list.push_move(Move::new(from, to));
        proof {
            let all = moves_from(from.idx(), set.members());
            assert(all[done] == plain(from.idx(), to.idx()));
            assert(all.take(done + 1) =~= all.take(done).push(all[done]));
            done = done + 1;
        }
    }
    proof {
        bits::lemma_members_empty(left.0);
        let all = moves_from(from.idx(), set.members());
        assert(all.take(done) =~= all);
    }
}

/// Append the plain moves that step by `back` places to every member of `set`.
fn push_by<S: MoveSink>(list: &mut S, d: i32, set: Bitboard)
    requires
        -18 <= d <= 18,
        forall|t: int| #[trigger] set.has(t) ==> 0 <= t - d < 64,
    ensures
        final(list).moves() == old(list).moves() + moves_by(d as int, set.members()),
{
    broadcast use Square::lemma_idx;

    let ghost start = list.moves();
    let mut left = set;
    let ghost mut done: int = 0;
    proof {
        bits::lemma_members(set.0);
    }
    while left.0 != 0
        invariant
            -18 <= d <= 18,
            0 <= done <= set.members().len(),
            forall|t: int| #[trigger] set.has(t) ==> 0 <= t - d < 64,
            forall|t: int| #[trigger] left.has(t) ==> set.has(t),
            left.members() == set.members().skip(done),
            list.moves() == start + moves_by(d as int, set.members()).take(done),
        decreases left.members().len(),
    {
        let to = left.pop_lsb();
        assert(set.has(to.idx()));
        let from = Square::new((to.index() as i32 - d) as usize);
        list.push_move(Move::new(from, to));
        proof {
            let all = moves_by(d as int, set.members());
            assert(all[done] == plain(to.idx() - d, to.idx()));
            assert(all.take(done + 1) =~= all.take(done).push(all[done]));
            done = done + 1;
        }
    }
    proof {
        bits::lemma_members_empty(left.0);
        let all = moves_by(d as int, set.members());
        assert(all.take(done) =~= all);
    }
}

/// Append the moves of one promotion.
fn push_promotion<S: MoveSink>(list: &mut S, gt: GenType, captures: bool, from: Square, to: Square)
    ensures
        final(list).moves() == old(list).moves() + promotions(gt, captures, from.idx(), to.idx()),
{
    if gt != GenType::Quiets {
        list.push_move(Move::typed(MoveType::Promotion, from, to, PieceType::Queen));
    }
    let under = match gt {
        GenType::Captures => captures,
        GenType::Quiets => !captures,
        _ => true,
    };
    if under {
        list.push_move(Move::typed(MoveType::Promotion, from, to, PieceType::Rook));
        list.push_move(Move::typed(MoveType::Promotion, from, to, PieceType::Bishop));
        list.push_move(Move::typed(MoveType::Promotion, from, to, PieceType::Knight));
    }
    assert(list.moves() =~= old(list).moves() + promotions(gt, captures, from.idx(), to.idx()));
}

/// Append the promotions that step by `d` onto every member of `set`.
fn push_promotions<S: MoveSink>(list: &mut S, gt: GenType, captures: bool, d: i32, set: Bitboard)
    requires
        -9 <= d <= 9,
        forall|t: int| #[trigger] set.has(t) ==> 0 <= t - d < 64,
    ensures
        final(list).moves() == old(list).moves() + promotions_by(
            gt,
            captures,
            d as int,
            set.members(),
        ),
{
    broadcast use Square::lemma_idx;

    let ghost start = list.moves();
    let ghost all = promotions_by(gt, captures, d as int, set.members());
    let mut left = set;
    assert(list.moves() + all =~= start + all);
    while left.0 != 0
        invariant
            -9 <= d <= 9,
            forall|t: int| #[trigger] set.has(t) ==> 0 <= t - d < 64,
            forall|t: int| #[trigger] left.has(t) ==> set.has(t),
            list.moves() + promotions_by(gt, captures, d as int, left.members()) == start + all,
        decreases left.members().len(),
    {
        let ghost before = list.moves();
        let ghost rest = left.members();
        let to = left.pop_lsb();
        assert(set.has(to.idx()));
        let from = Square::new((to.index() as i32 - d) as usize);
        push_promotion(list, gt, captures, from, to);
        proof {
            let here = promotions(gt, captures, to.idx() - d, to.idx());
            let more = promotions_by(gt, captures, d as int, left.members());
            assert(promotions_by(gt, captures, d as int, rest) == here + more);
            assert((before + here) + more =~= before + (here + more));
        }
    }
    proof {
        bits::lemma_members_empty(left.0);
        assert(list.moves() + promotions_by(gt, captures, d as int, left.members()) =~= list.moves());
    }
}

/// Append the en-passant captures of the pawns in `set`.
fn push_ep_captures<S: MoveSink>(list: &mut S, ep: Square, set: Bitboard)
    ensures
        final(list).moves() == old(list).moves() + ep_captures(ep.idx(), set.members()),
{
    broadcast use Square::lemma_idx;

    let ghost start = list.moves();
    let mut left = set;
    let ghost mut done: int = 0;
    proof {
        bits::lemma_members(set.0);
    }
    while left.0 != 0
        invariant
            0 <= done <= set.members().len(),
            left.members() == set.members().skip(done),
            list.moves() == start + ep_captures(ep.idx(), set.members()).take(done),
        decreases left.members().len(),
    {
        let from = left.pop_lsb();
        list.push_move(Move::typed(MoveType::EnPassant, from, ep, PieceType::Knight));
        proof {
            let all = ep_captures(ep.idx(), set.members());
            assert(all[done] == Move::pack(
                MoveType::EnPassant,
                from.idx(),
                ep.idx(),
                PieceType::Knight,
            ));
            assert(all.take(done + 1) =~= all.take(done).push(all[done]));
            done = done + 1;
        }
    }
    proof {
        bits::lemma_members_empty(left.0);
        let all = ep_captures(ep.idx(), set.members());
        assert(all.take(done) =~= all);
    }
}

/// Append the pawns' moves.
fn generate_pawn_moves<S: MoveSink>(pos: &Position, gt: GenType, line: Bitboard, list: &mut S)
    requires
        pos.wf(),
        forall|t: int| #[trigger]
            line.has(t) == (0 <= t < 64 && pos.node().target(GenType::Evasions, t)),
    ensures
        final(list).moves() == old(list).moves() + pos.node().pawn_moves(gt),
{
    broadcast use {bits::group_bits, Square::lemma_idx};

    let ghost n = pos.node();
    let ghost start = list.moves();
    let us = pos.side_to_move;
    let answering = gt == GenType::Evasions || pos.in_check();
    let seventh = relative_rank_bb(us, 6);
    let pawns = pos.pieces_of(us, PieceType::Pawn);
    let on_seventh = pawns & seventh;
    let not_on_seventh = Bitboard(pawns.0 & !seventh.0);
    let empty = Bitboard(!pos.occupied().0);
    // In answer to a check only the checkers can be captured.
    let prey = if answering {
        pos.checkers()
    } else {
        pos.colored(us.flip())
    };
    assert forall|t: int| 0 <= t < 64 implies #[trigger] prey.has(t) == n.prey(gt, t) by {}
    assert forall|d: Direction, t: int| 0 <= t < 64 implies #[trigger] on_seventh.stepped(d, t)
        == pawn_arrives(n.b, n.stm, d, true, t) by {}
    assert forall|d: Direction, t: int| 0 <= t < 64 implies #[trigger] not_on_seventh.stepped(d, t)
        == pawn_arrives(n.b, n.stm, d, false, t) by {}
    let blocks = if answering {
        line
    } else {
        Bitboard::all()
    };
    assert forall|t: int| 0 <= t < 64 implies #[trigger] blocks.has(t) == n.push_counts(gt, t) by {}
    generate_pushes(pos, gt, not_on_seventh, empty, blocks, list);
    let ghost l1 = list.moves();
    generate_promotions(pos, gt, on_seventh, prey, empty, blocks, list);
    let ghost l2 = list.moves();
    generate_captures(pos, gt, not_on_seventh, prey, line, list);
    assert(list.moves() =~= start + n.pawn_moves(gt));
}

/// Append the pushes that do not promote.
fn generate_pushes<S: MoveSink>(
    pos: &Position,
    gt: GenType,
    pawns: Bitboard,
    empty: Bitboard,
    blocks: Bitboard,
    list: &mut S,
)
    requires
        pos.wf(),
        forall|d: Direction, t: int|
            0 <= t < 64 ==> #[trigger] pawns.stepped(d, t) == pawn_arrives(
                pos.board@,
                pos.side_to_move,
                d,
                false,
                t,
            ),
        forall|t: int| 0 <= t < 64 ==> #[trigger] empty.has(t) == (pos.board@[t] == Piece::NONE),
        forall|t: int| 0 <= t < 64 ==> #[trigger] blocks.has(t) == pos.node().push_counts(gt, t),
    ensures
        final(list).moves() == old(list).moves() + pos.node().pushes(gt),
{
    broadcast use {bits::group_bits, Square::lemma_idx};

    let ghost n = pos.node();
    let ghost start = list.moves();
    if gt == GenType::Captures {
        assert(list.moves() =~= start + n.pushes(gt));
        return ;
    }
    let us = pos.side_to_move;
    let up = Direction::pawn_push(us);
    let singles = pawns.shift(up) & empty;
    let third = relative_rank_bb(us, 2);
    let doubles = (singles & third).shift(up) & empty;
    let b1 = singles & blocks;
    let b2 = doubles & blocks;
    assert forall|t: int| 0 <= t < 64 implies #[trigger] singles.has(t) == n.single_push(t) by {}
    assert forall|t: int| 0 <= t < 64 implies #[trigger] doubles.has(t) == n.double_push(t) by {
        let st = Bitboard(singles.0 & third.0);
        assert(doubles.has(t) == (st.stepped(up, t) && empty.has(t)));
    }
    let u: i32 = up.offset();
    push_by(list, u, b1);
    let ghost mid = list.moves();
    push_by(list, 2 * u, b2);
    proof {
        lemma_squares(b1.0, |t: int| n.single_push(t) && n.push_counts(gt, t));
        lemma_squares(b2.0, |t: int| n.double_push(t) && n.push_counts(gt, t));
        assert(list.moves() =~= start + n.pushes(gt));
    }
}

/// Append the promotions: captures to the right, captures to the left, pushes.
fn generate_promotions<S: MoveSink>(
    pos: &Position,
    gt: GenType,
    pawns: Bitboard,
    prey: Bitboard,
    empty: Bitboard,
    blocks: Bitboard,
    list: &mut S,
)
    requires
        pos.wf(),
        forall|d: Direction, t: int|
            0 <= t < 64 ==> #[trigger] pawns.stepped(d, t) == pawn_arrives(
                pos.board@,
                pos.side_to_move,
                d,
                true,
                t,
            ),
        forall|t: int| 0 <= t < 64 ==> #[trigger] prey.has(t) == pos.node().prey(gt, t),
        forall|t: int| 0 <= t < 64 ==> #[trigger] empty.has(t) == (pos.board@[t] == Piece::NONE),
        forall|t: int| 0 <= t < 64 ==> #[trigger] blocks.has(t) == pos.node().push_counts(gt, t),
    ensures
        final(list).moves() == old(list).moves() + pos.node().promoting(gt),
{
    broadcast use {bits::group_bits, Square::lemma_idx};

    let ghost n = pos.node();
    let ghost start = list.moves();
    let us = pos.side_to_move;
    let (right, left) = capture_directions(us);
    let up = Direction::pawn_push(us);
    let b1 = pawns.shift(right) & prey;
    let b2 = pawns.shift(left) & prey;
    let b3 = (pawns.shift(up) & empty) & blocks;
    push_promotions(list, gt, true, right.offset(), b1);
    push_promotions(list, gt, true, left.offset(), b2);
    push_promotions(list, gt, false, up.offset(), b3);
    proof {
        let r = right_of(n.stm);
        let l = left_of(n.stm);
        let u = Direction::forward(n.stm);
        lemma_squares(
            b1.0,
            |t: int| pawn_arrives(n.b, n.stm, r, true, t) && n.prey(gt, t),
        );
        lemma_squares(
            b2.0,
            |t: int| pawn_arrives(n.b, n.stm, l, true, t) && n.prey(gt, t),
        );
        lemma_squares(
            b3.0,
            |t: int|
                pawn_arrives(n.b, n.stm, u, true, t) && n.b[t] == Piece::NONE && n.push_counts(gt, t),
        );
        assert(list.moves() =~= start + n.promoting(gt));
    }
}

/// The two directions in which `c`'s pawns capture: to the right and to the left.
fn capture_directions(c: Color) -> (r: (Direction, Direction))
    ensures
        r.0 == right_of(c),
        r.1 == left_of(c),
{
    match c {
        Color::White => (Direction::NorthEast, Direction::NorthWest),
        Color::Black => (Direction::SouthWest, Direction::SouthEast),
    }
}

/// Append the ordinary captures and the en-passant captures.
fn generate_captures<S: MoveSink>(
    pos: &Position,
    gt: GenType,
    pawns: Bitboard,
    prey: Bitboard,
    line: Bitboard,
    list: &mut S,
)
    requires
        pos.wf(),
        forall|d: Direction, t: int|
            0 <= t < 64 ==> #[trigger] pawns.stepped(d, t) == pawn_arrives(
                pos.board@,
                pos.side_to_move,
                d,
                false,
                t,
            ),
        forall|s: int| #[trigger]
            pawns.has(s) == (0 <= s < 64 && pos.board@[s] == Piece::of(
                pos.side_to_move,
                PieceType::Pawn,
            ) && Square::rel_rank(s, pos.side_to_move) != 6),
        forall|t: int| 0 <= t < 64 ==> #[trigger] prey.has(t) == pos.node().prey(gt, t),
        forall|t: int| #[trigger]
            line.has(t) == (0 <= t < 64 && pos.node().target(GenType::Evasions, t)),
    ensures
        final(list).moves() == old(list).moves() + pos.node().pawn_captures(gt),
{
    broadcast use {bits::group_bits, Square::lemma_idx};

    let ghost n = pos.node();
    let ghost start = list.moves();
    if gt == GenType::Quiets {
        assert(list.moves() =~= start + n.pawn_captures(gt));
        return ;
    }
    let us = pos.side_to_move;
    let (right, left) = capture_directions(us);
    let b1 = pawns.shift(right) & prey;
    let b2 = pawns.shift(left) & prey;
    push_by(list, right.offset(), b1);
    push_by(list, left.offset(), b2);
    let ghost r = right_of(n.stm);
    let ghost l = left_of(n.stm);
    let ghost mid = moves_by(
        r.delta(),
        squares(|t: int| pawn_arrives(n.b, n.stm, r, false, t) && n.prey(gt, t)),
    ) + moves_by(
        l.delta(),
        squares(|t: int| pawn_arrives(n.b, n.stm, l, false, t) && n.prey(gt, t)),
    );
    proof {
        lemma_squares(
            b1.0,
            |t: int| pawn_arrives(n.b, n.stm, r, false, t) && n.prey(gt, t),
        );
        lemma_squares(
            b2.0,
            |t: int| pawn_arrives(n.b, n.stm, l, false, t) && n.prey(gt, t),
        );
        assert(list.moves() =~= start + mid);
    }
    match pos.ep_square() {
        SquareOrNone::At(ep) => {
            // An en-passant capture cannot resolve a discovered check: it removes the pawn
            // that blocked the line, so the check remains.
            let up = Direction::pawn_push(us);
            let behind = ep.shift(up);
            if (gt == GenType::Evasions || pos.in_check()) && line.contains(behind) {
                assert(n.en_passant(gt) =~= Seq::<Move>::empty());
                assert(list.moves() =~= start + n.pawn_captures(gt));
                return ;
            }
            let takers = pawn_attacks_from(us.flip(), ep) & pawns;
            push_ep_captures(list, ep, takers);
            proof {
                lemma_squares(
                    takers.0,
                    |s: int|
                        bitboard::pawn_hits(n.stm.opp(), ep.idx(), s) && n.b[s] == Piece::of(
                            n.stm,
                            PieceType::Pawn,
                        ) && Square::rel_rank(s, n.stm) != 6,
                );
                assert(list.moves() =~= start + n.pawn_captures(gt));
            }
        },
        SquareOrNone::NONE => {
            assert(list.moves() =~= start + n.pawn_captures(gt));
        },
    }
}

/// Append the moves of every piece of type `pt`.
fn generate_piece_moves<S: MoveSink>(
    pos: &Position,
    gt: GenType,
    pt: PieceType,
    target: Bitboard,
    list: &mut S,
)
    requires
        pos.wf(),
        pt != PieceType::NoType,
        pt != PieceType::Pawn,
        forall|t: int| #[trigger] target.has(t) == (0 <= t < 64 && pos.node().target(gt, t)),
    ensures
        final(list).moves() == old(list).moves() + pos.node().piece_moves(gt, pt),
{
    broadcast use {bits::group_bits, Square::lemma_idx};

    let ghost n = pos.node();
    let ghost start = list.moves();
    let us = pos.side_to_move;
    let occ = pos.occupied();
    let all = pos.pieces_of(us, pt);
    let mut left = all;
    proof {
        lemma_squares(all.0, |s: int| n.b[s] == Piece::of(n.stm, pt));
        assert(list.moves() + n.steps_of(gt, pt, left.members()) =~= start + n.piece_moves(gt, pt));
    }
    while left.0 != 0
        invariant
            pos.wf(),
            pt != PieceType::NoType,
            pt != PieceType::Pawn,
            n == pos.node(),
            occ.0 == placement::occ(n.b),
            us == n.stm,
            forall|t: int| #[trigger] target.has(t) == (0 <= t < 64 && n.target(gt, t)),
            list.moves() + n.steps_of(gt, pt, left.members()) == start + n.piece_moves(gt, pt),
        decreases left.members().len(),
    {
        let ghost before = list.moves();
        let ghost rest = left.members();
        let from = left.pop_lsb();
        let reach = piece_attacks(pt, from, occ);
        let tos = reach & target;
        push_from(list, from, tos);
        proof {
            broadcast use bits::group_bits;

            assert forall|t: int| 0 <= t < 64 implies #[trigger] bits::bit(tos.0, t) == (attacks::hits(
                n.stm,
                pt,
                placement::occ(n.b),
                from.idx(),
                t,
            ) && n.target(gt, t)) by {
                assert(reach.has(t) == attacks::hits(n.stm, pt, occ.0, from.idx(), t));
            }
            lemma_squares(
                tos.0,
                |t: int|
                    attacks::hits(n.stm, pt, placement::occ(n.b), from.idx(), t) && n.target(gt, t),
            );
            let here = n.piece_steps(gt, pt, from.idx());
            let more = n.steps_of(gt, pt, left.members());
            assert(n.steps_of(gt, pt, rest) == here + more);
            assert((before + here) + more =~= before + (here + more));
        }
    }
    proof {
        bits::lemma_members_empty(left.0);
        assert(list.moves() + n.steps_of(gt, pt, left.members()) =~= list.moves());
    }
}

/// Append the king's moves.
fn generate_king_moves<S: MoveSink>(pos: &Position, gt: GenType, list: &mut S)
    requires
        pos.wf(),
    ensures
        final(list).moves() == old(list).moves() + pos.node().king_moves(gt),
{
    broadcast use {bits::group_bits, Square::lemma_idx};

    let ghost n = pos.node();
    let us = pos.side_to_move;
    let ksq = pos.king_square(us);
    let goal = wanted_set(pos, gt);
    let tos = king_attacks(ksq) & goal;
    push_from(list, ksq, tos);
    proof {
        let k = placement::king(n.b, n.stm);
        lemma_squares(
            tos.0,
            |t: int| bitboard::king_hits(k, t) && wanted(n.b, n.stm, gt, t),
        );
    }
}

/// The squares that a kind of generation asks for.
fn wanted_set(pos: &Position, gt: GenType) -> (r: Bitboard)
    requires
        pos.wf(),
    ensures
        forall|t: int| #[trigger]
            r.has(t) == (0 <= t < 64 && wanted(pos.board@, pos.side_to_move, gt, t)),
{
    broadcast use bits::group_bits;

    let us = pos.side_to_move;
    match gt {
        GenType::Captures => pos.colored(us.flip()),
        GenType::Quiets => Bitboard(!pos.occupied().0),
        _ => Bitboard(!pos.colored(us).0),
    }
}

/// Append the castling move on one wing, when it can be made.
fn generate_castle<S: MoveSink>(pos: &Position, king_side: bool, list: &mut S)
    requires
        pos.wf(),
    ensures
        final(list).moves() == old(list).moves() + pos.node().castle_move(king_side),
{
    let ghost n = pos.node();
    let us = pos.side_to_move;
    let cr = if king_side {
        CastlingRights::king_side(us)
    } else {
        CastlingRights::queen_side(us)
    };
    assert(cr == CastlingRights::wing(us, king_side));
    if pos.can_castle(cr) && !pos.castling_impeded(cr) {
        assert(n.castle_open(king_side));
        assert(pos.castling.right_wf(n.b, us, king_side));
        // The move names the rook's square as its destination, which is what makes Chess960
        // castling fit the same 16 bits as every other move.
        let rook = pos.castling_rook_square(cr).unwrap();
        list.push_move(
            Move::typed(MoveType::Castling, pos.king_square(us), rook, PieceType::Knight),
        );
    }
    assert(list.moves() =~= old(list).moves() + n.castle_move(king_side));
}

/// Append the castling moves.
fn generate_castling<S: MoveSink>(pos: &Position, list: &mut S)
    requires
        pos.wf(),
    ensures
        final(list).moves() == old(list).moves() + (pos.node().castle_move(true)
            + pos.node().castle_move(false)),
{
    generate_castle(pos, true, list);
    generate_castle(pos, false, list);
    assert(list.moves() =~= old(list).moves() + (pos.node().castle_move(true)
        + pos.node().castle_move(false)));
}

/// The destinations of the pieces other than the king.
fn target_set(pos: &Position, gt: GenType) -> (r: Bitboard)
    requires
        pos.wf(),
        pos.top().checkers.members().len() < 2,
    ensures
        forall|t: int| #[trigger] r.has(t) == (0 <= t < 64 && pos.node().target(gt, t)),
{
    broadcast use bits::group_bits;

    let us = pos.side_to_move;
    let checkers = pos.checkers();
    if checkers.any() {
        // A single check: block on the line, or capture the checker.
        let line = between_bb(pos.king_square(us), checkers.lsb());
        match gt {
            GenType::Captures => line & pos.colored(us.flip()),
            GenType::Quiets => Bitboard(line.0 & !pos.occupied().0),
            _ => line,
        }
    } else {
        wanted_set(pos, gt)
    }
}

/// Generate the pseudo-legal moves of kind `gt` into an existing list.
///
/// When the side to move is in check, every kind is answered from the moves that could answer
/// the check.
pub fn generate_into<S: MoveSink>(pos: &Position, gt: GenType, list: &mut S)
    requires
        pos.wf(),
    ensures
        final(list).moves() == old(list).moves() + pos.node().pseudo(gt),
{
    let ghost n = pos.node();
    let ghost start = list.moves();
    if pos.checkers().more_than_one() {
        // A double check can only be answered by a king move.
        generate_king_moves(pos, gt, list);
        return ;
    }
    let target = target_set(pos, gt);
    let line = target_set(pos, GenType::Evasions);
    generate_pawn_moves(pos, gt, line, list);
    generate_piece_moves(pos, gt, PieceType::Knight, target, list);
    generate_piece_moves(pos, gt, PieceType::Bishop, target, list);
    generate_piece_moves(pos, gt, PieceType::Rook, target, list);
    generate_piece_moves(pos, gt, PieceType::Queen, target, list);
    generate_king_moves(pos, gt, list);
    if !pos.in_check() && (gt == GenType::Quiets || gt == GenType::NonEvasions) {
        generate_castling(pos, list);
    }
    assert(list.moves() =~= start + n.pseudo(gt));
}

/// Generate the pseudo-legal moves of kind `gt`.
pub fn generate(pos: &Position, gt: GenType) -> (r: MoveList)
    requires
        pos.wf(),
    ensures
        r@ == pos.node().pseudo(gt),
{
    let mut list = MoveList::new();
    generate_into(pos, gt, &mut list);
    assert(list@ =~= pos.node().pseudo(gt));
    list
}

} // verus!
