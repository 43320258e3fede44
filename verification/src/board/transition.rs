//! Making and unmaking moves.
//!
//! The spec functions here say what a move does to a placement and which moves a position
//! can make. The laws at the end relate the transitions: undoing a move gives the position
//! back that the move was made in.

use vstd::prelude::*;
use crate::board::bitboard::{pawn_attacks_from, Bitboard};
use crate::board::bitboard;
use crate::board::bits;
use crate::board::placement::Board;
use crate::board::placement;
use crate::board::position::{Castling, Position};
use crate::board::position;
use crate::board::state::{lift, place, survey, StateInfo};
use crate::board::state;
use crate::board::tally;
use crate::board::types::{
    CastlingRights, Color, Direction, File, Key, Move, MoveType, Piece, PieceType, Square,
    SquareOrNone,
};
use crate::board::zobrist::Tables;
use crate::board::zobrist;

verus! {

// ---------------------------------------------------------------------------
// What a move does
// ---------------------------------------------------------------------------

/// The square a move of `us` takes on: its destination, or the square behind it for an
/// en-passant capture.
pub open spec fn capture_square(us: Color, m: Move) -> int {
    if m.kind() == MoveType::EnPassant {
        m.dst() - Direction::forward(us).delta()
    } else {
        m.dst()
    }
}

/// The piece that stands on the destination after a move that is not castling.
pub open spec fn arriving(b: Seq<Piece>, us: Color, m: Move) -> Piece {
    if m.kind() == MoveType::Promotion {
        Piece::of(us, m.promo())
    } else {
        b[m.src()]
    }
}

/// The placement after `us` makes the move `m`.
pub open spec fn board_after(b: Seq<Piece>, us: Color, m: Move) -> Seq<Piece> {
    if m.kind() == MoveType::Castling {
        let ks = m.dst() > m.src();
        b.update(m.src(), Piece::NONE).update(m.dst(), Piece::NONE).update(
            position::castle_king_to(m.src(), ks),
            b[m.src()],
        ).update(position::castle_rook_to(m.src(), ks), b[m.dst()])
    } else {
        b.update(capture_square(us, m), Piece::NONE).update(m.src(), Piece::NONE).update(
            m.dst(),
            arriving(b, us, m),
        )
    }
}

/// What a move of `us` captures.
pub open spec fn captured_by(b: Seq<Piece>, us: Color, m: Move) -> Piece {
    if m.kind() == MoveType::Castling {
        Piece::NONE
    } else {
        b[capture_square(us, m)]
    }
}

/// A pawn of `us` makes a double step.
pub open spec fn double_step(b: Seq<Piece>, m: Move) -> bool {
    &&& m.kind() != MoveType::Castling
    &&& b[m.src()].kind() == PieceType::Pawn
    &&& bitboard::gap(m.src(), m.dst()) == 16
}

/// The en-passant target after `us` makes the move `m`: the square a double step passed
/// over, when an enemy pawn can take there.
pub open spec fn ep_after(b: Seq<Piece>, us: Color, m: Move) -> SquareOrNone {
    let s = m.dst() - Direction::forward(us).delta();
    if double_step(b, m) && exists|p: int| #[trigger]
        position::ep_taker(board_after(b, us, m), us.opp(), s, p) {
        SquareOrNone::At(Square::at(s))
    } else {
        SquareOrNone::NONE
    }
}

/// The rights left after a move: a king or rook that leaves or is captured ends its rights.
pub open spec fn rights_after(rights: CastlingRights, c: Castling, m: Move) -> CastlingRights {
    rights.minus(c.mask@[m.src()].or(c.mask@[m.dst()]))
}

/// `us` can make the move `m` on the placement `b`: its own piece moves, nothing of its own
/// and no king is taken, and the special kinds find the pieces they need.
pub open spec fn can_make(b: Seq<Piece>, us: Color, m: Move) -> bool {
    let from = m.src();
    let to = m.dst();
    let pc = b[from];
    &&& from != to
    &&& pc.is_real()
    &&& pc.side() == us
    &&& match m.kind() {
        MoveType::Castling => {
            let kt = position::castle_king_to(from, to > from);
            let rt = position::castle_rook_to(from, to > from);
            &&& pc == Piece::of(us, PieceType::King)
            &&& b[to] == Piece::of(us, PieceType::Rook)
            &&& kt == from || kt == to || b[kt] == Piece::NONE
            &&& rt == from || rt == to || b[rt] == Piece::NONE
        },
        MoveType::EnPassant => {
            &&& pc.kind() == PieceType::Pawn
            &&& bitboard::gap(from, to) != 16
            &&& b[to] == Piece::NONE
            &&& 0 <= capture_square(us, m) < 64
            &&& b[capture_square(us, m)] == Piece::of(us.opp(), PieceType::Pawn)
        },
        MoveType::Promotion => {
            &&& pc.kind() == PieceType::Pawn
            &&& bitboard::gap(from, to) != 16
            &&& takeable(b, us, to)
            &&& tally::count_of(b, Piece::of(us, m.promo())) < 56
        },
        MoveType::Normal => {
            &&& takeable(b, us, to)
            &&& (pc.kind() == PieceType::Pawn && bitboard::gap(from, to) == 16) ==> {
                &&& to == from + 2 * Direction::forward(us).delta()
                &&& Square::rel_rank(from, us) == 1
                &&& b[from + Direction::forward(us).delta()] == Piece::NONE
                &&& b[to] == Piece::NONE
            }
        },
    }
}

/// The square is empty or holds an enemy piece that is not a king.
pub open spec fn takeable(b: Seq<Piece>, us: Color, t: int) -> bool {
    b[t] == Piece::NONE || (b[t].side() == us.opp() && b[t].kind() != PieceType::King)
}

impl Position {
    /// The position can make the move `m` without a clock running over.
    pub open spec fn accepts(&self, m: Move) -> bool {
        &&& can_make(self.board@, self.side_to_move, m)
        &&& self.top().rule50 < i32::MAX
        &&& self.top().plies_from_null < i32::MAX
        &&& self.game_ply < i32::MAX
    }

    /// True when the move can be made.
    pub fn is_playable(&self, m: Move) -> (r: bool)
        requires
            self.sound(),
        ensures
            r == self.accepts(m),
    {
        broadcast use {Square::lemma_idx, Square::lemma_inj, Square::lemma_at};

        let us = self.side_to_move;
        let from = m.from();
        let to = m.to();
        let pc = self.piece_on(from);
        let st = self.st();
        if st.rule50 == i32::MAX || st.plies_from_null == i32::MAX || self.game_ply == i32::MAX {
            return false;
        }
        if from == to || pc.piece_type() == PieceType::NoType || pc.color() != us {
            return false;
        }
        let fi: i32 = from.index() as i32;
        let ti: i32 = to.index() as i32;
        let fwd: i32 = Direction::pawn_push(us).offset();
        let gap16 = fi - ti == 16 || ti - fi == 16;
        let target = self.piece_on(to);
        let open = target == Piece::NONE || (target.color() == us.flip() && target.piece_type()
            != PieceType::King);
        match m.move_type() {
            MoveType::Castling => {
                let (kt, rt) = castle_squares(from, to);
                pc == Piece::new(us, PieceType::King) && target == Piece::new(us, PieceType::Rook) && (
                kt == from || kt == to || self.is_empty_square(kt)) && (rt == from || rt == to
                    || self.is_empty_square(rt))
            },
            MoveType::EnPassant => {
                if pc.piece_type() != PieceType::Pawn || gap16 || target != Piece::NONE {
                    return false;
                }
                if ti - fwd < 0 || ti - fwd >= 64 {
                    return false;
                }
                self.piece_on(Square::new((ti - fwd) as usize)) == Piece::new(
                    us.flip(),
                    PieceType::Pawn,
                )
            },
            MoveType::Promotion => {
                pc.piece_type() == PieceType::Pawn && !gap16 && open && self.count(
                    us,
                    m.promotion_type(),
                ) < 56
            },
            MoveType::Normal => {
                if !open {
                    return false;
                }
                if pc.piece_type() == PieceType::Pawn && gap16 {
                    if ti != fi + 2 * fwd || from.relative_rank(us).index() != 1 {
                        return false;
                    }
                    self.is_empty_square(Square::new((fi + fwd) as usize)) && target == Piece::NONE
                } else {
                    true
                }
            },
        }
    }
}

/// The squares the king and the rook land on when the king on `from` castles with the rook
/// on `to`.
pub fn castle_squares(from: Square, to: Square) -> (r: (Square, Square))
    ensures
        r.0.idx() == position::castle_king_to(from.idx(), to.idx() > from.idx()),
        r.1.idx() == position::castle_rook_to(from.idx(), to.idx() > from.idx()),
{
    let king_side = to.index() > from.index();
    if king_side {
        (Square::make(File::G, from.rank()), Square::make(File::F, from.rank()))
    } else {
        (Square::make(File::C, from.rank()), Square::make(File::D, from.rank()))
    }
}

// ---------------------------------------------------------------------------
// Repetitions
// ---------------------------------------------------------------------------

/// The repetition mark of the last state, looking back from `i` plies on, two at a time, no
/// further than `end` plies or the start of the chain.
pub open spec fn repeats_from(states: Seq<StateInfo>, key: u64, last: int, end: int, i: int) -> int
    decreases end - i + 2,
{
    if i > end || last - i < 0 {
        0
    } else if states[last - i].key == key {
        if states[last - i].repetition != 0 {
            -i
        } else {
            i
        }
    } else {
        repeats_from(states, key, last, end, i + 2)
    }
}

/// The smaller of two numbers.
pub open spec fn lesser(a: int, b: int) -> int {
    if a <= b {
        a
    } else {
        b
    }
}

/// The repetition mark of a state that is appended to the chain `states`.
pub open spec fn repetition_of(states: Seq<StateInfo>, st: StateInfo) -> int {
    repeats_from(
        states,
        st.key,
        states.len() as int,
        lesser(st.rule50 as int, st.plies_from_null as int),
        4,
    )
}

/// How far back the position of `st`, appended to `states`, last occurred: positive for a
/// first repetition, negative when the earlier occurrence was itself one, 0 for never.
fn find_repetition(states: &Vec<StateInfo>, st: &StateInfo) -> (r: i32)
    ensures
        r == repetition_of(states@, *st),
{
    let last: usize = states.len();
    let end: i32 = if st.rule50 <= st.plies_from_null {
        st.rule50
    } else {
        st.plies_from_null
    };
    let mut i: i32 = 4;
    while i <= end && i as usize <= last
        invariant
            4 <= i,
            last == states@.len(),
            end == lesser(st.rule50 as int, st.plies_from_null as int),
            repetition_of(states@, *st) == repeats_from(
                states@,
                st.key,
                last as int,
                end as int,
                i as int,
            ),
        decreases end - i + 2,
    {
        let idx: usize = last - i as usize;
        if states[idx].key == st.key {
            return if states[idx].repetition != 0 {
                -i
            } else {
                i
            };
        }
        if i > i32::MAX - 2 {
            assert(repeats_from(states@, st.key, last as int, end as int, i + 2) == 0);
            return 0;
        }
        i += 2;
    }
    0
}

// ---------------------------------------------------------------------------
// Facts about the placement after a move
// ---------------------------------------------------------------------------

/// Which squares a move changes, and that it keeps both kings and every count in range.
pub proof fn lemma_after(b: Seq<Piece>, us: Color, m: Move)
    requires
        placement::clean(b),
        placement::kings(b),
        state::roomy(b),
        can_make(b, us, m),
    ensures
        placement::clean(board_after(b, us, m)),
        placement::kings(board_after(b, us, m)),
        state::roomy(board_after(b, us, m)),
        forall|i: int|
            0 <= i < 64 && i != m.src() && i != m.dst() && i != capture_square(us, m) && (m.kind()
                == MoveType::Castling ==> i != position::castle_king_to(m.src(), m.dst() > m.src()) && i
                != position::castle_rook_to(m.src(), m.dst() > m.src())) ==> #[trigger] board_after(
                b,
                us,
                m,
            )[i] == b[i],
{
    let from = m.src();
    let to = m.dst();
    let a = board_after(b, us, m);
    if m.kind() == MoveType::Castling {
        let kt = position::castle_king_to(from, to > from);
        let rt = position::castle_rook_to(from, to > from);
        let b1 = b.update(from, Piece::NONE);
        let b2 = b1.update(to, Piece::NONE);
        let b3 = b2.update(kt, b[from]);
        assert(b1[to] == b[to]);
        assert(b2[kt] == Piece::NONE);
        assert(b3[rt] == Piece::NONE);
        assert forall|pc: Piece| pc.is_real() implies #[trigger] tally::count_of(a, pc) == tally::count_of(
            b,
            pc,
        ) by {
            tally::lemma_count_update(b, pc, from, Piece::NONE, 64);
            tally::lemma_count_update(b1, pc, to, Piece::NONE, 64);
            tally::lemma_count_update(b2, pc, kt, b[from], 64);
            tally::lemma_count_update(b3, pc, rt, b[to], 64);
        }
    } else {
        let cap = capture_square(us, m);
        let p = arriving(b, us, m);
        let b1 = b.update(cap, Piece::NONE);
        let b2 = b1.update(from, Piece::NONE);
        assert(cap != from);
        assert(b1[from] == b[from]);
        assert(b2[to] == Piece::NONE);
        assert forall|pc: Piece| pc.is_real() implies #[trigger] tally::count_of(a, pc) <= 56 && (
        pc.kind() == PieceType::King ==> tally::count_of(a, pc) == tally::count_of(b, pc)) by {
            tally::lemma_count_update(b, pc, cap, Piece::NONE, 64);
            tally::lemma_count_update(b1, pc, from, Piece::NONE, 64);
            tally::lemma_count_update(b2, pc, to, p, 64);
            assert(tally::count_of(b, pc) <= 56);
        }
        assert(tally::count_of(a, Piece::W_KING) == tally::count_of(b, Piece::W_KING));
        assert(tally::count_of(a, Piece::B_KING) == tally::count_of(b, Piece::B_KING));
    }
}

/// A right that survives a move keeps its king, its rook and its data.
pub proof fn lemma_castling_kept(c: Castling, b: Seq<Piece>, rights: CastlingRights, us: Color, m: Move)
    requires
        placement::clean(b),
        placement::kings(b),
        state::roomy(b),
        can_make(b, us, m),
        c.wf(b, rights),
    ensures
        c.wf(board_after(b, us, m), rights_after(rights, c, m)),
{
    let a = board_after(b, us, m);
    let left = rights_after(rights, c, m);
    lemma_after(b, us, m);
    assert forall|d: Color, ks: bool| left.has(#[trigger] CastlingRights::wing(d, ks)) implies c.right_wf(
        a,
        d,
        ks,
    ) by {
        let cr = CastlingRights::wing(d, ks);
        assert(rights.has(cr));
        assert(c.right_wf(b, d, ks));
        let k = placement::king(b, d);
        let r = c.rook_square@[cr.nibble()]->At_0.idx();
        placement::lemma_king(b, d);
        assert(m.src() != k && m.src() != r && m.dst() != k && m.dst() != r);
        assert(capture_square(us, m) != k && capture_square(us, m) != r);
        assert(a[k] == b[k] && a[r] == b[r]);
        placement::lemma_king(a, d);
        assert(placement::king(a, d) == k);
    }
}

/// A target that a double step leaves is an en-passant target.
pub proof fn lemma_ep_after(b: Seq<Piece>, us: Color, m: Move)
    requires
        placement::clean(b),
        placement::kings(b),
        state::roomy(b),
        can_make(b, us, m),
    ensures
        ep_after(b, us, m) matches SquareOrNone::At(s) ==> position::ep_ok(
            board_after(b, us, m),
            us.opp(),
            s.idx(),
        ) && s.idx() == m.dst() - Direction::forward(us).delta(),
{
    broadcast use {Square::lemma_at, Square::lemma_idx};

    if ep_after(b, us, m) is At {
        let s = m.dst() - Direction::forward(us).delta();
        lemma_after(b, us, m);
        assert(0 <= s < 64);
        assert(Square::at(s).idx() == s);
    }
}

/// How the extras of a key change when one of them does.
proof fn lemma_extras_steps(k: u64, x: u64, e: u64, s: u64, c: u64, d: u64)
    ensures
        k ^ x == (e ^ s) ^ c ==> (k ^ d) ^ x == ((e ^ d) ^ s) ^ c,
        k ^ x == (e ^ s) ^ c ==> (k ^ d) ^ x == (e ^ (s ^ d)) ^ c,
        k ^ x == (e ^ s) ^ c ==> (k ^ d) ^ x == (e ^ s) ^ (c ^ d),
        d ^ d == 0,
        0 ^ d == d,
{
    assert((k ^ x == (e ^ s) ^ c ==> (k ^ d) ^ x == ((e ^ d) ^ s) ^ c && (k ^ d) ^ x == (e ^ (s ^ d)) ^ c
        && (k ^ d) ^ x == (e ^ s) ^ (c ^ d)) && d ^ d == 0 && 0 ^ d == d) by (bit_vector);
}

// ---------------------------------------------------------------------------
// Making a move
// ---------------------------------------------------------------------------

impl Position {
    /// `post` is what making `m` in `self` gives, with the check flag as told.
    pub open spec fn made(&self, post: &Position, m: Move, gives_check: bool) -> bool {
        let b = self.board@;
        let us = self.side_to_move;
        let a = board_after(b, us, m);
        let old_st = self.top();
        let st = post.top();
        &&& post.board@ == a
        &&& post.side_to_move == us.opp()
        &&& post.game_ply == self.game_ply + 1
        &&& post.castling == self.castling
        &&& post.chess960 == self.chess960
        &&& post.states@.len() == self.states@.len() + 1
        &&& post.states@.drop_last() == self.states@
        &&& st.captured_piece == captured_by(b, us, m)
        &&& st.rule50 == (if captured_by(b, us, m) != Piece::NONE || (m.kind()
            != MoveType::Castling && b[m.src()].kind() == PieceType::Pawn) {
            0int
        } else {
            old_st.rule50 + 1
        })
        &&& st.plies_from_null == old_st.plies_from_null + 1
        &&& st.ep_square == ep_after(b, us, m)
        &&& st.castling_rights == rights_after(old_st.castling_rights, self.castling, m)
        &&& if gives_check {
            forall|s: int| #[trigger]
                st.checkers.has(s) == state::checks(a, us, placement::king(a, us.opp()), s)
        } else {
            st.checkers == Bitboard(0)
        }
        &&& st.repetition == repetition_of(self.states@, st)
    }

    /// Make `m`, pushing a new state.
    ///
    /// `gives_check` is trusted, never derived again: when it is false the new state has no
    /// checkers, when it is true they are looked up. Callers that do not know whether the
    /// move checks use [`Position::do_move`].
    pub fn do_move_checked(&mut self, m: Move, gives_check: bool)
        requires
            old(self).wf(),
            old(self).accepts(m),
        ensures
            final(self).wf(),
            old(self).made(final(self), m, gives_check),
    {
        let us = self.side_to_move;
        let them = us.flip();
        let ghost b = self.board@;
        let ghost pre = *self;
        proof {
            lemma_after(b, us, m);
            lemma_castling_kept(self.castling, b, self.top().castling_rights, us, m);
            lemma_ep_after(b, us, m);
        }
        let keys = self.keys.clone();
        let mut st = turn_state(self.st(), &self.board, &self.castling, &keys, us, m);
        shift_pieces(&mut self.board, &mut st, &keys, us, m);
        mark_double_step(&self.board, &mut st, &keys, us, m, Ghost(b));
        proof {
            state::lemma_keyed(st, self.board@, them);
        }
        self.side_to_move = them;
        self.game_ply = self.game_ply + 1;
        if gives_check {
            st.checkers = self.find_checkers();
        } else {
            st.checkers = Bitboard(0);
        }
        survey(&self.board, &mut st, them);
        st.repetition = find_repetition(&self.states, &st);
        self.states.push(st);
        assert(self.states@.drop_last() =~= pre.states@);
    }

    /// The enemy pieces that attack the king of the side to move.
    fn find_checkers(&self) -> (r: Bitboard)
        requires
            self.sound(),
            placement::kings(self.board@),
        ensures
            forall|s: int| #[trigger]
                r.has(s) == state::checks(
                    self.board@,
                    self.side_to_move.opp(),
                    placement::king(self.board@, self.side_to_move),
                    s,
                ),
    {
        broadcast use bits::group_bits;

        let attackers = self.attackers_to(self.king_square(self.side_to_move));
        attackers & self.colored(self.side_to_move.flip())
    }
}

/// The state of the side that is about to move, turned over: the clocks advance, the rights
/// the move ends are gone, and the key knows both and the change of side.
fn turn_state(
    parent: &StateInfo,
    board: &Board,
    castling: &Castling,
    keys: &Tables,
    us: Color,
    m: Move,
) -> (st: StateInfo)
    requires
        keys.wf(),
        parent.tallied(board@),
        parent.keyed(board@, us),
        parent.rule50 < i32::MAX,
        parent.plies_from_null < i32::MAX,
    ensures
        st.tallied(board@),
        st.rule50 == parent.rule50 + 1,
        st.plies_from_null == parent.plies_from_null + 1,
        st.ep_square == SquareOrNone::NONE,
        st.castling_rights == rights_after(parent.castling_rights, *castling, m),
        st.residue(board@) == tally::extras(us.opp(), SquareOrNone::NONE, st.castling_rights),
        st.captured_piece == Piece::NONE,
{
    broadcast use Square::lemma_idx;

    let mut st = parent.carried_forward();
    st.key = parent.key;
    let ghost x = tally::xor_all(board@, tally::Sel::Every);
    let ghost mut e: u64 = match st.ep_square {
        SquareOrNone::At(s) => zobrist::ep_key(s.idx() % 8),
        SquareOrNone::NONE => 0,
    };
    let ghost mut s: u64 = if us == Color::Black {
        zobrist::side_key()
    } else {
        0
    };
    let ghost mut c: u64 = zobrist::castling_key(st.castling_rights.nibble());
    proof {
        state::lemma_keyed(*parent, board@, us);
        lemma_extras_steps(st.key, x, e, s, c, zobrist::side_key());
        s = s ^ zobrist::side_key();
    }
    st.key = st.key ^ keys.side;
    st.rule50 = st.rule50 + 1;
    st.plies_from_null = st.plies_from_null + 1;

    // Clear the parent's en-passant key before anything else can set a new one.
    match st.ep_square {
        SquareOrNone::At(sq) => {
            proof {
                lemma_extras_steps(st.key, x, e, s, c, e);
                e = 0;
            }
            st.key = st.key ^ keys.en_passant(sq.file());
            st.ep_square = SquareOrNone::NONE;
        },
        SquareOrNone::NONE => {},
    }

    // Castling rights die when the king or a rook leaves, or when a rook is captured.
    let lost = castling.mask[m.from().index()].union(castling.mask[m.to().index()]).intersect(
        st.castling_rights,
    );
    if !lost.is_empty() {
        let before: Key = keys.castling(st.castling_rights);
        st.castling_rights = st.castling_rights.without(lost);
        let after: Key = keys.castling(st.castling_rights);
        proof {
            lemma_extras_steps(st.key, x, e, s, c, c);
            lemma_extras_steps(st.key ^ c, x, e, s, 0, after);
            c = after;
        }
        st.key = (st.key ^ before) ^ after;
    }
    st
}

/// Move the pieces of the move `m`, and let the state follow: the victim leaves first, so
/// that the mover lands on an empty square.
fn shift_pieces(board: &mut Board, st: &mut StateInfo, keys: &Tables, us: Color, m: Move)
    requires
        old(board).wf(),
        keys.wf(),
        old(st).tallied(old(board)@),
        old(st).captured_piece == Piece::NONE,
        state::roomy(old(board)@),
        can_make(old(board)@, us, m),
    ensures
        final(board).wf(),
        final(board)@ == board_after(old(board)@, us, m),
        final(st).tallied(final(board)@),
        final(st).residue(final(board)@) == old(st).residue(old(board)@),
        final(st).plies_from_null == old(st).plies_from_null,
        final(st).ep_square == old(st).ep_square,
        final(st).castling_rights == old(st).castling_rights,
        final(st).captured_piece == captured_by(old(board)@, us, m),
        final(st).rule50 == (if captured_by(old(board)@, us, m) != Piece::NONE || (m.kind()
            != MoveType::Castling && old(board)@[m.src()].kind() == PieceType::Pawn) {
            0
        } else {
            old(st).rule50
        }),
{
    broadcast use {Square::lemma_idx, Square::lemma_inj};

    let from = m.from();
    let to = m.to();
    let mt = m.move_type();
    let ghost b = board@;
    if mt == MoveType::Castling {
        // King takes rook: both movers leave, both destinations are fixed.
        let (king_to, rook_to) = castle_squares(from, to);
        let king = lift(board, st, keys, from);
        let rook = lift(board, st, keys, to);
        place(board, st, keys, king, king_to);
        place(board, st, keys, rook, rook_to);
    } else {
        let capsq = if mt == MoveType::EnPassant {
            to.shift(Direction::pawn_push(us.flip()))
        } else {
            to
        };
        let pc = board.piece_on(from);
        let captured = board.piece_on(capsq);
        if !captured.is_none() {
            let _ = lift(board, st, keys, capsq);
            st.rule50 = 0;
        }
        assert(board@ =~= b.update(capsq.idx(), Piece::NONE));
        st.captured_piece = captured;
        let _ = lift(board, st, keys, from);
        let arrived = if mt == MoveType::Promotion {
            Piece::new(us, m.promotion_type())
        } else {
            pc
        };
        place(board, st, keys, arrived, to);
        if pc.piece_type() == PieceType::Pawn {
            st.rule50 = 0;
        }
    }
}

/// Set the en-passant target of a double step. It is set only when a capture exists: the
/// key depends on it.
fn mark_double_step(
    board: &Board,
    st: &mut StateInfo,
    keys: &Tables,
    us: Color,
    m: Move,
    Ghost(b): Ghost<Seq<Piece>>,
)
    requires
        board.wf(),
        keys.wf(),
        b.len() == 64,
        can_make(b, us, m),
        board@ == board_after(b, us, m),
        old(st).ep_square == SquareOrNone::NONE,
        old(st).tallied(board@),
        old(st).residue(board@) == tally::extras(
            us.opp(),
            SquareOrNone::NONE,
            old(st).castling_rights,
        ),
    ensures
        final(st).tallied(board@),
        final(st).residue(board@) == tally::extras(
            us.opp(),
            final(st).ep_square,
            final(st).castling_rights,
        ),
        final(st).ep_square == ep_after(b, us, m),
        final(st).castling_rights == old(st).castling_rights,
        final(st).rule50 == old(st).rule50,
        final(st).plies_from_null == old(st).plies_from_null,
        final(st).captured_piece == old(st).captured_piece,
{
    broadcast use {Square::lemma_idx, Square::lemma_inj, Square::lemma_at};

    let from = m.from();
    let to = m.to();
    if m.move_type() != MoveType::Normal || board.piece_on(to).piece_type() != PieceType::Pawn {
        return ;
    }
    let fi: usize = from.index();
    let ti: usize = to.index();
    let gap: usize = if fi >= ti {
        fi - ti
    } else {
        ti - fi
    };
    if gap == 16 {
        let target = to.shift(Direction::pawn_push(us.flip()));
        let takers = pawn_attacks_from(us, target) & board.pieces_of(us.flip(), PieceType::Pawn);
        proof {
            broadcast use bits::group_bits;

            lemma_takers(board@, us, target.idx(), takers);
        }
        if takers.any() {
            let ghost x = tally::xor_all(board@, tally::Sel::Every);
            proof {
                let s: u64 = if us == Color::White {
                    zobrist::side_key()
                } else {
                    0
                };
                lemma_extras_steps(
                    st.key,
                    x,
                    0,
                    s,
                    zobrist::castling_key(st.castling_rights.nibble()),
                    zobrist::ep_key(target.idx() % 8),
                );
            }
            st.ep_square = SquareOrNone::At(target);
            st.key = st.key ^ keys.en_passant(target.file());
        }
    }
}

/// The pawns found beside a target are its takers.
proof fn lemma_takers(a: Seq<Piece>, us: Color, s: int, takers: Bitboard)
    requires
        0 <= s < 64,
        forall|i: int| #[trigger]
            takers.has(i) == (bitboard::pawn_hits(us, s, i) && 0 <= i < 64 && a[i] == Piece::of(
                us.opp(),
                PieceType::Pawn,
            )),
    ensures
        (takers.0 != 0) == (exists|p: int| #[trigger] position::ep_taker(a, us.opp(), s, p)),
{
    bits::lemma_nonzero(takers.0);
    if exists|p: int| #[trigger] position::ep_taker(a, us.opp(), s, p) {
        let p = choose|p: int| #[trigger] position::ep_taker(a, us.opp(), s, p);
        bitboard::law_pawn_attacks_mirror(us, s, p);
        assert(takers.has(p));
    }
    if exists|i: int| bits::bit(takers.0, i) {
        let i = choose|i: int| bits::bit(takers.0, i);
        assert(takers.has(i));
        bitboard::law_pawn_attacks_mirror(us, s, i);
        assert(position::ep_taker(a, us.opp(), s, i));
    }
}

// ---------------------------------------------------------------------------
// Unmaking a move
// ---------------------------------------------------------------------------

/// The placement before `us` made the move `m`, which captured `cap`.
pub open spec fn board_before(b: Seq<Piece>, us: Color, m: Move, cap: Piece) -> Seq<Piece> {
    if m.kind() == MoveType::Castling {
        let kt = position::castle_king_to(m.src(), m.dst() > m.src());
        let rt = position::castle_rook_to(m.src(), m.dst() > m.src());
        b.update(kt, Piece::NONE).update(rt, Piece::NONE).update(m.src(), b[kt]).update(
            m.dst(),
            b[rt],
        )
    } else {
        let mover = if m.kind() == MoveType::Promotion {
            Piece::of(us, PieceType::Pawn)
        } else {
            b[m.dst()]
        };
        let back = b.update(m.dst(), Piece::NONE).update(m.src(), mover);
        if cap == Piece::NONE {
            back
        } else {
            back.update(capture_square(us, m), cap)
        }
    }
}

/// The move `m` of `us`, which captured `cap`, can be taken back on the placement `b`: its
/// piece stands where it arrived, and the squares it came from are free.
pub open spec fn can_unmake(b: Seq<Piece>, us: Color, m: Move, cap: Piece) -> bool {
    let from = m.src();
    let to = m.dst();
    &&& from != to
    &&& if m.kind() == MoveType::Castling {
        let kt = position::castle_king_to(from, to > from);
        let rt = position::castle_rook_to(from, to > from);
        &&& b[kt] != Piece::NONE
        &&& b[rt] != Piece::NONE
        &&& from == kt || from == rt || b[from] == Piece::NONE
        &&& to == kt || to == rt || b[to] == Piece::NONE
    } else {
        let sq = capture_square(us, m);
        &&& b[to] != Piece::NONE
        &&& b[from] == Piece::NONE
        &&& cap == Piece::NONE || cap.is_real()
        &&& cap != Piece::NONE ==> 0 <= sq < 64 && sq != from && (sq == to || b[sq] == Piece::NONE)
    }
}

impl Position {
    /// `post` is what taking `m` back in `self` gives.
    pub open spec fn unmade(&self, post: &Position, m: Move) -> bool {
        let us = self.side_to_move.opp();
        &&& post.board@ == board_before(self.board@, us, m, self.top().captured_piece)
        &&& post.side_to_move == us
        &&& post.game_ply == self.game_ply - 1
        &&& post.castling == self.castling
        &&& post.chess960 == self.chess960
        &&& post.states@ == self.states@.drop_last()
    }

    /// The last move of the position can have been `m`.
    pub open spec fn can_undo(&self, m: Move) -> bool {
        &&& self.states@.len() > 1
        &&& self.game_ply > i32::MIN
        &&& can_unmake(self.board@, self.side_to_move.opp(), m, self.top().captured_piece)
    }

    /// Undo the last move. Nothing is recomputed: the state is popped.
    pub fn undo_move(&mut self, m: Move)
        requires
            old(self).sound(),
            old(self).can_undo(m),
        ensures
            final(self).sound(),
            old(self).unmade(final(self), m),
    {
        broadcast use {Square::lemma_idx, Square::lemma_inj};

        let us = self.side_to_move.flip();
        let from = m.from();
        let to = m.to();
        let mt = m.move_type();
        let ghost b = self.board@;
        let captured = self.st().captured_piece;

        if mt == MoveType::Castling {
            let (king_to, rook_to) = castle_squares(from, to);
            let king = self.piece_on(king_to);
            let rook = self.piece_on(rook_to);
            self.board.remove_piece(king_to);
            self.board.remove_piece(rook_to);
            self.board.put_piece(king, from);
            self.board.put_piece(rook, to);
        } else {
            if mt == MoveType::Promotion {
                self.board.remove_piece(to);
                self.board.put_piece(Piece::new(us, PieceType::Pawn), to);
            }
            self.board.move_piece(to, from);
            if !captured.is_none() {
                let capsq = if mt == MoveType::EnPassant {
                    to.shift(Direction::pawn_push(us.flip()))
                } else {
                    to
                };
                self.board.put_piece(captured, capsq);
            }
        }
        assert(self.board@ =~= board_before(b, us, m, captured));
        self.side_to_move = us;
        let _ = self.states.pop();
        self.game_ply = self.game_ply - 1;
    }

    /// `post` is what passing the turn in `self` gives.
    pub open spec fn passed(&self, post: &Position) -> bool {
        let old_st = self.top();
        let st = post.top();
        &&& post.board@ == self.board@
        &&& post.side_to_move == self.side_to_move.opp()
        &&& post.game_ply == self.game_ply
        &&& post.castling == self.castling
        &&& post.chess960 == self.chess960
        &&& post.states@.len() == self.states@.len() + 1
        &&& post.states@.drop_last() == self.states@
        &&& st.captured_piece == Piece::NONE
        &&& st.rule50 == old_st.rule50 + 1
        &&& st.plies_from_null == 0
        &&& st.ep_square == SquareOrNone::NONE
        &&& st.castling_rights == old_st.castling_rights
        &&& st.checkers == Bitboard(0)
        &&& st.repetition == 0
    }

    /// Flip the side to move without touching a piece.
    ///
    /// A null move is irreversible for repetitions: nothing before it can repeat with the
    /// same side to move.
    pub fn do_null_move(&mut self)
        requires
            old(self).wf(),
            old(self).top().checkers.0 == 0,
            old(self).top().rule50 < i32::MAX,
        ensures
            final(self).wf(),
            old(self).passed(final(self)),
    {
        broadcast use Square::lemma_idx;

        let us = self.side_to_move;
        let ghost pre = *self;
        let parent = self.st();
        let mut st = parent.carried_forward();
        st.key = parent.key;
        let ghost x = tally::xor_all(self.board@, tally::Sel::Every);
        let ghost mut e: u64 = match st.ep_square {
            SquareOrNone::At(s) => zobrist::ep_key(s.idx() % 8),
            SquareOrNone::NONE => 0,
        };
        let ghost mut s: u64 = if us == Color::Black {
            zobrist::side_key()
        } else {
            0
        };
        let ghost c: u64 = zobrist::castling_key(st.castling_rights.nibble());
        proof {
            state::lemma_keyed(*parent, self.board@, us);
            lemma_extras_steps(st.key, x, e, s, c, zobrist::side_key());
            s = s ^ zobrist::side_key();
        }
        st.key = st.key ^ self.keys.side;
        match st.ep_square {
            SquareOrNone::At(sq) => {
                proof {
                    lemma_extras_steps(st.key, x, e, s, c, e);
                    e = 0;
                }
                st.key = st.key ^ self.keys.en_passant(sq.file());
                st.ep_square = SquareOrNone::NONE;
            },
            SquareOrNone::NONE => {},
        }
        st.rule50 = st.rule50 + 1;
        st.plies_from_null = 0;
        self.side_to_move = us.flip();
        proof {
            state::lemma_keyed(st, self.board@, us.opp());
        }
        survey(&self.board, &mut st, self.side_to_move);
        self.states.push(st);
        assert(self.states@.drop_last() =~= pre.states@);
    }

    /// Undo the last null move.
    pub fn undo_null_move(&mut self)
        requires
            old(self).sound(),
            old(self).states@.len() > 1,
        ensures
            final(self).sound(),
            final(self).board@ == old(self).board@,
            final(self).side_to_move == old(self).side_to_move.opp(),
            final(self).game_ply == old(self).game_ply,
            final(self).castling == old(self).castling,
            final(self).chess960 == old(self).chess960,
            final(self).states@ == old(self).states@.drop_last(),
    {
        let _ = self.states.pop();
        self.side_to_move = self.side_to_move.flip();
    }
}

// ---------------------------------------------------------------------------
// Laws
// ---------------------------------------------------------------------------

/// A position that agrees with a well-formed one in everything observable is well-formed.
pub proof fn law_sameness_keeps_wf(a: Position, b: Position)
    requires
        a.wf(),
        b.sound(),
        b.same(&a),
    ensures
        b.wf(),
{
}

/// A move that was made can be taken back.
pub proof fn law_made_moves_can_be_undone(pre: Position, mid: Position, m: Move, check: bool)
    requires
        pre.wf(),
        pre.accepts(m),
        pre.made(&mid, m, check),
    ensures
        mid.can_undo(m),
{
    let b = pre.board@;
    let us = pre.side_to_move;
    lemma_after(b, us, m);
}

/// Making a move and taking it back restores the placement, the side to move, the clocks,
/// the castling data and the whole chain of states.
pub proof fn law_undo_restores(pre: Position, mid: Position, post: Position, m: Move, check: bool)
    requires
        pre.wf(),
        pre.accepts(m),
        pre.made(&mid, m, check),
        mid.unmade(&post, m),
    ensures
        post.same(&pre),
        post.sound() ==> post.wf(),
{
    let b = pre.board@;
    let us = pre.side_to_move;
    let a = board_after(b, us, m);
    let cap = captured_by(b, us, m);
    assert(board_before(a, us, m, cap) =~= b);
    if post.sound() {
        law_sameness_keeps_wf(pre, post);
    }
}

/// Passing the turn twice back and forth restores everything.
pub proof fn law_null_move_is_undone(pre: Position, mid: Position, post: Position)
    requires
        pre.wf(),
        pre.passed(&mid),
        post.board@ == mid.board@,
        post.side_to_move == mid.side_to_move.opp(),
        post.game_ply == mid.game_ply,
        post.castling == mid.castling,
        post.chess960 == mid.chess960,
        post.states@ == mid.states@.drop_last(),
    ensures
        post.same(&pre),
        post.sound() ==> post.wf(),
{
    if post.sound() {
        law_sameness_keeps_wf(pre, post);
    }
}

} // verus!
