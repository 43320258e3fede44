//! The game tree of legal moves, and how many leaves it has at a given depth.

use vstd::prelude::*;
use crate::board::bitboard::Bitboard;
use crate::board::bits;
use crate::board::games;
use crate::board::legal_moves::generate_legal;
use crate::board::legal_moves;
use crate::board::legality;
use crate::board::movegen::Node;
use crate::board::placement;
use crate::board::position::Position;
use crate::board::safety;
use crate::board::soundness;
use crate::board::state;
use crate::board::tally;
use crate::board::transition;
use crate::board::types::{CastlingRights, Color, Move, MoveType, Piece, PieceType};

verus! {

/// The checkers after `us` makes `m`: none unless the move was known to check.
pub open spec fn checkers_after(b: Seq<Piece>, us: Color, m: Move, w: Bitboard) -> bool {
    let a = transition::board_after(b, us, m);
    if legality::checks_king(b, us, m) {
        forall|s: int| #[trigger]
            w.has(s) == state::checks(a, us, placement::king(a, us.opp()), s)
    } else {
        w == Bitboard(0)
    }
}

impl Node {
    /// The node that the move `m` leads to.
    pub open spec fn next(self, m: Move) -> Node {
        Node {
            b: transition::board_after(self.b, self.stm, m),
            stm: self.stm.opp(),
            rights: transition::rights_after(self.rights, self.castling, m),
            ep: transition::ep_after(self.b, self.stm, m),
            checkers: choose|w: Bitboard| checkers_after(self.b, self.stm, m, w),
            castling: self.castling,
            chess960: self.chess960,
        }
    }
}

/// The checkers after a move are one word.
pub proof fn lemma_checkers_after(n: Node, m: Move, w: Bitboard)
    ensures
        checkers_after(n.b, n.stm, m, n.next(m).checkers),
        checkers_after(n.b, n.stm, m, w) ==> n.next(m).checkers == w,
{
    let a = transition::board_after(n.b, n.stm, m);
    let k = placement::king(a, n.stm.opp());
    if legality::checks_king(n.b, n.stm, m) {
        let v = safety::lemma_word_of(|s: int| state::checks(a, n.stm, k, s), 64);
        assert(checkers_after(n.b, n.stm, m, Bitboard(v)));
    } else {
        assert(checkers_after(n.b, n.stm, m, Bitboard(0)));
    }
    if checkers_after(n.b, n.stm, m, w) {
        let v = n.next(m).checkers;
        assert forall|s: int| 0 <= s < 64 implies #[trigger] bits::bit(v.0, s) == bits::bit(w.0, s) by {
            assert(v.has(s) == w.has(s));
        }
        bits::lemma_ext(v.0, w.0);
    }
}

/// A promotion uses up the pawn whose room it takes.
proof fn lemma_spacious_after(n: Node, m: Move)
    requires
        n.regular(),
        transition::can_make(n.b, n.stm, m),
    ensures
        soundness::spacious(transition::board_after(n.b, n.stm, m)),
{
    let b = n.b;
    let us = n.stm;
    let a = transition::board_after(b, us, m);
    let from = m.src();
    let to = m.dst();
    assert forall|c: Color, pt: PieceType| 2 <= pt.idx() <= 5 implies #[trigger] tally::count_of(
        a,
        Piece::of(c, pt),
    ) + tally::count_of(a, Piece::of(c, PieceType::Pawn)) <= 56 by {
        let p = Piece::of(c, pt);
        let q = Piece::of(c, PieceType::Pawn);
        assert(tally::count_of(b, p) + tally::count_of(b, q) <= 56);
        if m.kind() == MoveType::Castling {
            let kt = crate::board::position::castle_king_to(from, to > from);
            let rt = crate::board::position::castle_rook_to(from, to > from);
            let b1 = b.update(from, Piece::NONE);
            let b2 = b1.update(to, Piece::NONE);
            let b3 = b2.update(kt, b[from]);
            tally::lemma_count_update(b, p, from, Piece::NONE, 64);
            tally::lemma_count_update(b1, p, to, Piece::NONE, 64);
            tally::lemma_count_update(b2, p, kt, b[from], 64);
            tally::lemma_count_update(b3, p, rt, b[to], 64);
            tally::lemma_count_update(b, q, from, Piece::NONE, 64);
            tally::lemma_count_update(b1, q, to, Piece::NONE, 64);
            tally::lemma_count_update(b2, q, kt, b[from], 64);
            tally::lemma_count_update(b3, q, rt, b[to], 64);
        } else {
            let cap = transition::capture_square(us, m);
            let b1 = b.update(cap, Piece::NONE);
            let b2 = b1.update(from, Piece::NONE);
            tally::lemma_count_update(b, p, cap, Piece::NONE, 64);
            tally::lemma_count_update(b1, p, from, Piece::NONE, 64);
            tally::lemma_count_update(b2, p, to, transition::arriving(b, us, m), 64);
            tally::lemma_count_update(b, q, cap, Piece::NONE, 64);
            tally::lemma_count_update(b1, q, from, Piece::NONE, 64);
            tally::lemma_count_update(b2, q, to, transition::arriving(b, us, m), 64);
        }
    }
}

/// What holds of a legal move of a regular node.
pub proof fn lemma_legal(n: Node, m: Move)
    requires
        n.regular(),
        n.legal_moves().contains(m),
    ensures
        n.well_moved(m),
        n.answers(m),
        !n.rejects(m),
        transition::can_make(n.b, n.stm, m),
{
    legal_moves::law_legal_moves_are_the_passing_ones(n, m);
    soundness::lemma_generated(n);
    let s = n.pseudo(n.full_kind());
    let i = choose|i: int| 0 <= i < s.len() && s[i] == m;
    assert((|m: Move| n.well_moved(m) && n.answers(m))(s[i]));
    safety::lemma_can_make(n, m);
}

/// A legal move of a regular node can be made, and leads to a regular node.
pub proof fn law_play_stays_regular(n: Node, m: Move)
    requires
        n.regular(),
        n.legal_moves().contains(m),
    ensures
        transition::can_make(n.b, n.stm, m),
        n.next(m).regular(),
{
    let a = transition::board_after(n.b, n.stm, m);
    let us = n.stm;
    let them = n.stm.opp();
    let x = n.next(m);
    lemma_legal(n, m);
    transition::lemma_after(n.b, us, m);
    transition::lemma_castling_kept(n.castling, n.b, n.rights, us, m);
    transition::lemma_ep_after(n.b, us, m);
    lemma_spacious_after(n, m);
    safety::lemma_kings_after(n, m);
    safety::law_legal_moves_keep_the_king_safe(n, m);
    lemma_checkers_after(n, m, Bitboard(0));
    placement::lemma_king(n.b, us);
    placement::lemma_king(n.b, them);
    assert(x.checkers_exact()) by {
        if !legality::checks_king(n.b, us, m) {
            assert forall|s: int| #[trigger]
                x.checkers.has(s) == state::checks(a, us, placement::king(a, them), s) by {
                broadcast use bits::group_bits;

                if state::checks(a, us, placement::king(a, them), s) {
                    assert(placement::attacks_through(
                        a,
                        placement::occ(a),
                        s,
                        placement::king(a, them),
                    ));
                    safety::law_checking_moves_are_known(n, m);
                }
            }
        }
    }
    assert forall|c: Color, ks: bool| x.rights.has(#[trigger] CastlingRights::wing(c, ks)) implies soundness::rook_at_home(
    x, c, ks) by {
        let cr = CastlingRights::wing(c, ks);
        assert(n.rights.has(cr));
        assert(n.castling.right_wf(n.b, c, ks));
        assert(soundness::rook_at_home(n, c, ks));
        assert(m.src() != placement::king(n.b, c));
        assert(placement::king(a, c) == placement::king(n.b, c)) by {
            if c == us && n.b[m.src()].kind() == PieceType::King {
                assert(n.b[m.src()] == Piece::of(us, PieceType::King));
            }
        }
    }
}

/// The leaves below `n` at depth `depth`.
pub open spec fn leaves(n: Node, depth: nat) -> nat
    decreases depth, 0int,
{
    if depth == 0 {
        1
    } else {
        leaves_below(n, n.legal_moves(), n.legal_moves().len() as int, (depth - 1) as nat)
    }
}

/// The leaves at depth `depth` below the first `i` of the moves `s` of `n`.
pub open spec fn leaves_below(n: Node, s: Seq<Move>, i: int, depth: nat) -> nat
    decreases depth, i,
{
    if i <= 0 {
        0
    } else {
        leaves_below(n, s, i - 1, depth) + leaves(n.next(s[i - 1]), depth)
    }
}

proof fn lemma_leaves_grow(n: Node, s: Seq<Move>, i: int, j: int, depth: nat)
    requires
        0 <= i <= j,
    ensures
        leaves_below(n, s, i, depth) <= leaves_below(n, s, j, depth),
    decreases j,
{
    if i < j {
        lemma_leaves_grow(n, s, i, j - 1, depth);
    }
}

proof fn lemma_leaves_at_once(n: Node, s: Seq<Move>, i: int)
    requires
        0 <= i,
    ensures
        leaves_below(n, s, i, 0) == i,
    decreases i,
{
    reveal_with_fuel(leaves_below, 2);
    reveal_with_fuel(leaves, 2);
    if i > 0 {
        lemma_leaves_at_once(n, s, i - 1);
    }
}

impl Position {
    /// The game can go on for `depth` plies: the position could have come about by play, and
    /// no clock runs over.
    pub open spec fn explorable(&self, depth: int) -> bool {
        &&& self.wf()
        &&& self.node().regular()
        &&& self.top().rule50 + depth <= i32::MAX
        &&& self.top().plies_from_null + depth <= i32::MAX
        &&& self.game_ply + depth <= i32::MAX
    }
}

/// What one step down the tree keeps, and that the way back restores the position.
pub proof fn lemma_step(pre: Position, mid: Position, m: Move, depth: int)
    requires
        depth > 0,
        pre.explorable(depth),
        pre.node().legal_moves().contains(m),
        mid.wf(),
        pre.made(&mid, m, legality::checks_king(pre.board@, pre.side_to_move, m)),
    ensures
        mid.node() == pre.node().next(m),
        mid.explorable(depth - 1),
{
    law_play_stays_regular(pre.node(), m);
    lemma_checkers_after(pre.node(), m, mid.top().checkers);
}

/// The leaves at depth `depth` below the legal move `m`. The position is the same afterwards.
fn count_below(pos: &mut Position, m: Move, depth: u32) -> (r: u64)
    requires
        old(pos).explorable(depth + 1),
        old(pos).node().legal_moves().contains(m),
        leaves(old(pos).node().next(m), depth as nat) <= u64::MAX,
    ensures
        r == leaves(old(pos).node().next(m), depth as nat),
        final(pos).wf(),
        final(pos).same(old(pos)),
    decreases depth, 1int,
{
    let ghost here = *pos;
    let ghost check = legality::checks_king(here.board@, here.side_to_move, m);
    proof {
        law_play_stays_regular(here.node(), m);
    }
    pos.do_move(m);
    proof {
        lemma_step(here, *pos, m, depth + 1);
        transition::law_made_moves_can_be_undone(here, *pos, m, check);
    }
    let below = perft(pos, depth);
    let ghost back = *pos;
    pos.undo_move(m);
    proof {
        transition::law_undo_restores(here, back, *pos, m, check);
    }
    below
}

/// Count the leaf nodes of the game tree to `depth`. The position is the same afterwards.
pub fn perft(pos: &mut Position, depth: u32) -> (r: u64)
    requires
        old(pos).explorable(depth as int),
        leaves(old(pos).node(), depth as nat) <= u64::MAX,
    ensures
        r == leaves(old(pos).node(), depth as nat),
        final(pos).wf(),
        final(pos).same(old(pos)),
    decreases depth, 0int,
{
    if depth == 0 {
        return 1;
    }
    let ghost pre = *pos;
    let ghost n = pos.node();
    let ghost d = (depth - 1) as nat;
    let moves = generate_legal(pos);
    if depth == 1 {
        proof {
            lemma_leaves_at_once(n, n.legal_moves(), n.legal_moves().len() as int);
        }
        return moves.len() as u64;
    }
    let mut nodes: u64 = 0;
    let mut i: usize = 0;
    while i < moves.len()
        invariant
            depth > 1,
            d == depth - 1,
            i <= moves@.len(),
            moves@ == n.legal_moves(),
            pre.explorable(depth as int),
            n == pre.node(),
            pos.wf(),
            pos.same(&pre),
            nodes == leaves_below(n, moves@, i as int, d),
            leaves_below(n, moves@, moves@.len() as int, d) <= u64::MAX,
        decreases moves@.len() - i,
    {
        let m = moves.list[i];
        proof {
            assert(moves@.contains(m));
            lemma_leaves_grow(n, moves@, i + 1, moves@.len() as int, d);
        }
        nodes = nodes + count_below(pos, m, depth - 1);
        i = i + 1;
    }
    nodes
}

/// The depth below a first move of a divided count.
pub open spec fn depth_below(depth: int) -> nat {
    if depth <= 1 {
        0
    } else {
        (depth - 1) as nat
    }
}

/// The rows hold the legal moves in order, each with the leaves below it, and the total is that of
/// the whole tree.
pub open spec fn divides(n: Node, depth: int, rows: Seq<(Move, u64)>, total: int) -> bool {
    &&& rows.len() == n.legal_moves().len()
    &&& forall|i: int|
        0 <= i < rows.len() ==> (#[trigger] rows[i]).0 == n.legal_moves()[i] && rows[i].1 == leaves(
            n.next(rows[i].0),
            depth_below(depth),
        )
    &&& total == leaves(n, depth_below(depth) + 1)
}

/// The sum of the counts of the rows.
pub open spec fn row_sum(rows: Seq<(Move, u64)>) -> int
    decreases rows.len(),
{
    if rows.len() == 0 {
        0
    } else {
        row_sum(rows.drop_last()) + rows.last().1
    }
}

proof fn lemma_row_sum(n: Node, s: Seq<Move>, rows: Seq<(Move, u64)>, d: nat)
    requires
        rows.len() <= s.len(),
        forall|i: int|
            0 <= i < rows.len() ==> (#[trigger] rows[i]).0 == s[i] && rows[i].1 == leaves(
                n.next(s[i]),
                d,
            ),
    ensures
        row_sum(rows) == leaves_below(n, s, rows.len() as int, d),
    decreases rows.len(),
{
    reveal_with_fuel(leaves_below, 2);
    if rows.len() > 0 {
        let r = rows.drop_last();
        assert forall|i: int| 0 <= i < r.len() implies (#[trigger] r[i]).0 == s[i] && r[i].1
            == leaves(n.next(s[i]), d) by {
            assert(r[i] == rows[i]);
        }
        lemma_row_sum(n, s, r, d);
        assert(rows[rows.len() - 1].0 == s[rows.len() - 1]);
    }
}

/// A divided count adds up: its moves are the legal moves in order, its total is the sum of its
/// rows and the count of the whole tree, and each row is the count from the position that its
/// move leads to, one ply shallower.
pub proof fn law_divided_counts_add_up(
    pos: Position,
    depth: u32,
    rows: Seq<(Move, u64)>,
    total: u64,
)
    requires
        depth >= 1,
        pos.explorable(depth as int),
        divides(pos.node(), depth as int, rows, total as int),
    ensures
        rows.map_values(|r: (Move, u64)| r.0) == pos.node().legal_moves(),
        total == row_sum(rows),
        total == leaves(pos.node(), depth as nat),
        forall|i: int, mid: Position|
            0 <= i < rows.len() && #[trigger] games::follows(pos, mid, rows[i].0)
                ==> mid.explorable(depth - 1) && rows[i].1 == leaves(
                mid.node(),
                (depth - 1) as nat,
            ),
{
    let n = pos.node();
    let s = n.legal_moves();
    let d = (depth - 1) as nat;
    assert(rows.map_values(|r: (Move, u64)| r.0) =~= s);
    lemma_row_sum(n, s, rows, d);
    assert forall|i: int, mid: Position|
        0 <= i < rows.len() && #[trigger] games::follows(pos, mid, rows[i].0) implies mid.explorable(
        depth - 1,
    ) && rows[i].1 == leaves(mid.node(), (depth - 1) as nat) by {
        lemma_step(pos, mid, rows[i].0, depth as int);
    }
}

/// The leaves below each legal move, and their total: the breakdown that a `go perft`
/// command prints. A depth of 0 counts as 1. The position is the same afterwards.
pub fn perft_divide(pos: &mut Position, depth: u32) -> (r: (Vec<(Move, u64)>, u64))
    requires
        old(pos).explorable(depth_below(depth as int) as int + 1),
        leaves(old(pos).node(), depth_below(depth as int) + 1) <= u64::MAX,
    ensures
        divides(old(pos).node(), depth as int, r.0@, r.1 as int),
        final(pos).wf(),
        final(pos).same(old(pos)),
{
    let below: u32 = if depth <= 1 {
        0
    } else {
        depth - 1
    };
    let ghost pre = *pos;
    let ghost n = pos.node();
    let ghost d = below as nat;
    let mut out: Vec<(Move, u64)> = Vec::new();
    let mut total: u64 = 0;
    let moves = generate_legal(pos);
    let mut i: usize = 0;
    while i < moves.len()
        invariant
            i <= moves@.len(),
            moves@ == n.legal_moves(),
            d == below,
            pre.explorable(below + 1),
            n == pre.node(),
            pos.wf(),
            pos.same(&pre),
            out@.len() == i,
            forall|j: int|
                0 <= j < i ==> (#[trigger] out@[j]).0 == moves@[j] && out@[j].1 == leaves(
                    n.next(out@[j].0),
                    d,
                ),
            total == leaves_below(n, moves@, i as int, d),
            leaves_below(n, moves@, moves@.len() as int, d) <= u64::MAX,
        decreases moves@.len() - i,
    {
        let m = moves.list[i];
        proof {
            assert(moves@.contains(m));
            lemma_leaves_grow(n, moves@, i + 1, moves@.len() as int, d);
        }
        let count: u64 = count_below(pos, m, below);
        out.push((m, count));
        total = total + count;
        i = i + 1;
    }
    (out, total)
}

} // verus!
