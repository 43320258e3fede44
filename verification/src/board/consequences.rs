//! What follows from a move: for the board, the clocks, the rights and the square to take on.

use vstd::prelude::*;
use crate::board::bitboard;
use crate::board::placement;
use crate::board::position;
use crate::board::position::{Castling, Position};
use crate::board::transition;
use crate::board::types::{CastlingRights, Color, Move, MoveType, Piece, PieceType, Square};

verus! {

/// A move that is not castling empties its origin and fills its destination with the piece that
/// moved, or with what it promotes to; a pawn taken in passing stood on the origin's rank and the
/// destination's file; nothing else changes.
pub proof fn law_a_move_changes_its_squares_only(b: Seq<Piece>, us: Color, m: Move, t: int)
    requires
        b.len() == 64,
        transition::can_make(b, us, m),
        m.kind() != MoveType::Castling,
        m.kind() == MoveType::EnPassant ==> bitboard::pawn_hits(us, m.src(), m.dst()),
        0 <= t < 64,
    ensures
        ({
            let a = transition::board_after(b, us, m);
            let taken = 8 * (m.src() / 8) + m.dst() % 8;
            &&& a.len() == 64
            &&& a[m.src()] == Piece::NONE
            &&& m.kind() != MoveType::Promotion ==> a[m.dst()] == b[m.src()]
            &&& m.kind() == MoveType::Promotion ==> a[m.dst()] == Piece::of(us, m.promo())
            &&& m.kind() == MoveType::EnPassant ==> a[taken] == Piece::NONE && b[taken] == Piece::of(
                us.opp(),
                PieceType::Pawn,
            )
            &&& t != m.src() && t != m.dst() && !(m.kind() == MoveType::EnPassant && t == taken)
                ==> a[t] == b[t]
        }),
{
    broadcast use {Square::lemma_idx, Square::lemma_at};

    if m.kind() == MoveType::EnPassant {
        let taken = 8 * (m.src() / 8) + m.dst() % 8;
        assert(transition::capture_square(us, m) == taken);
    }
}

/// Castling leaves the king on the g-file and the rook on the f-file of their rank, or the king on
/// the c-file and the rook on the d-file where the rook stood on the lower side; of the other
/// squares only the two that they left change.
pub proof fn law_castling_lands_on_its_files(b: Seq<Piece>, us: Color, m: Move, t: int)
    requires
        b.len() == 64,
        transition::can_make(b, us, m),
        m.kind() == MoveType::Castling,
        0 <= t < 64,
    ensures
        ({
            let a = transition::board_after(b, us, m);
            let r = 8 * (m.src() / 8);
            let kt = if m.dst() > m.src() {
                r + 6
            } else {
                r + 2
            };
            let rt = if m.dst() > m.src() {
                r + 5
            } else {
                r + 3
            };
            &&& a[kt] == Piece::of(us, PieceType::King)
            &&& a[rt] == Piece::of(us, PieceType::Rook)
            &&& t != kt && t != rt && (t == m.src() || t == m.dst()) ==> a[t] == Piece::NONE
            &&& t != kt && t != rt && t != m.src() && t != m.dst() ==> a[t] == b[t]
        }),
{
    broadcast use {Square::lemma_idx, Square::lemma_at};

}

/// The clock starts again after a capture and after a move of a pawn, and runs on by one otherwise;
/// the ply count runs on by one, the turn passes, and what was captured is kept.
pub proof fn law_the_clock_counts_quiet_moves(pre: Position, post: Position, m: Move, check: bool)
    requires
        pre.made(&post, m, check),
        transition::can_make(pre.board@, pre.side_to_move, m),
    ensures
        m.kind() == MoveType::EnPassant || m.kind() == MoveType::Promotion ==> post.top().rule50 == 0,
        m.kind() == MoveType::Normal && (pre.board@[m.dst()] != Piece::NONE
            || pre.board@[m.src()].kind() == PieceType::Pawn) ==> post.top().rule50 == 0,
        m.kind() == MoveType::Normal && pre.board@[m.dst()] == Piece::NONE
            && pre.board@[m.src()].kind() != PieceType::Pawn ==> post.top().rule50
            == pre.top().rule50 + 1,
        m.kind() == MoveType::Castling ==> post.top().rule50 == pre.top().rule50 + 1,
        post.side_to_move != pre.side_to_move,
        post.game_ply == pre.game_ply + 1,
        m.kind() == MoveType::Castling ==> post.top().captured_piece == Piece::NONE,
        m.kind() == MoveType::EnPassant ==> post.top().captured_piece == Piece::of(
            pre.side_to_move.opp(),
            PieceType::Pawn,
        ),
        m.kind() == MoveType::Normal || m.kind() == MoveType::Promotion
            ==> post.top().captured_piece == pre.board@[m.dst()],
{
}

/// Rights are never won, a king that moves loses both of its side's, and a rook that leaves or is
/// taken on its square loses the right that was its own.
pub proof fn law_rights_are_only_lost(
    b: Seq<Piece>,
    rights: CastlingRights,
    c: Castling,
    m: Move,
    us: Color,
    king_side: bool,
)
    requires
        c.wf(b, rights),
    ensures
        ({
            let after = transition::rights_after(rights, c, m);
            let wing = CastlingRights::wing(us, king_side);
            &&& after.has(wing) ==> rights.has(wing)
            &&& m.src() == placement::king(b, us) ==> !after.has(wing)
            &&& rights.has(wing) && (c.rook_square@[wing.nibble()]->At_0.idx() == m.src()
                || c.rook_square@[wing.nibble()]->At_0.idx() == m.dst()) ==> !after.has(wing)
            &&& rights.has(wing) && !c.mask@[m.src()].has(wing) && !c.mask@[m.dst()].has(wing)
                ==> after.has(wing)
        }),
{
    let wing = CastlingRights::wing(us, king_side);
    if rights.has(wing) {
        assert(c.right_wf(b, us, king_side));
    }
}

/// There is a square to take on only after a double step of a pawn that an enemy pawn stands beside:
/// the square halfway between its origin and its destination.
pub proof fn law_double_steps_can_be_taken_in_passing(b: Seq<Piece>, us: Color, m: Move)
    requires
        b.len() == 64,
        transition::can_make(b, us, m),
    ensures
        transition::ep_after(b, us, m) is At ==> {
            let s = transition::ep_after(b, us, m)->At_0.idx();
            &&& b[m.src()] == Piece::of(us, PieceType::Pawn)
            &&& m.kind() == MoveType::Normal
            &&& 2 * s == m.src() + m.dst()
            &&& s % 8 == m.dst() % 8
            &&& exists|p: int|
                0 <= p < 64 && p / 8 == m.dst() / 8 && (p % 8 == s % 8 + 1 || p % 8 == s % 8 - 1)
                    && #[trigger] b[p] == Piece::of(us.opp(), PieceType::Pawn)
        },
{
    broadcast use {Square::lemma_idx, Square::lemma_at};

    if transition::ep_after(b, us, m) is At {
        let s = transition::ep_after(b, us, m)->At_0.idx();
        let a = transition::board_after(b, us, m);
        let p = choose|p: int| #[trigger]
            position::ep_taker(a, us.opp(), s, p);
        assert(position::ep_taker(a, us.opp(), s, p));
        assert(b[p] == Piece::of(us.opp(), PieceType::Pawn));
    }
}

} // verus!
