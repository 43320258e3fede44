//! Making a move while recording what it does to the threats and the pawns.

use vstd::prelude::*;
use crate::board::bitboard::Bitboard;
use crate::board::placement::Board;
use crate::board::position;
use crate::board::position::Position;
use crate::board::threats;
use crate::board::threats::{record_placement, DirtyPawnPairs, DirtyThreat};
use crate::board::transition;
use crate::board::transition::castle_squares;
use crate::board::types::{Color, Direction, Move, MoveType, Piece, PieceType, Square};

verus! {

/// What taking the piece on `s` away changes.
#[verifier::opaque]
pub open spec fn lifting(b: Seq<Piece>, s: int) -> Seq<DirtyThreat> {
    if b[s] == Piece::NONE {
        Seq::empty()
    } else {
        threats::threat_changes(b, b[s], false, s, 0xFFFF_FFFF_FFFF_FFFF, true)
    }
}

/// What putting `pc` on `s` changes.
#[verifier::opaque]
pub open spec fn dropping(b: Seq<Piece>, pc: Piece, s: int) -> Seq<DirtyThreat> {
    threats::threat_changes(b.update(s, pc), pc, true, s, 0xFFFF_FFFF_FFFF_FFFF, true)
}

/// What lifting the pieces on `s` and `t`, in this order, changes.
pub open spec fn lifting_two(b: Seq<Piece>, s: int, t: int) -> Seq<DirtyThreat> {
    lifting(b, s) + lifting(b.update(s, Piece::NONE), t)
}

/// Every change of a threat that a move of `us` makes, piece by piece: what leaves the board,
/// then what arrives.
pub open spec fn changes_of(b: Seq<Piece>, us: Color, m: Move) -> Seq<DirtyThreat> {
    if m.kind() == MoveType::Castling {
        let kt = position::castle_king_to(m.src(), m.dst() > m.src());
        let rt = position::castle_rook_to(m.src(), m.dst() > m.src());
        let b2 = b.update(m.src(), Piece::NONE).update(m.dst(), Piece::NONE);
        lifting_two(b, m.src(), m.dst()) + dropping(b2, b[m.src()], kt) + dropping(
            b2.update(kt, b[m.src()]),
            b[m.dst()],
            rt,
        )
    } else {
        let cs = transition::capture_square(us, m);
        let b2 = b.update(cs, Piece::NONE).update(m.src(), Piece::NONE);
        lifting_two(b, cs, m.src()) + dropping(b2, transition::arriving(b, us, m), m.dst())
    }
}

/// Take the piece on `sq` away, recording what that changes.
fn lift(board: &mut Board, out: &mut Vec<DirtyThreat>, sq: Square) -> (r: Piece)
    requires
        old(board).wf(),
    ensures
        final(board).wf(),
        final(board)@ == old(board)@.update(sq.idx(), Piece::NONE),
        final(out)@ == old(out)@ + lifting(old(board)@, sq.idx()),
        r == old(board)@[sq.idx()],
{
    broadcast use Square::lemma_idx;

    proof {
        reveal(lifting);
    }
    let pc = board.piece_on(sq);
    if !pc.is_none() {
        record_placement(board, pc, false, sq, out, Bitboard(0xFFFF_FFFF_FFFF_FFFF), true);
        board.remove_piece(sq);
    } else {
        assert(board@ =~= board@.update(sq.idx(), Piece::NONE));
        assert(out@ =~= out@ + lifting(board@, sq.idx()));
    }
    pc
}

/// Put `pc` on the empty square `sq`, recording what that changes.
fn place(board: &mut Board, out: &mut Vec<DirtyThreat>, pc: Piece, sq: Square)
    requires
        old(board).wf(),
        pc.is_real(),
        old(board)@[sq.idx()] == Piece::NONE,
    ensures
        final(board).wf(),
        final(board)@ == old(board)@.update(sq.idx(), pc),
        final(out)@ == old(out)@ + dropping(old(board)@, pc, sq.idx()),
{
    proof {
        reveal(dropping);
    }
    board.put_piece(pc, sq);
    record_placement(board, pc, true, sq, out, Bitboard(0xFFFF_FFFF_FFFF_FFFF), true);
}

/// Append the changes of the threats that castling makes.
fn record_castling(start: &Board, us: Color, m: Move, out: &mut Vec<DirtyThreat>)
    requires
        start.wf(),
        transition::can_make(start@, us, m),
        m.kind() == MoveType::Castling,
    ensures
        final(out)@ == old(out)@ + changes_of(start@, us, m),
{
    broadcast use {Square::lemma_idx, Square::lemma_inj};

    let ghost b = start@;
    let ghost out0 = out@;
    let mut board = *start;
    let from = m.from();
    let to = m.to();
    let (king_to, rook_to) = castle_squares(from, to);
    let king = lift(&mut board, out, from);
    let rook = lift(&mut board, out, to);
    assert(king == b[m.src()]);
    assert(rook == b[m.dst()]);
    place(&mut board, out, king, king_to);
    place(&mut board, out, rook, rook_to);
    assert(out@ =~= out0 + changes_of(b, us, m));
}

/// Append the changes of the threats that a move other than castling makes.
fn record_plain(start: &Board, us: Color, m: Move, out: &mut Vec<DirtyThreat>)
    requires
        start.wf(),
        transition::can_make(start@, us, m),
        m.kind() != MoveType::Castling,
    ensures
        final(out)@ == old(out)@ + changes_of(start@, us, m),
{
    broadcast use {Square::lemma_idx, Square::lemma_inj};

    let ghost b = start@;
    let ghost out0 = out@;
    let mut board = *start;
    let from = m.from();
    let to = m.to();
    let mt = m.move_type();
    let capsq = if mt == MoveType::EnPassant {
        to.shift(Direction::pawn_push(us.flip()))
    } else {
        to
    };
    assert(capsq.idx() == transition::capture_square(us, m));
    let _ = lift(&mut board, out, capsq);
    let pc = lift(&mut board, out, from);
    let arrived = if mt == MoveType::Promotion {
        Piece::new(us, m.promotion_type())
    } else {
        pc
    };
    assert(arrived == transition::arriving(b, us, m));
    place(&mut board, out, arrived, to);
    assert(out@ =~= out0 + changes_of(b, us, m));
}

/// Append the changes of the threats that a move makes.
pub fn record_changes(start: &Board, us: Color, m: Move, out: &mut Vec<DirtyThreat>)
    requires
        start.wf(),
        transition::can_make(start@, us, m),
    ensures
        final(out)@ == old(out)@ + changes_of(start@, us, m),
{
    if m.move_type() == MoveType::Castling {
        record_castling(start, us, m, out);
    } else {
        record_plain(start, us, m, out);
    }
}

/// The two words are the pawns of White and of Black.
pub open spec fn holds_pawns_of(b: Seq<Piece>, words: Seq<Bitboard>) -> bool {
    &&& forall|i: int| 0 <= i < 64 ==> #[trigger] words[0].has(i) == (b[i] == Piece::W_PAWN)
    &&& forall|i: int| 0 <= i < 64 ==> #[trigger] words[1].has(i) == (b[i] == Piece::B_PAWN)
}

/// The pawns of both sides.
fn pawn_words(board: &Board) -> (r: [Bitboard; 2])
    requires
        board.wf(),
    ensures
        holds_pawns_of(board@, r@),
{
    [
        board.pieces_of(Color::White, PieceType::Pawn),
        board.pieces_of(Color::Black, PieceType::Pawn),
    ]
}

impl Position {
    /// Make a move, and record what it does: the changes of the threats are
    /// appended to `out`, where the caller wants them, and the pawns before and after are
    /// returned.
    pub fn do_move_recording(
        &mut self,
        m: Move,
        gives_check: bool,
        out: Option<&mut Vec<DirtyThreat>>,
    ) -> (r: DirtyPawnPairs)
        requires
            old(self).wf(),
            old(self).accepts(m),
        ensures
            final(self).wf(),
            old(self).made(final(self), m, gives_check),
            out matches Some(v) ==> final(v)@ == v@ + changes_of(
                old(self).board@,
                old(self).side_to_move,
                m,
            ),
            holds_pawns_of(old(self).board@, r.before@),
            holds_pawns_of(final(self).board@, r.after@),
    {
        let before = pawn_words(&self.board);
        if let Some(list) = out {
            record_changes(&self.board, self.side_to_move, m, list);
        }
        self.do_move_checked(m, gives_check);
        DirtyPawnPairs { before, after: pawn_words(&self.board) }
    }
}

} // verus!
