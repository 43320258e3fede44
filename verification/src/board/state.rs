//! The per-ply state of a game.
//!
//! A [`StateInfo`] holds what a move cannot recompute cheaply on the way back: the keys and
//! material of the placement, the clocks, the rights, and the caches around the two kings.
//! The spec functions here say what each group of fields must equal for a given placement.

use vstd::prelude::*;
use vstd::array::array_fill_for_copy_types;
use crate::board::attacks::{bishop_attacks, rook_attacks};
use crate::board::attacks;
use crate::board::bitboard::{knight_attacks, pawn_attacks_from, Bitboard};
use crate::board::bits;
use crate::board::placement::Board;
use crate::board::placement;
use crate::board::tally;
use crate::board::types::{
    piece_value, CastlingRights, Color, Key, Piece, PieceType, Square, SquareOrNone, Value,
};
use crate::board::zobrist::Tables;
use crate::board::zobrist;

verus! {

/// Per-ply state that a move cannot cheaply undo.
#[derive(Clone, Copy, Debug)]
pub struct StateInfo {
    /// Hashes the material only: every piece of each kind, counted, with no square
    /// information.
    pub material_key: Key,
    /// Pawns only, seeded so that an empty pawn structure still has a distinct key.
    pub pawn_key: Key,
    /// Knights and bishops only.
    pub minor_piece_key: Key,
    /// Every non-pawn of that colour, its king with them.
    pub non_pawn_key: [Key; 2],
    /// Sum of each colour's non-pawn, non-king piece values.
    pub non_pawn_material: [Value; 2],
    /// Halfmove clock, in plies.
    pub rule50: i32,
    /// Plies since the last null move, bounding the repetition walk.
    pub plies_from_null: i32,
    /// The en-passant target, if there is one.
    pub ep_square: SquareOrNone,
    /// The castling rights still available.
    pub castling_rights: CastlingRights,
    /// The position key.
    pub key: Key,
    /// Pieces of the side not to move that give check.
    pub checkers: Bitboard,
    /// Own pieces whose move could expose their own king, per colour.
    pub blockers: [Bitboard; 2],
    /// The sliders of that colour that would deliver the discovered check.
    pub pinners: [Bitboard; 2],
    /// Squares from which a piece of each type would check the enemy king.
    pub check_squares: [Bitboard; 7],
    /// The piece the move captured.
    pub captured_piece: Piece,
    /// Distance in plies back to the previous occurrence of this position: positive for the
    /// first repetition, negative when that earlier occurrence was itself a repetition, 0
    /// when never repeated.
    pub repetition: i32,
}

impl StateInfo {
    /// The keys and the material are those of the placement `b`.
    pub open spec fn tallied(&self, b: Seq<Piece>) -> bool {
        &&& self.material_key == tally::material_of(b)
        &&& self.pawn_key == tally::pawn_key_of(b)
        &&& self.minor_piece_key == tally::xor_all(b, tally::Sel::Minors)
        &&& self.non_pawn_key@[0] == tally::xor_all(b, tally::Sel::NonPawns(Color::White))
        &&& self.non_pawn_key@[1] == tally::xor_all(b, tally::Sel::NonPawns(Color::Black))
        &&& self.non_pawn_material@[0].0 == tally::worth_of(b, Color::White)
        &&& self.non_pawn_material@[1].0 == tally::worth_of(b, Color::Black)
    }

    /// The position key is that of the placement `b` with `stm` to move.
    pub open spec fn keyed(&self, b: Seq<Piece>, stm: Color) -> bool {
        self.key == tally::key_of(b, stm, self.ep_square, self.castling_rights)
    }

    /// The part of the position key that is not the keys of the pieces of `b`.
    pub open spec fn residue(&self, b: Seq<Piece>) -> Key {
        self.key ^ tally::xor_all(b, tally::Sel::Every)
    }

    /// The pin and check-square caches are those of the placement `b` with `stm` to move.
    pub open spec fn surveyed(&self, b: Seq<Piece>, stm: Color) -> bool {
        &&& forall|c: Color, u: int|
            #![trigger self.blockers@[c.idx()].has(u)]
            self.blockers@[c.idx()].has(u) == (placement::blocker(
                b,
                c.opp(),
                placement::king(b, c),
                u,
            ) && b[u].side() == c)
        &&& forall|c: Color, q: int|
            #![trigger self.pinners@[c.idx()].has(q)]
            self.pinners@[c.idx()].has(q) == placement::pinner(
                b,
                c,
                placement::king(b, c.opp()),
                q,
            )
        &&& forall|pt: PieceType, t: int|
            #![trigger self.check_squares@[pt.idx()].has(t)]
            self.check_squares@[pt.idx()].has(t) == (pt != PieceType::King && attacks::hits(
                stm,
                pt,
                placement::occ(b),
                t,
                placement::king(b, stm.opp()),
            ))
    }

    /// The checkers are the enemy pieces that attack the king of `stm`.
    pub open spec fn checked(&self, b: Seq<Piece>, stm: Color) -> bool {
        forall|s: int| #[trigger]
            self.checkers.has(s) == checks(b, stm.opp(), placement::king(b, stm), s)
    }

    /// No key, no material, no check, no pin and no check square.
    pub open spec fn unsurveyed(&self) -> bool {
        &&& self.material_key == 0
        &&& self.pawn_key == 0
        &&& self.minor_piece_key == 0
        &&& self.key == 0
        &&& self.non_pawn_key@ == seq![0u64, 0u64]
        &&& self.non_pawn_material@ == seq![Value(0), Value(0)]
        &&& self.checkers == Bitboard(0)
        &&& self.blockers@ == seq![Bitboard(0), Bitboard(0)]
        &&& self.pinners@ == seq![Bitboard(0), Bitboard(0)]
        &&& self.check_squares@ == Seq::new(7, |i: int| Bitboard(0))
    }

    /// The zero state, the base of a fresh chain before a record is parsed.
    pub fn empty() -> (r: StateInfo)
        ensures
            r.rule50 == 0,
            r.plies_from_null == 0,
            r.ep_square == SquareOrNone::NONE,
            r.castling_rights == CastlingRights::of(false, false, false, false),
            r.captured_piece == Piece::NONE,
            r.repetition == 0,
            r.unsurveyed(),
    {
        let r = StateInfo {
            material_key: 0,
            pawn_key: 0,
            minor_piece_key: 0,
            non_pawn_key: [0; 2],
            non_pawn_material: [Value(0), Value(0)],
            rule50: 0,
            plies_from_null: 0,
            ep_square: SquareOrNone::NONE,
            castling_rights: CastlingRights::none(),
            key: 0,
            checkers: Bitboard(0),
            blockers: [Bitboard(0), Bitboard(0)],
            pinners: [Bitboard(0), Bitboard(0)],
            check_squares: array_fill_for_copy_types::<Bitboard, 7>(Bitboard(0)),
            captured_piece: Piece::NONE,
            repetition: 0,
        };
        assert(r.non_pawn_key@ =~= seq![0u64, 0u64]);
        assert(r.non_pawn_material@ =~= seq![Value(0), Value(0)]);
        assert(r.blockers@ =~= seq![Bitboard(0), Bitboard(0)]);
        assert(r.pinners@ =~= seq![Bitboard(0), Bitboard(0)]);
        assert(r.check_squares@ =~= Seq::new(7, |i: int| Bitboard(0)));
        r
    }

    /// The prefix a move carries forward. Everything from `key` on is recomputed.
    pub fn carried_forward(&self) -> (r: StateInfo)
        ensures
            r.material_key == self.material_key,
            r.pawn_key == self.pawn_key,
            r.minor_piece_key == self.minor_piece_key,
            r.non_pawn_key == self.non_pawn_key,
            r.non_pawn_material == self.non_pawn_material,
            r.rule50 == self.rule50,
            r.plies_from_null == self.plies_from_null,
            r.ep_square == self.ep_square,
            r.castling_rights == self.castling_rights,
            r.captured_piece == Piece::NONE,
            r.repetition == 0,
            r.checkers == Bitboard(0),
            r.key == 0,
            r.blockers@ == seq![Bitboard(0), Bitboard(0)],
            r.pinners@ == seq![Bitboard(0), Bitboard(0)],
            r.check_squares@ == Seq::new(7, |i: int| Bitboard(0)),
    {
        let r = StateInfo {
            material_key: self.material_key,
            pawn_key: self.pawn_key,
            minor_piece_key: self.minor_piece_key,
            non_pawn_key: self.non_pawn_key,
            non_pawn_material: self.non_pawn_material,
            rule50: self.rule50,
            plies_from_null: self.plies_from_null,
            ep_square: self.ep_square,
            castling_rights: self.castling_rights,
            key: 0,
            checkers: Bitboard(0),
            blockers: [Bitboard(0), Bitboard(0)],
            pinners: [Bitboard(0), Bitboard(0)],
            check_squares: array_fill_for_copy_types::<Bitboard, 7>(Bitboard(0)),
            captured_piece: Piece::NONE,
            repetition: 0,
        };
        assert(r.blockers@ =~= seq![Bitboard(0), Bitboard(0)]);
        assert(r.pinners@ =~= seq![Bitboard(0), Bitboard(0)]);
        assert(r.check_squares@ =~= Seq::new(7, |i: int| Bitboard(0)));
        r
    }

    /// The fields that no placement of a piece touches are unchanged.
    pub open spec fn same_frame(&self, other: &StateInfo) -> bool {
        &&& self.rule50 == other.rule50
        &&& self.plies_from_null == other.plies_from_null
        &&& self.ep_square == other.ep_square
        &&& self.castling_rights == other.castling_rights
        &&& self.checkers == other.checkers
        &&& self.blockers == other.blockers
        &&& self.pinners == other.pinners
        &&& self.check_squares == other.check_squares
        &&& self.captured_piece == other.captured_piece
        &&& self.repetition == other.repetition
    }

    /// Toggle the keys of `pc` on `sq`, where `nth` is the square of the material column
    /// that its count reaches.
    fn toggle(&mut self, z: &Tables, pc: Piece, sq: Square, nth: Square)
        requires
            z.wf(),
            pc.is_real(),
        ensures
            final(self).same_frame(old(self)),
            final(self).non_pawn_material == old(self).non_pawn_material,
            final(self).key == old(self).key ^ zobrist::psq_key(pc, sq.idx()),
            final(self).material_key == old(self).material_key ^ zobrist::psq_key(pc, nth.idx()),
            final(self).pawn_key == old(self).pawn_key ^ tally::part(
                tally::Sel::Pawns,
                pc,
                sq.idx(),
            ),
            final(self).minor_piece_key == old(self).minor_piece_key ^ tally::part(
                tally::Sel::Minors,
                pc,
                sq.idx(),
            ),
            final(self).non_pawn_key@[0] == old(self).non_pawn_key@[0] ^ tally::part(
                tally::Sel::NonPawns(Color::White),
                pc,
                sq.idx(),
            ),
            final(self).non_pawn_key@[1] == old(self).non_pawn_key@[1] ^ tally::part(
                tally::Sel::NonPawns(Color::Black),
                pc,
                sq.idx(),
            ),
    {
        let k: Key = z.psq(pc, sq);
        let pt = pc.piece_type();
        proof {
            tally::lemma_xor(self.pawn_key, 0, 0);
            tally::lemma_xor(self.minor_piece_key, 0, 0);
            tally::lemma_xor(self.non_pawn_key@[0], 0, 0);
            tally::lemma_xor(self.non_pawn_key@[1], 0, 0);
        }
        self.key = self.key ^ k;
        self.material_key = self.material_key ^ z.psq(pc, nth);
        if pt == PieceType::Pawn {
            self.pawn_key = self.pawn_key ^ k;
        } else {
            let c: usize = pc.color().index();
            self.non_pawn_key[c] = self.non_pawn_key[c] ^ k;
            if pt == PieceType::Knight || pt == PieceType::Bishop {
                self.minor_piece_key = self.minor_piece_key ^ k;
            }
        }
    }
}

/// The piece of `c` on `s` attacks the king square `k`.
pub open spec fn checks(b: Seq<Piece>, c: Color, k: int, s: int) -> bool {
    placement::attacks_through(b, placement::occ(b), s, k) && b[s].side() == c
}

/// No piece stands on the board often enough to leave its material column.
pub open spec fn roomy(b: Seq<Piece>) -> bool {
    forall|pc: Piece| pc.is_real() ==> #[trigger] tally::count_of(b, pc) <= 56
}

/// A key and a placement that change by the same word keep their difference.
proof fn lemma_residue(k: Key, x: Key, d: Key)
    ensures
        (k ^ d) ^ (x ^ d) == k ^ x,
{
    assert((k ^ d) ^ (x ^ d) == k ^ x) by (bit_vector);
}

/// The position key is right exactly when what the pieces leave over is the extras.
pub proof fn lemma_keyed(st: StateInfo, b: Seq<Piece>, stm: Color)
    ensures
        st.keyed(b, stm) <==> st.residue(b) == tally::extras(
            stm,
            st.ep_square,
            st.castling_rights,
        ),
{
    let x = tally::xor_all(b, tally::Sel::Every);
    let e = tally::extras(stm, st.ep_square, st.castling_rights);
    tally::lemma_xor(x, e, x);
    tally::lemma_xor(e, x, x);
    tally::lemma_xor(st.key, x, x);
    tally::lemma_xor(x, st.key, x);
}

/// How the partial keys and sums of a placement change when one square is filled.
proof fn lemma_fill(b: Seq<Piece>, s: int, pc: Piece)
    requires
        b.len() == 64,
        0 <= s < 64,
        b[s] == Piece::NONE,
        pc.is_real(),
    ensures
        forall|sel: tally::Sel| #[trigger]
            tally::xor_all(b.update(s, pc), sel) == tally::xor_all(b, sel) ^ tally::part(sel, pc, s),
        forall|c: Color| #[trigger]
            tally::worth_of(b.update(s, pc), c) == tally::worth_of(b, c) + tally::piece_part(c, pc),
        tally::pawn_key_of(b.update(s, pc)) == tally::pawn_key_of(b) ^ tally::part(
            tally::Sel::Pawns,
            pc,
            s,
        ),
        tally::material_of(b.update(s, pc)) == tally::material_of(b) ^ zobrist::psq_key(
            pc,
            8 + tally::count_of(b, pc),
        ),
        forall|q: Piece| #[trigger]
            tally::count_of(b.update(s, pc), q) == tally::count_of(b, q) + (if q == pc {
                1int
            } else {
                0int
            }) - (if q == Piece::NONE {
                1int
            } else {
                0int
            }),
{
    assert forall|sel: tally::Sel| #[trigger]
        tally::xor_all(b.update(s, pc), sel) == tally::xor_all(b, sel) ^ tally::part(sel, pc, s) by {
        tally::lemma_xor_update(b, sel, s, pc, 64);
        assert(tally::part(sel, Piece::NONE, s) == 0);
        tally::lemma_xor(tally::xor_all(b, sel), 0, 0);
    }
    assert forall|c: Color| #[trigger]
        tally::worth_of(b.update(s, pc), c) == tally::worth_of(b, c) + tally::piece_part(c, pc) by {
        tally::lemma_worth_update(b, c, s, pc, 64);
    }
    tally::lemma_xor(
        zobrist::no_pawns_key(),
        tally::xor_all(b, tally::Sel::Pawns),
        tally::part(tally::Sel::Pawns, pc, s),
    );
    tally::lemma_material_place(b, s, pc);
    assert forall|q: Piece| #[trigger]
        tally::count_of(b.update(s, pc), q) == tally::count_of(b, q) + (if q == pc {
            1int
        } else {
            0int
        }) - (if q == Piece::NONE {
            1int
        } else {
            0int
        }) by {
        tally::lemma_count_update(b, q, s, pc, 64);
    }
}

/// Put `pc` on the empty square `sq`, and let the state follow.
pub fn place(board: &mut Board, st: &mut StateInfo, z: &Tables, pc: Piece, sq: Square)
    requires
        old(board).wf(),
        z.wf(),
        old(st).tallied(old(board)@),
        pc.is_real(),
        old(board)@[sq.idx()] == Piece::NONE,
        tally::count_of(old(board)@, pc) < 56,
    ensures
        final(board).wf(),
        final(board)@ == old(board)@.update(sq.idx(), pc),
        final(st).tallied(final(board)@),
        final(st).same_frame(old(st)),
        final(st).residue(final(board)@) == old(st).residue(old(board)@),
        forall|q: Piece|
            q.is_real() ==> #[trigger] tally::count_of(final(board)@, q) == tally::count_of(
                old(board)@,
                q,
            ) + (if q == pc {
                1int
            } else {
                0int
            }),
{
    broadcast use Square::lemma_idx;

    let n: i32 = board.count(pc.color(), pc.piece_type());
    proof {
        assert(Piece::of(pc.side(), pc.kind()) == pc);
        lemma_fill(board@, sq.idx(), pc);
        lemma_residue(
            st.key,
            tally::xor_all(board@, tally::Sel::Every),
            zobrist::psq_key(pc, sq.idx()),
        );
    }
    let nth = Square::new(8 + n as usize);
    st.toggle(z, pc, sq, nth);
    if pc.piece_type() != PieceType::Pawn {
        let c: usize = pc.color().index();
        proof {
            tally::lemma_worth_bounds(board@, pc.side(), 64);
        }
        st.non_pawn_material[c] = Value(st.non_pawn_material[c].0 + piece_value(pc).0);
    }
    board.put_piece(pc, sq);
}

/// Take the piece on `sq` off the board, and let the state follow.
pub fn lift(board: &mut Board, st: &mut StateInfo, z: &Tables, sq: Square) -> (pc: Piece)
    requires
        old(board).wf(),
        z.wf(),
        old(st).tallied(old(board)@),
        old(board)@[sq.idx()] != Piece::NONE,
        tally::count_of(old(board)@, old(board)@[sq.idx()]) <= 56,
    ensures
        pc == old(board)@[sq.idx()],
        pc.is_real(),
        final(board).wf(),
        final(board)@ == old(board)@.update(sq.idx(), Piece::NONE),
        final(st).tallied(final(board)@),
        final(st).same_frame(old(st)),
        final(st).residue(final(board)@) == old(st).residue(old(board)@),
        forall|q: Piece|
            q.is_real() ==> #[trigger] tally::count_of(final(board)@, q) == tally::count_of(
                old(board)@,
                q,
            ) - (if q == pc {
                1int
            } else {
                0int
            }),
{
    broadcast use Square::lemma_idx;

    let pc = board.piece_on(sq);
    let n: i32 = board.count(pc.color(), pc.piece_type());
    let ghost b0 = board@;
    let ghost s = sq.idx();
    let ghost st0 = *st;
    board.remove_piece(sq);
    proof {
        let b1 = board@;
        assert(Piece::of(pc.side(), pc.kind()) == pc);
        lemma_fill(b1, s, pc);
        assert(b1.update(s, pc) =~= b0);
        tally::lemma_count_bounds(b0, pc, 64);
        tally::lemma_count_bounds(b1, pc, 64);
        let e = tally::xor_all(b1, tally::Sel::Every);
        tally::lemma_xor(e, zobrist::psq_key(pc, s), 0);
        lemma_residue(st.key, tally::xor_all(b0, tally::Sel::Every), zobrist::psq_key(pc, s));
        tally::lemma_xor(tally::pawn_key_of(b1), tally::part(tally::Sel::Pawns, pc, s), 0);
        tally::lemma_xor(
            tally::xor_all(b1, tally::Sel::Minors),
            tally::part(tally::Sel::Minors, pc, s),
            0,
        );
        tally::lemma_xor(
            tally::xor_all(b1, tally::Sel::NonPawns(Color::White)),
            tally::part(tally::Sel::NonPawns(Color::White), pc, s),
            0,
        );
        tally::lemma_xor(
            tally::xor_all(b1, tally::Sel::NonPawns(Color::Black)),
            tally::part(tally::Sel::NonPawns(Color::Black), pc, s),
            0,
        );
        tally::lemma_xor(
            tally::material_of(b1),
            zobrist::psq_key(pc, 8 + tally::count_of(b1, pc)),
            0,
        );
    }
    let nth = Square::new(8 + n as usize - 1);
    st.toggle(z, pc, sq, nth);
    if pc.piece_type() != PieceType::Pawn {
        let c: usize = pc.color().index();
        proof {
            tally::lemma_worth_bounds(b0, pc.side(), 64);
        }
        st.non_pawn_material[c] = Value(st.non_pawn_material[c].0 - piece_value(pc).0);
    }
    pc
}

/// Fill in the pin and check-square caches of a state for the board with `stm` to move.
pub fn survey(board: &Board, st: &mut StateInfo, stm: Color)
    requires
        board.wf(),
        placement::kings(board@),
    ensures
        final(st).surveyed(board@, stm),
        final(st).material_key == old(st).material_key,
        final(st).pawn_key == old(st).pawn_key,
        final(st).minor_piece_key == old(st).minor_piece_key,
        final(st).non_pawn_key == old(st).non_pawn_key,
        final(st).non_pawn_material == old(st).non_pawn_material,
        final(st).rule50 == old(st).rule50,
        final(st).plies_from_null == old(st).plies_from_null,
        final(st).ep_square == old(st).ep_square,
        final(st).castling_rights == old(st).castling_rights,
        final(st).key == old(st).key,
        final(st).checkers == old(st).checkers,
        final(st).captured_piece == old(st).captured_piece,
        final(st).repetition == old(st).repetition,
{
    broadcast use {bits::group_bits, Square::lemma_idx};

    let ghost b = board@;
    let wk = board.king_square(Color::White);
    let bk = board.king_square(Color::Black);
    let (wb, bp) = board.slider_blockers(Color::Black, wk);
    let (bb, wp) = board.slider_blockers(Color::White, bk);
    let white = wb & board.colored(Color::White);
    let black = bb & board.colored(Color::Black);
    st.blockers = [white, black];
    st.pinners = [wp, bp];
    let ksq = match stm {
        Color::White => bk,
        Color::Black => wk,
    };
    let w = board.occupied();
    let pawn = pawn_attacks_from(stm.flip(), ksq);
    let knight = knight_attacks(ksq);
    let bishop = bishop_attacks(ksq, w);
    let rook = rook_attacks(ksq, w);
    let queen = bishop | rook;
    // A king cannot give check, so its entry stays empty.
    st.check_squares = [Bitboard(0), pawn, knight, bishop, rook, queen, Bitboard(0)];
    proof {
        let k = ksq.idx();
        let cs = st.check_squares@;
        assert(cs[0] == Bitboard(0) && cs[1] == pawn && cs[2] == knight && cs[3] == bishop && cs[4]
            == rook && cs[5] == queen && cs[6] == Bitboard(0));
        assert forall|pt: PieceType, t: int| #[trigger] cs[pt.idx()].has(t) == (pt != PieceType::King
            && attacks::hits(stm, pt, placement::occ(b), t, placement::king(b, stm.opp()))) by {
            attacks::law_slider_attacks_are_symmetric(w.0, k, t);
        }
        assert forall|c: Color, u: int| #[trigger] st.blockers@[c.idx()].has(u) == (
        placement::blocker(b, c.opp(), placement::king(b, c), u) && b[u].side() == c) by {
            assert(st.blockers@[0] == white && st.blockers@[1] == black);
        }
        assert forall|c: Color, q: int| #[trigger] st.pinners@[c.idx()].has(q) == placement::pinner(
            b,
            c,
            placement::king(b, c.opp()),
            q,
        ) by {
            assert(st.pinners@[0] == wp && st.pinners@[1] == bp);
        }
    }
}

} // verus!
