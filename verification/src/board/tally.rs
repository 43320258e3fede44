//! What a placement of pieces amounts to: counts, material and hash keys.
//!
//! A placement is a sequence of 64 pieces, one per square. Each quantity here is a fold over
//! the squares; the lemmas say how it changes when the piece on one square changes, which is
//! what lets a move maintain it without a second look at the board.

use vstd::prelude::*;
use crate::board::types::{CastlingRights, Color, Key, Piece, PieceType, SquareOrNone};
use crate::board::zobrist;

verus! {

/// The pieces a partial key ranges over.
pub enum Sel {
    /// Every piece.
    Every,
    /// Pawns.
    Pawns,
    /// Knights and bishops.
    Minors,
    /// Every piece of one colour but its pawns.
    NonPawns(Color),
}

impl Sel {
    /// The selection holds `pc`.
    pub open spec fn takes(self, pc: Piece) -> bool {
        match self {
            Sel::Every => true,
            Sel::Pawns => pc.kind() == PieceType::Pawn,
            Sel::Minors => pc.kind() == PieceType::Knight || pc.kind() == PieceType::Bishop,
            Sel::NonPawns(c) => pc.is_real() && pc.kind() != PieceType::Pawn && pc.side() == c,
        }
    }
}

/// What `pc` on square `i` contributes to a partial key.
pub open spec fn part(sel: Sel, pc: Piece, i: int) -> Key {
    if sel.takes(pc) {
        zobrist::psq_key(pc, i)
    } else {
        0
    }
}

/// The exclusive or of the selected pieces' keys over the first `n` squares.
pub open spec fn xor_upto(b: Seq<Piece>, sel: Sel, n: int) -> Key
    decreases n,
{
    if n <= 0 {
        0
    } else {
        xor_upto(b, sel, n - 1) ^ part(sel, b[n - 1], n - 1)
    }
}

/// The exclusive or of the selected pieces' keys.
pub open spec fn xor_all(b: Seq<Piece>, sel: Sel) -> Key {
    xor_upto(b, sel, 64)
}

/// How many of the first `n` squares hold `pc`.
pub open spec fn count_upto(b: Seq<Piece>, pc: Piece, n: int) -> int
    decreases n,
{
    if n <= 0 {
        0
    } else {
        count_upto(b, pc, n - 1) + (if b[n - 1] == pc {
            1int
        } else {
            0int
        })
    }
}

/// How many squares hold `pc`.
pub open spec fn count_of(b: Seq<Piece>, pc: Piece) -> int {
    count_upto(b, pc, 64)
}

/// The non-pawn value of `pc` when it belongs to `c`; a king is worth nothing.
pub open spec fn piece_part(c: Color, pc: Piece) -> int {
    if pc.side() == c && pc.kind() != PieceType::Pawn {
        pc.kind().worth()
    } else {
        0
    }
}

/// The non-pawn material of `c` on the first `n` squares.
pub open spec fn worth_upto(b: Seq<Piece>, c: Color, n: int) -> int
    decreases n,
{
    if n <= 0 {
        0
    } else {
        worth_upto(b, c, n - 1) + piece_part(c, b[n - 1])
    }
}

/// The non-pawn, non-king material of `c`.
pub open spec fn worth_of(b: Seq<Piece>, c: Color) -> int {
    worth_upto(b, c, 64)
}

/// The exclusive or of the first `k` keys of `pc`'s material column: its keys on the squares
/// from a2 on.
pub open spec fn column(pc: Piece, k: int) -> Key
    decreases k,
{
    if k <= 0 {
        0
    } else {
        column(pc, k - 1) ^ zobrist::psq_key(pc, 8 + k - 1)
    }
}

/// The piece with code `i`.
pub open spec fn coded(i: int) -> Piece {
    choose|pc: Piece| pc.code() == i
}

/// The material key over the codes below `n`.
pub open spec fn material_upto(b: Seq<Piece>, n: int) -> Key
    decreases n,
{
    if n <= 0 {
        0
    } else {
        material_upto(b, n - 1) ^ column(coded(n - 1), count_of(b, coded(n - 1)))
    }
}

/// The material key: every piece of each kind, counted, with no square information.
pub open spec fn material_of(b: Seq<Piece>) -> Key {
    material_upto(b, 16)
}

/// The pawn key: seeded, so that an empty pawn structure has a key of its own.
pub open spec fn pawn_key_of(b: Seq<Piece>) -> Key {
    zobrist::no_pawns_key() ^ xor_all(b, Sel::Pawns)
}

/// The part of a position key that is not about pieces: en passant, side and castling.
pub open spec fn extras(stm: Color, ep: SquareOrNone, cr: CastlingRights) -> Key {
    let e: Key = match ep {
        SquareOrNone::At(s) => zobrist::ep_key(s.idx() % 8),
        SquareOrNone::NONE => 0,
    };
    let s: Key = if stm == Color::Black {
        zobrist::side_key()
    } else {
        0
    };
    (e ^ s) ^ zobrist::castling_key(cr.nibble())
}

/// The position key.
pub open spec fn key_of(b: Seq<Piece>, stm: Color, ep: SquareOrNone, cr: CastlingRights) -> Key {
    xor_all(b, Sel::Every) ^ extras(stm, ep, cr)
}

// ---------------------------------------------------------------------------
// One square at a time
// ---------------------------------------------------------------------------

/// The algebra of exclusive or.
pub proof fn lemma_xor(a: u64, b: u64, c: u64)
    ensures
        a ^ 0 == a,
        0 ^ a == a,
        a ^ b == b ^ a,
        (a ^ b) ^ c == (a ^ c) ^ b,
        (a ^ b) ^ c == a ^ (b ^ c),
        (a ^ b) ^ b == a,
        a ^ a == 0,
{
    assert(a ^ 0 == a && 0 ^ a == a && a ^ b == b ^ a && (a ^ b) ^ c == (a ^ c) ^ b && (a ^ b) ^ c == a
        ^ (b ^ c) && (a ^ b) ^ b == a && a ^ a == 0) by (bit_vector);
}

/// A change on one square changes a key by the two pieces' parts.
pub proof fn lemma_xor_update(b: Seq<Piece>, sel: Sel, s: int, p: Piece, n: int)
    requires
        b.len() == 64,
        0 <= s < 64,
        0 <= n <= 64,
    ensures
        xor_upto(b.update(s, p), sel, n) == (if s < n {
            (xor_upto(b, sel, n) ^ part(sel, b[s], s)) ^ part(sel, p, s)
        } else {
            xor_upto(b, sel, n)
        }),
    decreases n,
{
    if n > 0 {
        lemma_xor_update(b, sel, s, p, n - 1);
        let x = xor_upto(b, sel, n - 1);
        let o = part(sel, b[s], s);
        let w = part(sel, p, s);
        if s == n - 1 {
            lemma_xor(x, o, w);
        } else if s < n - 1 {
            let y = part(sel, b[n - 1], n - 1);
            lemma_xor(x ^ o, w, y);
            lemma_xor(x, o, y);
        }
    }
}

/// A change on one square changes two counts.
pub proof fn lemma_count_update(b: Seq<Piece>, pc: Piece, s: int, p: Piece, n: int)
    requires
        b.len() == 64,
        0 <= s < 64,
        0 <= n <= 64,
    ensures
        count_upto(b.update(s, p), pc, n) == count_upto(b, pc, n) + (if s < n {
            (if p == pc {
                1int
            } else {
                0int
            }) - (if b[s] == pc {
                1int
            } else {
                0int
            })
        } else {
            0int
        }),
    decreases n,
{
    if n > 0 {
        lemma_count_update(b, pc, s, p, n - 1);
    }
}

/// A count is at most the number of squares, and positive where the piece stands.
pub proof fn lemma_count_bounds(b: Seq<Piece>, pc: Piece, n: int)
    requires
        b.len() == 64,
        0 <= n <= 64,
    ensures
        0 <= count_upto(b, pc, n) <= n,
        forall|i: int| 0 <= i < n && #[trigger] b[i] == pc ==> count_upto(b, pc, n) >= 1,
        count_upto(b, pc, n) >= 1 ==> exists|i: int| 0 <= i < n && b[i] == pc,
    decreases n,
{
    if n > 0 {
        lemma_count_bounds(b, pc, n - 1);
        if count_upto(b, pc, n) >= 1 {
            if b[n - 1] == pc {
            } else {
                let i = choose|i: int| 0 <= i < n - 1 && b[i] == pc;
                assert(b[i] == pc);
            }
        }
    }
}

/// Two squares with the same piece make a count of two.
pub proof fn lemma_count_two(b: Seq<Piece>, pc: Piece, i: int, j: int)
    requires
        b.len() == 64,
        0 <= i < 64,
        0 <= j < 64,
        i != j,
        b[i] == pc,
        b[j] == pc,
    ensures
        count_of(b, pc) >= 2,
{
    let other = if pc == Piece::NONE {
        Piece::W_PAWN
    } else {
        Piece::NONE
    };
    lemma_count_update(b, pc, i, other, 64);
    lemma_count_bounds(b.update(i, other), pc, 64);
    assert(b.update(i, other)[j] == pc);
}

/// A change on one square changes the material sum by the two pieces' values.
pub proof fn lemma_worth_update(b: Seq<Piece>, c: Color, s: int, p: Piece, n: int)
    requires
        b.len() == 64,
        0 <= s < 64,
        0 <= n <= 64,
    ensures
        worth_upto(b.update(s, p), c, n) == worth_upto(b, c, n) + (if s < n {
            piece_part(c, p) - piece_part(c, b[s])
        } else {
            0int
        }),
    decreases n,
{
    if n > 0 {
        lemma_worth_update(b, c, s, p, n - 1);
    }
}

/// The material sum is bounded by a board full of queens.
pub proof fn lemma_worth_bounds(b: Seq<Piece>, c: Color, n: int)
    requires
        b.len() == 64,
        0 <= n <= 64,
    ensures
        0 <= worth_upto(b, c, n) <= 2538 * n,
    decreases n,
{
    if n > 0 {
        lemma_worth_bounds(b, c, n - 1);
    }
}

/// A code that names no piece has a zero column.
pub proof fn lemma_column_gap(pc: Piece, k: int)
    requires
        !pc.is_real(),
    ensures
        column(pc, k) == 0,
    decreases k,
{
    if k > 0 {
        lemma_column_gap(pc, k - 1);
        lemma_xor(0, 0, 0);
    }
}

/// Codes name pieces.
pub proof fn lemma_coded(pc: Piece)
    ensures
        coded(pc.code()) == pc,
{
    assert(coded(pc.code()).code() == pc.code());
}

/// Every code below sixteen names a piece.
proof fn lemma_code_range(i: int)
    requires
        0 <= i < 16,
    ensures
        coded(i).code() == i,
{
    assert(Piece::NONE.code() == 0 && Piece::W_PAWN.code() == 1 && Piece::W_KNIGHT.code() == 2
        && Piece::W_BISHOP.code() == 3 && Piece::W_ROOK.code() == 4 && Piece::W_QUEEN.code() == 5
        && Piece::W_KING.code() == 6 && Piece::W_GAP.code() == 7 && Piece::B_NONE.code() == 8
        && Piece::B_PAWN.code() == 9 && Piece::B_KNIGHT.code() == 10 && Piece::B_BISHOP.code() == 11
        && Piece::B_ROOK.code() == 12 && Piece::B_QUEEN.code() == 13 && Piece::B_KING.code() == 14
        && Piece::B_GAP.code() == 15);
    assert(exists|pc: Piece| pc.code() == i);
}

/// A placement that differs only in how many of one real piece it holds has the old material
/// key with that piece's column exchanged.
proof fn lemma_material_change(a: Seq<Piece>, b: Seq<Piece>, pc: Piece, n: int)
    requires
        0 <= n <= 16,
        forall|q: Piece| q.is_real() && q != pc ==> #[trigger] count_of(a, q) == count_of(b, q),
    ensures
        material_upto(b, n) == (if pc.code() < n {
            (material_upto(a, n) ^ column(pc, count_of(a, pc))) ^ column(pc, count_of(b, pc))
        } else {
            material_upto(a, n)
        }),
    decreases n,
{
    if n > 0 {
        lemma_material_change(a, b, pc, n - 1);
        let q = coded(n - 1);
        lemma_code_range(n - 1);
        let x = material_upto(a, n - 1);
        let ca = column(q, count_of(a, q));
        let cb = column(q, count_of(b, q));
        if q == pc {
            lemma_xor(x, ca, cb);
        } else {
            if !q.is_real() {
                lemma_column_gap(q, count_of(a, q));
                lemma_column_gap(q, count_of(b, q));
            }
            assert(ca == cb);
            assert(q.code() == n - 1);
            if pc.code() == n - 1 {
                lemma_coded(pc);
            }
            if pc.code() < n - 1 {
                let o = column(pc, count_of(a, pc));
                let w = column(pc, count_of(b, pc));
                lemma_xor(x ^ o, w, ca);
                lemma_xor(x, o, ca);
            }
        }
    }
}

/// Placing a real piece on an empty square adds the next key of its column.
pub proof fn lemma_material_place(b: Seq<Piece>, s: int, pc: Piece)
    requires
        b.len() == 64,
        0 <= s < 64,
        b[s] == Piece::NONE,
        pc.is_real(),
    ensures
        material_of(b.update(s, pc)) == material_of(b) ^ zobrist::psq_key(pc, 8 + count_of(b, pc)),
{
    let b2 = b.update(s, pc);
    assert forall|q: Piece| q.is_real() && q != pc implies #[trigger] count_of(b, q) == count_of(b2, q) by {
        lemma_count_update(b, q, s, pc, 64);
    }
    lemma_count_update(b, pc, s, pc, 64);
    lemma_count_bounds(b, pc, 64);
    lemma_material_change(b, b2, pc, 16);
    let x = material_of(b);
    let o = column(pc, count_of(b, pc));
    let k = zobrist::psq_key(pc, 8 + count_of(b, pc));
    assert(column(pc, count_of(b2, pc)) == o ^ k);
    lemma_xor(x ^ o, o, k);
    lemma_xor(x, o, o);
}

} // verus!
