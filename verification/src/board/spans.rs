//! How many squares the pieces attack on an empty board, and how many pairs of squares a piece
//! can travel between.

use vstd::prelude::*;
use crate::board::attacks;
use crate::board::bitboard;
use crate::board::bits;
use crate::board::cuckoo;
use crate::board::types::{Color, Piece, PieceType};

verus! {

// ---------------------------------------------------------------------------
// One rank
// ---------------------------------------------------------------------------

/// The ranks ahead that a pawn attacks.
pub open spec fn ahead(c: Color) -> int {
    match c {
        Color::White => 1,
        Color::Black => -1,
    }
}

/// On an empty board a piece on file `f` and rank `r` attacks file `x` of rank `y`.
pub open spec fn strikes(c: Color, pt: PieceType, f: int, r: int, x: int, y: int) -> bool {
    let df = bitboard::gap(f, x);
    let dr = bitboard::gap(r, y);
    match pt {
        PieceType::NoType => false,
        PieceType::Pawn => df == 1 && y - r == ahead(c),
        PieceType::Knight => (df == 1 && dr == 2) || (df == 2 && dr == 1),
        PieceType::Bishop => df == dr && dr != 0,
        PieceType::Rook => (df == 0) != (dr == 0),
        PieceType::Queen => (df == 0) != (dr == 0) || (df == dr && dr != 0),
        PieceType::King => df <= 1 && dr <= 1 && df + dr > 0,
    }
}

/// One where the file `d` to the left of `f` is on the board.
pub open spec fn left(f: int, d: int) -> int {
    if f - d >= 0 {
        1
    } else {
        0
    }
}

/// One where the file `d` to the right of `f` is on the board.
pub open spec fn right(f: int, d: int) -> int {
    if f + d <= 7 {
        1
    } else {
        0
    }
}

/// How many squares of the rank `y` the piece attacks.
pub open spec fn row_count(c: Color, pt: PieceType, f: int, r: int, y: int) -> int {
    let d = bitboard::gap(r, y);
    match pt {
        PieceType::NoType => 0,
        PieceType::Pawn => if y - r == ahead(c) {
            left(f, 1) + right(f, 1)
        } else {
            0
        },
        PieceType::Knight => if d == 1 {
            left(f, 2) + right(f, 2)
        } else if d == 2 {
            left(f, 1) + right(f, 1)
        } else {
            0
        },
        PieceType::Bishop => if d == 0 {
            0
        } else {
            left(f, d) + right(f, d)
        },
        PieceType::Rook => if d == 0 {
            7
        } else {
            1
        },
        PieceType::Queen => if d == 0 {
            7
        } else {
            1 + left(f, d) + right(f, d)
        },
        PieceType::King => if d == 0 {
            left(f, 1) + right(f, 1)
        } else if d == 1 {
            1 + left(f, 1) + right(f, 1)
        } else {
            0
        },
    }
}

/// The squares that the piece attacks among the first `n` of the rank `y`.
pub open spec fn row_upto(c: Color, pt: PieceType, f: int, r: int, y: int, n: int) -> int
    decreases n,
{
    if n <= 0 {
        0
    } else {
        row_upto(c, pt, f, r, y, n - 1) + (if strikes(c, pt, f, r, n - 1, y) {
            1int
        } else {
            0int
        })
    }
}

/// The squares that the piece attacks to the left on its own rank.
pub open spec fn beside(pt: PieceType, f: int) -> int {
    match pt {
        PieceType::Rook | PieceType::Queen => f,
        PieceType::King => left(f, 1),
        _ => 0,
    }
}

proof fn lemma_row(c: Color, pt: PieceType, f: int, r: int, y: int)
    requires
        0 <= f < 8,
        0 <= r < 8,
        0 <= y < 8,
    ensures
        row_upto(c, pt, f, r, y, 8) == row_count(c, pt, f, r, y),
{
    reveal_with_fuel(row_upto, 9);
}

proof fn lemma_beside(c: Color, pt: PieceType, f: int, r: int, n: int)
    requires
        0 <= n <= f < 8,
    ensures
        row_upto(c, pt, f, r, r, n) == (match pt {
            PieceType::Rook | PieceType::Queen => n,
            PieceType::King => if n == f {
                left(f, 1)
            } else {
                0
            },
            _ => 0,
        }),
    decreases n,
{
    if n > 0 {
        lemma_beside(c, pt, f, r, n - 1);
    }
}

// ---------------------------------------------------------------------------
// The whole board
// ---------------------------------------------------------------------------

/// How many of the first `n` squares the piece attacks on an empty board.
pub open spec fn hits_upto(c: Color, pt: PieceType, s: int, n: int) -> int
    decreases n,
{
    if n <= 0 {
        0
    } else {
        hits_upto(c, pt, s, n - 1) + (if attacks::hits(c, pt, 0, s, n - 1) {
            1int
        } else {
            0int
        })
    }
}

/// The attacks on an empty board are a matter of files and ranks.
proof fn lemma_strikes(c: Color, pt: PieceType, s: int, x: int, y: int)
    requires
        0 <= s < 64,
        0 <= x < 8,
        0 <= y < 8,
    ensures
        attacks::hits(c, pt, 0, s, 8 * y + x) == strikes(c, pt, s % 8, s / 8, x, y),
{
    let t = 8 * y + x;
    assert(t % 8 == x && t / 8 == y);
    assert(s == 8 * (s / 8) + s % 8);
    assert(attacks::clear(0, s, t)) by {
        broadcast use bits::group_bits;

    }
}

proof fn lemma_hits_row(c: Color, pt: PieceType, s: int, y: int, n: int)
    requires
        0 <= s < 64,
        0 <= y < 8,
        0 <= n <= 8,
    ensures
        hits_upto(c, pt, s, 8 * y + n) == hits_upto(c, pt, s, 8 * y) + row_upto(
            c,
            pt,
            s % 8,
            s / 8,
            y,
            n,
        ),
    decreases n,
{
    if n > 0 {
        lemma_hits_row(c, pt, s, y, n - 1);
        lemma_strikes(c, pt, s, n - 1, y);
        assert(8 * y + n - 1 == 8 * y + (n - 1));
    }
}

/// The squares that the piece attacks on the first `n` ranks.
pub open spec fn rows_upto(c: Color, pt: PieceType, f: int, r: int, n: int) -> int
    decreases n,
{
    if n <= 0 {
        0
    } else {
        rows_upto(c, pt, f, r, n - 1) + row_count(c, pt, f, r, n - 1)
    }
}

proof fn lemma_hits_rows(c: Color, pt: PieceType, s: int, n: int)
    requires
        0 <= s < 64,
        0 <= n <= 8,
    ensures
        hits_upto(c, pt, s, 8 * n) == rows_upto(c, pt, s % 8, s / 8, n),
    decreases n,
{
    if n > 0 {
        lemma_hits_rows(c, pt, s, n - 1);
        lemma_hits_row(c, pt, s, n - 1, 8);
        lemma_row(c, pt, s % 8, s / 8, n - 1);
    }
}

/// How far a file or a rank is from the edge.
pub open spec fn inset(x: int) -> int {
    if x < 7 - x {
        x
    } else {
        7 - x
    }
}

/// The lesser of two numbers.
pub open spec fn lesser(a: int, b: int) -> int {
    if a < b {
        a
    } else {
        b
    }
}

/// `n` for each of the ranks at distance `d` that is on the board.
pub open spec fn doubled(r: int, d: int, n: int) -> int {
    (if left(r, d) == 1 {
        n
    } else {
        0
    }) + (if right(r, d) == 1 {
        n
    } else {
        0
    })
}

/// How many squares a piece attacks on an empty board; of a pawn, off the outer ranks.
pub open spec fn span(pt: PieceType, f: int, r: int) -> int {
    let near = left(f, 1) + right(f, 1);
    match pt {
        PieceType::NoType => 0,
        PieceType::Pawn => near,
        PieceType::Knight => doubled(r, 2, near) + doubled(r, 1, left(f, 2) + right(f, 2)),
        PieceType::Bishop => 7 + 2 * lesser(inset(f), inset(r)),
        PieceType::Rook => 14,
        PieceType::Queen => 21 + 2 * lesser(inset(f), inset(r)),
        PieceType::King => near + doubled(r, 1, 1 + near),
    }
}

proof fn lemma_rows_span(c: Color, pt: PieceType, f: int, r: int)
    requires
        0 <= f < 8,
        0 <= r < 8,
        pt == PieceType::Pawn ==> 1 <= r <= 6,
    ensures
        rows_upto(c, pt, f, r, 8) == span(pt, f, r),
{
    reveal_with_fuel(rows_upto, 9);
    if r == 0 {
    } else if r == 1 {
    } else if r == 2 {
    } else if r == 3 {
    } else if r == 4 {
    } else if r == 5 {
    } else if r == 6 {
    } else {
    }
}

/// A piece attacks as many squares as its span says.
pub proof fn law_spans_count_the_attacks(c: Color, pt: PieceType, s: int)
    requires
        0 <= s < 64,
        pt == PieceType::Pawn ==> 8 <= s < 56,
    ensures
        hits_upto(c, pt, s, 64) == span(pt, s % 8, s / 8),
{
    lemma_hits_rows(c, pt, s, 8);
    lemma_rows_span(c, pt, s % 8, s / 8);
}

// ---------------------------------------------------------------------------
// Pairs of squares
// ---------------------------------------------------------------------------

/// How many of the first `n` squares `pc` can travel to and from, in turn with `s`.
pub open spec fn partners_upto(pc: Piece, s: int, n: int) -> int
    decreases n,
{
    if n <= 0 {
        0
    } else {
        partners_upto(pc, s, n - 1) + (if cuckoo::can_return(pc, n - 1, s) {
            1int
        } else {
            0int
        })
    }
}

/// How many pairs of squares below `n` `pc` can travel between.
pub open spec fn pairs_upto(pc: Piece, n: int) -> int
    decreases n,
{
    if n <= 0 {
        0
    } else {
        pairs_upto(pc, n - 1) + partners_upto(pc, n - 1, n - 1)
    }
}

/// How many pairs of squares the pieces with a code below `n` can travel between.
pub open spec fn all_pairs_upto(n: int) -> int
    decreases n,
{
    if n <= 0 {
        0
    } else {
        all_pairs_upto(n - 1) + pairs_upto(coded(n - 1), 64)
    }
}

/// The piece with the given code.
pub open spec fn coded(i: int) -> Piece {
    choose|pc: Piece| #[trigger] pc.code() == i
}

proof fn lemma_partners(pc: Piece, s: int, n: int)
    requires
        pc.is_real(),
        pc.kind() != PieceType::Pawn,
        0 <= n <= s < 64,
    ensures
        partners_upto(pc, s, n) == hits_upto(Color::White, pc.kind(), s, n),
    decreases n,
{
    if n > 0 {
        let t = n - 1;
        lemma_partners(pc, s, t);
        lemma_strikes(Color::White, pc.kind(), s, t % 8, t / 8);
        lemma_strikes(Color::White, pc.kind(), t, s % 8, s / 8);
    }
}

/// The pairs of squares on a diagonal whose higher square is on the rank `r`.
pub open spec fn diagonal_pairs(r: int) -> int
    decreases r,
{
    if r <= 0 {
        0
    } else {
        diagonal_pairs(r - 1) + 2 * (8 - r)
    }
}

/// The pairs of squares whose higher square is on the rank `r`.
pub open spec fn rank_pairs(pt: PieceType, r: int) -> int {
    match pt {
        PieceType::Knight => 14 * left(r, 2) + 12 * left(r, 1),
        PieceType::Bishop => diagonal_pairs(r),
        PieceType::Rook => 8 * r + 28,
        PieceType::Queen => 8 * r + 28 + diagonal_pairs(r),
        PieceType::King => 7 + 22 * left(r, 1),
        _ => 0,
    }
}

/// One more square: what is below it, and what is beside it.
proof fn lemma_pairs_next(pc: Piece, r: int, f: int)
    requires
        pc.is_real(),
        pc.kind() != PieceType::Pawn,
        0 <= r < 8,
        0 <= f < 8,
    ensures
        pairs_upto(pc, 8 * r + f + 1) == pairs_upto(pc, 8 * r + f) + rows_upto(
            Color::White,
            pc.kind(),
            f,
            r,
            r,
        ) + beside(pc.kind(), f),
{
    let s = 8 * r + f;
    assert(s % 8 == f && s / 8 == r);
    lemma_partners(pc, s, s);
    lemma_hits_row(Color::White, pc.kind(), s, r, f);
    lemma_hits_rows(Color::White, pc.kind(), s, r);
    lemma_beside(Color::White, pc.kind(), f, r, f);
}

/// The rows below the files of one rank, together.
proof fn lemma_rows_below(pt: PieceType, r: int)
    requires
        pt != PieceType::NoType,
        pt != PieceType::Pawn,
        0 <= r < 8,
    ensures
        ({
            let c = Color::White;
            rows_upto(c, pt, 0, r, r) + rows_upto(c, pt, 1, r, r) + rows_upto(c, pt, 2, r, r)
                + rows_upto(c, pt, 3, r, r) + rows_upto(c, pt, 4, r, r) + rows_upto(c, pt, 5, r, r)
                + rows_upto(c, pt, 6, r, r) + rows_upto(c, pt, 7, r, r) + beside(pt, 0) + beside(
                pt,
                1,
            ) + beside(pt, 2) + beside(pt, 3) + beside(pt, 4) + beside(pt, 5) + beside(pt, 6)
                + beside(pt, 7) == rank_pairs(pt, r)
        }),
{
    reveal_with_fuel(rows_upto, 9);
    reveal_with_fuel(diagonal_pairs, 9);
    if r == 0 {
    } else if r == 1 {
    } else if r == 2 {
    } else if r == 3 {
    } else if r == 4 {
    } else if r == 5 {
    } else if r == 6 {
    } else {
    }
}

proof fn lemma_rank_pairs(pc: Piece, r: int)
    requires
        pc.is_real(),
        pc.kind() != PieceType::Pawn,
        0 <= r < 8,
    ensures
        pairs_upto(pc, 8 * r + 8) == pairs_upto(pc, 8 * r) + rank_pairs(pc.kind(), r),
{
    lemma_pairs_next(pc, r, 0);
    lemma_pairs_next(pc, r, 1);
    lemma_pairs_next(pc, r, 2);
    lemma_pairs_next(pc, r, 3);
    lemma_pairs_next(pc, r, 4);
    lemma_pairs_next(pc, r, 5);
    lemma_pairs_next(pc, r, 6);
    lemma_pairs_next(pc, r, 7);
    lemma_rows_below(pc.kind(), r);
}

/// How many pairs of squares a piece can travel between.
pub open spec fn pair_total(pt: PieceType) -> int {
    match pt {
        PieceType::Knight => 168,
        PieceType::Bishop => 280,
        PieceType::Rook => 448,
        PieceType::Queen => 728,
        PieceType::King => 210,
        _ => 0,
    }
}

proof fn lemma_no_pairs(pc: Piece, s: int, n: int)
    requires
        !pc.is_real() || pc.kind() == PieceType::Pawn,
    ensures
        partners_upto(pc, s, n) == 0,
        pairs_upto(pc, n) == 0,
    decreases n,
{
    if n > 0 {
        lemma_no_pairs(pc, s, n - 1);
        lemma_no_pairs(pc, n - 1, n - 1);
    }
}

proof fn lemma_pairs(pc: Piece)
    ensures
        pairs_upto(pc, 64) == pair_total(pc.kind()),
        all_pairs_upto(pc.code() + 1) == all_pairs_upto(pc.code()) + pair_total(pc.kind()),
{
    assert(coded(pc.code()).code() == pc.code());
    assert(coded(pc.code()) == pc);
    if !pc.is_real() || pc.kind() == PieceType::Pawn {
        lemma_no_pairs(pc, 0, 64);
    } else {
        reveal_with_fuel(diagonal_pairs, 9);
        lemma_rank_pairs(pc, 0);
        lemma_rank_pairs(pc, 1);
        lemma_rank_pairs(pc, 2);
        lemma_rank_pairs(pc, 3);
        lemma_rank_pairs(pc, 4);
        lemma_rank_pairs(pc, 5);
        lemma_rank_pairs(pc, 6);
        lemma_rank_pairs(pc, 7);
        assert(pairs_upto(pc, 0) == 0);
    }
}

/// The reversible moves of all pieces, each pair of squares once, are as many as
/// [`cuckoo::MOVE_COUNT`] says.
pub proof fn law_reversible_moves_are_counted()
    ensures
        all_pairs_upto(16) == cuckoo::MOVE_COUNT,
{
    lemma_pairs(Piece::NONE);
    lemma_pairs(Piece::W_PAWN);
    lemma_pairs(Piece::W_KNIGHT);
    lemma_pairs(Piece::W_BISHOP);
    lemma_pairs(Piece::W_ROOK);
    lemma_pairs(Piece::W_QUEEN);
    lemma_pairs(Piece::W_KING);
    lemma_pairs(Piece::W_GAP);
    lemma_pairs(Piece::B_NONE);
    lemma_pairs(Piece::B_PAWN);
    lemma_pairs(Piece::B_KNIGHT);
    lemma_pairs(Piece::B_BISHOP);
    lemma_pairs(Piece::B_ROOK);
    lemma_pairs(Piece::B_QUEEN);
    lemma_pairs(Piece::B_KING);
    lemma_pairs(Piece::B_GAP);
    assert(all_pairs_upto(0) == 0);
}

} // verus!
