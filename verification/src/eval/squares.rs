//! Which squares and which kinds of piece the evaluation likes.

use vstd::prelude::*;
use crate::board::types::{Color, Piece, PieceType, Square};
use crate::eval::classical;
use crate::eval::merits;

verus! {

/// The table value of a piece of `c` that stands on `i`.
pub open spec fn placed(c: Color, pt: PieceType, i: int, midgame: bool) -> int {
    classical::table_value(pt, classical::own_view(c, i), midgame)
}

/// How far a square is from the rim: 0 on it, 3 in the centre.
pub open spec fn inside(i: int) -> int {
    let f = if i % 8 < 4 {
        i % 8
    } else {
        7 - i % 8
    };
    let r = if i / 8 < 4 {
        i / 8
    } else {
        7 - i / 8
    };
    if f < r {
        f
    } else {
        r
    }
}

#[verifier::spinoff_prover]
proof fn lemma_view(c: Color, i: int)
    requires
        0 <= i < 64,
    ensures
        ({
            let s = classical::own_view(c, i);
            &&& 0 <= s < 64
            &&& s / 8 == merits::progress(c, i)
            &&& s % 8 == i % 8
            &&& inside(s) == inside(i)
        }),
{
}

#[verifier::spinoff_prover]
proof fn lemma_endgame_pawn(s: int)
    requires
        8 <= s < 56,
    ensures
        classical::PAWN_EG@[s] == (if s < 16 {
            2int
        } else if s < 24 {
            8
        } else if s < 32 {
            18
        } else if s < 40 {
            35
        } else if s < 48 {
            62
        } else {
            95
        }),
{
}

/// In the endgame a pawn likes every rank better than the one before it.
pub proof fn law_endgame_pawns_advance(c: Color, i: int, j: int)
    requires
        0 <= i < 64,
        0 <= j < 64,
        1 <= merits::progress(c, i) < merits::progress(c, j) <= 6,
    ensures
        placed(c, PieceType::Pawn, i, false) < placed(c, PieceType::Pawn, j, false),
{
    lemma_view(c, i);
    lemma_view(c, j);
    lemma_endgame_pawn(classical::own_view(c, i));
    lemma_endgame_pawn(classical::own_view(c, j));
}

#[verifier::spinoff_prover]
proof fn lemma_midgame_pawn(s: int)
    requires
        8 <= s < 56,
    ensures
        s % 8 == 3 || s % 8 == 4 ==> classical::PAWN_MG@[s] >= 1 && (24 <= s < 40
            ==> classical::PAWN_MG@[s] >= 16),
        s % 8 != 3 && s % 8 != 4 ==> classical::PAWN_MG@[s] <= 9,
        s % 8 < 2 || s % 8 > 5 ==> classical::PAWN_MG@[s] < 0,
{
}

/// In the midgame a pawn likes the centre files better than the two outer ones on either side, and
/// best of all the middle ranks on them.
pub proof fn law_midgame_pawns_like_the_centre(c: Color, i: int, j: int)
    requires
        0 <= i < 64,
        0 <= j < 64,
        1 <= merits::progress(c, i) <= 6,
        1 <= merits::progress(c, j) <= 6,
        i % 8 == 3 || i % 8 == 4,
    ensures
        j % 8 < 2 || j % 8 > 5 ==> placed(c, PieceType::Pawn, i, true) > placed(
            c,
            PieceType::Pawn,
            j,
            true,
        ),
        3 <= merits::progress(c, i) <= 4 && j % 8 != 3 && j % 8 != 4 ==> placed(
            c,
            PieceType::Pawn,
            i,
            true,
        ) > placed(c, PieceType::Pawn, j, true),
{
    lemma_view(c, i);
    lemma_view(c, j);
    lemma_midgame_pawn(classical::own_view(c, i));
    lemma_midgame_pawn(classical::own_view(c, j));
}

#[verifier::spinoff_prover]
proof fn lemma_king(s: int)
    requires
        0 <= s < 64,
    ensures
        s < 16 ==> classical::KING_MG@[s] >= 0,
        s >= 16 ==> classical::KING_MG@[s] <= -10,
        inside(s) == 3 ==> classical::KING_EG@[s] == 40,
        inside(s) < 3 ==> classical::KING_EG@[s] <= 30,
        inside(s) == 0 ==> classical::KING_EG@[s] <= -20,
        inside(s) >= 2 ==> classical::KING_EG@[s] >= 20,
{
}

/// The king likes its own two ranks in the midgame and the centre in the endgame.
pub proof fn law_kings_hide_and_come_out(c: Color, i: int, j: int)
    requires
        0 <= i < 64,
        0 <= j < 64,
    ensures
        merits::progress(c, i) <= 1 && merits::progress(c, j) >= 2 ==> placed(
            c,
            PieceType::King,
            i,
            true,
        ) > placed(c, PieceType::King, j, true),
        inside(i) == 3 && inside(j) < 3 ==> placed(c, PieceType::King, i, false) > placed(
            c,
            PieceType::King,
            j,
            false,
        ),
        inside(i) >= 2 && inside(j) == 0 ==> placed(c, PieceType::King, i, false) > placed(
            c,
            PieceType::King,
            j,
            false,
        ),
{
    lemma_view(c, i);
    lemma_view(c, j);
    lemma_king(classical::own_view(c, i));
    lemma_king(classical::own_view(c, j));
}

#[verifier::spinoff_prover]
proof fn lemma_minors(s: int)
    requires
        0 <= s < 64,
    ensures
        inside(s) == 0 ==> -50 <= classical::KNIGHT_MG@[s] <= -30,
        inside(s) >= 2 ==> 10 <= classical::KNIGHT_MG@[s] <= 20,
        inside(s) == 1 ==> -20 <= classical::KNIGHT_MG@[s] <= 5,
        inside(s) == 0 ==> -20 <= classical::BISHOP_MG@[s] <= -10,
        inside(s) >= 1 ==> 0 <= classical::BISHOP_MG@[s] <= 10,
{
}

/// Knights like the centre better than what lies around it, and that better than the rim; bishops
/// like every square better than the rim. The phase of the game does not matter to them.
pub proof fn law_minor_pieces_avoid_the_rim(c: Color, i: int, j: int, midgame: bool)
    requires
        0 <= i < 64,
        0 <= j < 64,
    ensures
        inside(i) >= 2 && inside(j) <= 1 ==> placed(c, PieceType::Knight, i, midgame) > placed(
            c,
            PieceType::Knight,
            j,
            midgame,
        ),
        inside(i) == 1 && inside(j) == 0 ==> placed(c, PieceType::Knight, i, midgame) > placed(
            c,
            PieceType::Knight,
            j,
            midgame,
        ),
        inside(i) >= 1 && inside(j) == 0 ==> placed(c, PieceType::Bishop, i, midgame) > placed(
            c,
            PieceType::Bishop,
            j,
            midgame,
        ),
{
    lemma_view(c, i);
    lemma_view(c, j);
    lemma_minors(classical::own_view(c, i));
    lemma_minors(classical::own_view(c, j));
}

#[verifier::spinoff_prover]
proof fn lemma_majors(s: int)
    requires
        0 <= s < 64,
    ensures
        s / 8 == 6 && 1 <= s % 8 <= 6 ==> classical::ROOK_MG@[s] == 10,
        s / 8 != 6 ==> -5 <= classical::ROOK_MG@[s] <= 5,
        s / 8 == 6 ==> 5 <= classical::ROOK_MG@[s],
        1 <= s / 8 <= 5 ==> classical::ROOK_MG@[s] <= 0,
        inside(s) == 3 ==> classical::QUEEN_MG@[s] == 5,
        inside(s) == 0 ==> -20 <= classical::QUEEN_MG@[s] <= 0,
        classical::QUEEN_MG@[s] <= 5,
        -20 <= classical::QUEEN_MG@[s],
{
}

/// Rooks like the seventh rank better than the ranks between it and their own, and most of it
/// better than any other square; queens like the centre better than the rim.
pub proof fn law_rooks_like_the_seventh_rank(c: Color, i: int, j: int, midgame: bool)
    requires
        0 <= i < 64,
        0 <= j < 64,
    ensures
        merits::progress(c, i) == 6 && 1 <= merits::progress(c, j) <= 5 ==> placed(
            c,
            PieceType::Rook,
            i,
            midgame,
        ) > placed(c, PieceType::Rook, j, midgame),
        merits::progress(c, i) == 6 && 1 <= i % 8 <= 6 && merits::progress(c, j) != 6 ==> placed(
            c,
            PieceType::Rook,
            i,
            midgame,
        ) > placed(c, PieceType::Rook, j, midgame),
        inside(i) == 3 && inside(j) == 0 ==> placed(c, PieceType::Queen, i, midgame) > placed(
            c,
            PieceType::Queen,
            j,
            midgame,
        ),
{
    lemma_view(c, i);
    lemma_view(c, j);
    lemma_majors(classical::own_view(c, i));
    lemma_majors(classical::own_view(c, j));
}

/// The kinds from the cheapest to the dearest; knights and bishops are of one class.
pub open spec fn class_of(pt: PieceType) -> int {
    match pt {
        PieceType::Pawn => 1,
        PieceType::Knight => 2,
        PieceType::Bishop => 2,
        PieceType::Rook => 3,
        PieceType::Queen => 4,
        _ => 0,
    }
}

#[verifier::spinoff_prover]
proof fn lemma_square_range(b: Seq<Piece>, c: Color, i: int, midgame: bool)
    requires
        0 <= i < 64,
        b[i].is_real(),
        b[i].side() == c,
        b[i].kind() == PieceType::Pawn ==> 8 <= i < 56,
    ensures
        ({
            let v = classical::square_value(b, c, i, midgame);
            &&& class_of(b[i].kind()) == 1 ==> 100 < v <= 519
            &&& class_of(b[i].kind()) == 2 ==> 731 <= v <= 1155
            &&& class_of(b[i].kind()) == 3 ==> 1271 <= v <= 1542
            &&& class_of(b[i].kind()) == 4 ==> 2518 <= v
        }),
{
    let pt = b[i].kind();
    let s = classical::own_view(c, i);
    lemma_view(c, i);
    if pt == PieceType::Pawn {
        lemma_midgame_range(s);
        lemma_endgame_pawn(s);
        let r = Square::rel_rank(i, c);
        assert(0 <= r * r <= 36) by (nonlinear_arith)
            requires
                0 <= r <= 6,
        ;
    } else {
        lemma_minors(s);
        lemma_majors(s);
        let p = |t: int| classical::usable(b, c, pt, i, t);
        merits::lemma_fewer_squares(p, p, 0);
        let n = classical::mobility(b, c, pt, i);
        let w = classical::mobility_weight(pt, midgame);
        assert(0 <= w * n <= w * 64) by (nonlinear_arith)
            requires
                0 <= w,
                0 <= n <= 64,
        ;
    }
}

#[verifier::spinoff_prover]
proof fn lemma_midgame_range(s: int)
    requires
        8 <= s < 56,
    ensures
        -6 <= classical::PAWN_MG@[s] <= 21,
{
}

/// Wherever they stand and however they are placed, a queen is worth more than a rook, a rook more
/// than a minor piece, and a minor piece more than a pawn.
pub proof fn law_dearer_kinds_are_worth_more(
    a: Seq<Piece>,
    i: int,
    b: Seq<Piece>,
    j: int,
    c: Color,
    d: Color,
    midgame: bool,
)
    requires
        0 <= i < 64,
        0 <= j < 64,
        a[i].is_real(),
        b[j].is_real(),
        a[i].side() == c,
        b[j].side() == d,
        b[j].kind() == PieceType::Pawn ==> 8 <= j < 56,
        class_of(a[i].kind()) > class_of(b[j].kind()) > 0,
    ensures
        classical::square_value(a, c, i, midgame) > classical::square_value(b, d, j, midgame),
{
    lemma_square_range(a, c, i, midgame);
    lemma_square_range(b, d, j, midgame);
}

/// The knight and the bishop on a square count by their reach: a square more to use is worth 4 to a
/// knight, 5 to a bishop, 2 or 4 to a rook and 1 or 2 to a queen, the greater part in the endgame.
pub proof fn law_reach_counts_by_the_square(
    a: Seq<Piece>,
    b: Seq<Piece>,
    c: Color,
    i: int,
    midgame: bool,
    n: int,
)
    requires
        0 <= i < 64,
        a[i] == b[i],
        a[i].is_real(),
        a[i].side() == c,
        class_of(a[i].kind()) >= 2,
        classical::mobility(a, c, a[i].kind(), i) == classical::mobility(b, c, a[i].kind(), i) + n,
    ensures
        classical::square_value(a, c, i, midgame) - classical::square_value(b, c, i, midgame) == n
            * match a[i].kind() {
            PieceType::Knight => 4int,
            PieceType::Bishop => 5,
            PieceType::Rook => if midgame {
                2
            } else {
                4
            },
            _ => if midgame {
                1
            } else {
                2
            },
        },
{
    let pt = a[i].kind();
    let x = classical::mobility(b, c, pt, i);
    let w = classical::mobility_weight(pt, midgame);
    assert(w * (x + n) == w * x + n * w) by (nonlinear_arith);
}

} // verus!
