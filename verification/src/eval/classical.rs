//! The classical evaluation: material, piece-square tables interpolated between the two game
//! phases, mobility and pawn structure. It stands in when no network is loaded.
//!
//! Every term is a sum over the pieces of one side. The tables are written from White's point
//! of view, a1 first, and are mirrored for Black.

use vstd::prelude::*;
use crate::board::attacks::piece_attacks;
use crate::board::attacks;
use crate::board::bitboard::{file_bb, Bitboard};
use crate::board::bitboard;
use crate::board::bits;
use crate::board::movegen;
use crate::board::placement;
use crate::board::position::Position;
use crate::board::tally;
use crate::board::types::{
    div_trunc, Color, Direction, Piece, PieceType, Square, Value, BISHOP_VALUE, KNIGHT_VALUE,
    PAWN_VALUE, QUEEN_VALUE, ROOK_VALUE,
};
use crate::board::types;

verus! {

/// The phase of a full board; bare kings have phase 0.
pub const MAX_PHASE: i32 = 24;

/// Pawns: advance, and control the centre on the middle ranks.
pub const PAWN_MG: [i8; 64] = [
    0, 0, 0, 0, 0, 0, 0, 0,
    -6, -4, 1, 1, 1, 1, -4, -6,
    -6, -4, 1, 6, 6, 1, -4, -6,
    -6, -4, 5, 16, 16, 5, -4, -6,
    -6, -4, 9, 21, 21, 9, -4, -6,
    -6, -4, 5, 11, 11, 5, -4, -6,
    -6, -4, 1, 1, 1, 1, -4, -6,
    0, 0, 0, 0, 0, 0, 0, 0,
];

/// Knights: to the centre, off the rim.
pub const KNIGHT_MG: [i8; 64] = [
    -50, -40, -30, -30, -30, -30, -40, -50,
    -40, -20, 0, 5, 5, 0, -20, -40,
    -30, 5, 10, 15, 15, 10, 5, -30,
    -30, 0, 15, 20, 20, 15, 0, -30,
    -30, 5, 15, 20, 20, 15, 5, -30,
    -30, 0, 10, 15, 15, 10, 0, -30,
    -40, -20, 0, 0, 0, 0, -20, -40,
    -50, -40, -30, -30, -30, -30, -40, -50,
];

/// Bishops: long diagonals, off the back rank.
pub const BISHOP_MG: [i8; 64] = [
    -20, -10, -10, -10, -10, -10, -10, -20,
    -10, 5, 0, 0, 0, 0, 5, -10,
    -10, 10, 10, 10, 10, 10, 10, -10,
    -10, 0, 10, 10, 10, 10, 0, -10,
    -10, 5, 5, 10, 10, 5, 5, -10,
    -10, 0, 5, 10, 10, 5, 0, -10,
    -10, 0, 0, 0, 0, 0, 0, -10,
    -20, -10, -10, -10, -10, -10, -10, -20,
];

/// Rooks: the seventh rank and the centre files.
pub const ROOK_MG: [i8; 64] = [
    0, 0, 0, 5, 5, 0, 0, 0,
    -5, 0, 0, 0, 0, 0, 0, -5,
    -5, 0, 0, 0, 0, 0, 0, -5,
    -5, 0, 0, 0, 0, 0, 0, -5,
    -5, 0, 0, 0, 0, 0, 0, -5,
    -5, 0, 0, 0, 0, 0, 0, -5,
    5, 10, 10, 10, 10, 10, 10, 5,
    0, 0, 0, 0, 0, 0, 0, 0,
];

/// Queens: mildly to the centre, no early sorties.
pub const QUEEN_MG: [i8; 64] = [
    -20, -10, -10, -5, -5, -10, -10, -20,
    -10, 0, 5, 0, 0, 0, 0, -10,
    -10, 5, 5, 5, 5, 5, 0, -10,
    0, 0, 5, 5, 5, 5, 0, -5,
    -5, 0, 5, 5, 5, 5, 0, -5,
    -10, 0, 5, 5, 5, 5, 0, -10,
    -10, 0, 0, 0, 0, 0, 0, -10,
    -20, -10, -10, -5, -5, -10, -10, -20,
];

/// The king in the midgame: castled and behind pawns.
pub const KING_MG: [i8; 64] = [
    20, 30, 10, 0, 0, 10, 30, 20,
    20, 20, 0, 0, 0, 0, 20, 20,
    -10, -20, -20, -20, -20, -20, -20, -10,
    -20, -30, -30, -40, -40, -30, -30, -20,
    -30, -40, -40, -50, -50, -40, -40, -30,
    -30, -40, -40, -50, -50, -40, -40, -30,
    -30, -40, -40, -50, -50, -40, -40, -30,
    -30, -40, -40, -50, -50, -40, -40, -30,
];

/// Pawns in the endgame: advance.
pub const PAWN_EG: [i8; 64] = [
    0, 0, 0, 0, 0, 0, 0, 0,
    2, 2, 2, 2, 2, 2, 2, 2,
    8, 8, 8, 8, 8, 8, 8, 8,
    18, 18, 18, 18, 18, 18, 18, 18,
    35, 35, 35, 35, 35, 35, 35, 35,
    62, 62, 62, 62, 62, 62, 62, 62,
    95, 95, 95, 95, 95, 95, 95, 95,
    0, 0, 0, 0, 0, 0, 0, 0,
];

/// The king in the endgame: to the centre.
pub const KING_EG: [i8; 64] = [
    -50, -30, -30, -30, -30, -30, -30, -50,
    -30, -30, 0, 0, 0, 0, -30, -30,
    -30, -10, 20, 30, 30, 20, -10, -30,
    -30, -10, 30, 40, 40, 30, -10, -30,
    -30, -10, 30, 40, 40, 30, -10, -30,
    -30, -10, 20, 30, 30, 20, -10, -30,
    -30, -20, -10, 0, 0, -10, -20, -30,
    -50, -40, -30, -20, -20, -30, -40, -50,
];

/// What a piece type contributes to the game phase.
pub open spec fn phase_weight(pt: PieceType) -> int {
    match pt {
        PieceType::Knight | PieceType::Bishop => 1,
        PieceType::Rook => 2,
        PieceType::Queen => 4,
        _ => 0,
    }
}

/// The table value of a piece type on a square seen from its own side.
pub open spec fn table_value(pt: PieceType, s: int, midgame: bool) -> int {
    match pt {
        PieceType::Pawn => if midgame {
            PAWN_MG@[s] as int
        } else {
            PAWN_EG@[s] as int
        },
        PieceType::Knight => KNIGHT_MG@[s] as int,
        PieceType::Bishop => BISHOP_MG@[s] as int,
        PieceType::Rook => ROOK_MG@[s] as int,
        PieceType::Queen => QUEEN_MG@[s] as int,
        PieceType::King => if midgame {
            KING_MG@[s] as int
        } else {
            KING_EG@[s] as int
        },
        PieceType::NoType => 0,
    }
}

/// The bonus per usable square, by piece type.
pub open spec fn mobility_weight(pt: PieceType, midgame: bool) -> int {
    match pt {
        PieceType::Knight => 4,
        PieceType::Bishop => 5,
        PieceType::Rook => if midgame {
            2
        } else {
            4
        },
        PieceType::Queen => if midgame {
            1
        } else {
            2
        },
        _ => 0,
    }
}

/// A pawn of `c` covers `t`.
pub open spec fn pawn_covers(b: Seq<Piece>, c: Color, t: int) -> bool {
    exists|q: int|
        0 <= q < 64 && b[q] == Piece::of(c, PieceType::Pawn) && #[trigger] bitboard::pawn_hits(
            c,
            q,
            t,
        )
}

/// The piece of `c` and type `pt` on `i` can use `t`: it attacks it, no own piece stands there
/// and no enemy pawn covers it.
pub open spec fn usable(b: Seq<Piece>, c: Color, pt: PieceType, i: int, t: int) -> bool {
    &&& attacks::hits(Color::White, pt, placement::occ(b), i, t)
    &&& !(b[t] != Piece::NONE && b[t].side() == c)
    &&& !pawn_covers(b, c.opp(), t)
}

/// How many squares the piece on `i` can use.
pub open spec fn mobility(b: Seq<Piece>, c: Color, pt: PieceType, i: int) -> int {
    movegen::squares(|t: int| usable(b, c, pt, i, t)).len() as int
}

/// The square as its own side sees it.
pub open spec fn own_view(c: Color, i: int) -> int {
    match c {
        Color::White => i,
        Color::Black => Square::mirrored(i),
    }
}

/// Another pawn of `c` stands on the file of `i`.
pub open spec fn doubled(b: Seq<Piece>, c: Color, i: int) -> bool {
    exists|j: int|
        0 <= j < 64 && j != i && j % 8 == i % 8 && #[trigger] b[j] == Piece::of(c, PieceType::Pawn)
}

/// No pawn of `c` stands on a file next to that of `i`.
pub open spec fn isolated(b: Seq<Piece>, c: Color, i: int) -> bool {
    forall|j: int|
        0 <= j < 64 && (j % 8 == i % 8 + 1 || j % 8 == i % 8 - 1) ==> #[trigger] b[j] != Piece::of(
            c,
            PieceType::Pawn,
        )
}

/// Square `t` lies ahead of `i`, on its own or a neighbouring file, as `c` sees it.
pub open spec fn ahead(c: Color, i: int, t: int) -> bool {
    &&& 0 <= t < 64
    &&& Square::rel_rank(t, c) > Square::rel_rank(i, c)
    &&& i % 8 - 1 <= t % 8 <= i % 8 + 1
}

/// No enemy pawn stands ahead of `i`.
pub open spec fn passed(b: Seq<Piece>, c: Color, i: int) -> bool {
    forall|t: int| #[trigger] ahead(c, i, t) ==> b[t] != Piece::of(c.opp(), PieceType::Pawn)
}

/// The structure value of the pawn of `c` on `i`.
pub open spec fn pawn_value(b: Seq<Piece>, c: Color, i: int, midgame: bool) -> int {
    let rank = Square::rel_rank(i, c);
    (if doubled(b, c, i) {
        if midgame {
            -10int
        } else {
            -20int
        }
    } else {
        0int
    }) + (if isolated(b, c, i) {
        if midgame {
            -12int
        } else {
            -18int
        }
    } else {
        0int
    }) + (if passed(b, c, i) {
        if midgame {
            2 * (rank * rank)
        } else {
            6 * (rank * rank)
        }
    } else {
        0int
    })
}

/// What square `i` contributes to the score of `c`.
pub open spec fn square_value(b: Seq<Piece>, c: Color, i: int, midgame: bool) -> int {
    let pt = b[i].kind();
    if !b[i].is_real() || b[i].side() != c {
        0
    } else {
        pt.worth() + table_value(pt, own_view(c, i), midgame) + (if pt == PieceType::Pawn {
            pawn_value(b, c, i, midgame)
        } else if pt == PieceType::King {
            0
        } else {
            mobility_weight(pt, midgame) * mobility(b, c, pt, i)
        })
    }
}

/// What the first `n` squares contribute to the score of `c`.
pub open spec fn side_upto(b: Seq<Piece>, c: Color, midgame: bool, n: int) -> int
    decreases n,
{
    if n <= 0 {
        0
    } else {
        side_upto(b, c, midgame, n - 1) + square_value(b, c, n - 1, midgame)
    }
}

/// The score of `c`: its pieces, and a bonus for two bishops.
pub open spec fn side_score(b: Seq<Piece>, c: Color, midgame: bool) -> int {
    side_upto(b, c, midgame, 64) + (if tally::count_of(b, Piece::of(c, PieceType::Bishop)) >= 2 {
        if midgame {
            30int
        } else {
            50int
        }
    } else {
        0int
    })
}

/// The phase of the first `n` squares.
pub open spec fn phase_upto(b: Seq<Piece>, n: int) -> int
    decreases n,
{
    if n <= 0 {
        0
    } else {
        phase_upto(b, n - 1) + phase_weight(b[n - 1].kind())
    }
}

/// The game phase, from 0 to 24.
pub open spec fn phase(b: Seq<Piece>) -> int {
    if phase_upto(b, 64) < 24 {
        phase_upto(b, 64)
    } else {
        24
    }
}

/// The balance between the sides, interpolated by the phase, as White sees it.
pub open spec fn balance(b: Seq<Piece>) -> int {
    let mg = side_score(b, Color::White, true) - side_score(b, Color::Black, true);
    let eg = side_score(b, Color::White, false) - side_score(b, Color::Black, false);
    types::trunc_div(mg * phase(b) + eg * (24 - phase(b)), 24)
}

/// The evaluation of a placement for the side to move: the balance, and a bonus for the move.
pub open spec fn score_of(b: Seq<Piece>, stm: Color) -> int {
    (match stm {
        Color::White => balance(b),
        Color::Black => -balance(b),
    }) + 15
}

/// The squares ahead of `sq` on its own and the two neighbouring files, as `c` sees it: where
/// an enemy pawn must be absent for a pawn on `sq` to be passed.
pub fn front_span(c: Color, sq: Square) -> (r: Bitboard)
    ensures
        forall|t: int| #[trigger] r.has(t) == ahead(c, sq.idx(), t),
{
    broadcast use {bits::group_bits, Square::lemma_idx};

    let mut span = Bitboard(0);
    let mut i: usize = 0;
    while i < 64
        invariant
            i <= 64,
            forall|t: int| #[trigger] span.has(t) == (t < i && ahead(c, sq.idx(), t)),
        decreases 64 - i,
    {
        broadcast use {bits::group_bits, Square::lemma_idx};

        let t = Square::new(i);
        let ghost before = span;
        let near = t.index() % 8 + 1 >= sq.index() % 8 && t.index() % 8 <= sq.index() % 8 + 1;
        if near && t.relative_rank(c).index() > sq.relative_rank(c).index() {
            span.set(t);
        }
        proof {
            assert forall|u: int| #[trigger] span.has(u) == (u < i + 1 && ahead(c, sq.idx(), u)) by {
                assert(before.has(u) == (u < i && ahead(c, sq.idx(), u)));
            }
        }
        i += 1;
    }
    span
}

/// The structure value of the pawn on `sq`, for the midgame and the endgame: doubled,
/// isolated and passed pawns.
fn pawn_structure(pos: &Position, c: Color, sq: Square) -> (r: (i32, i32))
    requires
        pos.sound(),
        pos.board@[sq.idx()] == Piece::of(c, PieceType::Pawn),
    ensures
        r.0 == pawn_value(pos.board@, c, sq.idx(), true),
        r.1 == pawn_value(pos.board@, c, sq.idx(), false),
        -40 <= r.0 <= 300,
        -40 <= r.1 <= 300,
{
    broadcast use {bits::group_bits, Square::lemma_idx};

    let ghost b = pos.board@;
    let ghost i = sq.idx();
    let ours = pos.pieces_of(c, PieceType::Pawn);
    let theirs = pos.pieces_of(c.flip(), PieceType::Pawn);
    let file = file_bb(sq);
    let own_file = ours & file;
    let beside = ours & (file.shift(Direction::East) | file.shift(Direction::West));
    let hindering = theirs & front_span(c, sq);
    proof {
        bits::lemma_members(own_file.0);
        bits::lemma_nonzero(beside.0);
        bits::lemma_nonzero(hindering.0);
        assert(own_file.has(i));
        let k = choose|k: int| 0 <= k < own_file.members().len() && own_file.members()[k] == i;
        if own_file.members().len() >= 2 {
            let j = if k == 0 {
                own_file.members()[1]
            } else {
                own_file.members()[0]
            };
            assert(own_file.has(j) && j != i);
            assert(b[j] == Piece::of(c, PieceType::Pawn));
        }
        if doubled(b, c, i) {
            let j = choose|j: int|
                0 <= j < 64 && j != i && j % 8 == i % 8 && #[trigger] b[j] == Piece::of(
                    c,
                    PieceType::Pawn,
                );
            assert(own_file.has(j));
            let l = choose|l: int| 0 <= l < own_file.members().len() && own_file.members()[l] == j;
            assert(k != l);
        }
        assert(isolated(b, c, i) == (beside.0 == 0)) by {
            if !isolated(b, c, i) {
                let j = choose|j: int|
                    0 <= j < 64 && (j % 8 == i % 8 + 1 || j % 8 == i % 8 - 1) && #[trigger] b[j]
                        == Piece::of(c, PieceType::Pawn);
                lemma_beside(file, i, j);
                assert(beside.has(j));
            }
            if beside.0 != 0 {
                let j = choose|j: int| beside.has(j);
                lemma_beside(file, i, j);
                assert(b[j] == Piece::of(c, PieceType::Pawn));
            }
        }
        assert(passed(b, c, i) == (hindering.0 == 0)) by {
            if !passed(b, c, i) {
                let t = choose|t: int|
                    #[trigger] ahead(c, i, t) && b[t] == Piece::of(c.opp(), PieceType::Pawn);
                assert(hindering.has(t));
            }
            if hindering.0 != 0 {
                let t = choose|t: int| hindering.has(t);
                assert(ahead(c, i, t));
            }
        }
    }
    let mut mg: i32 = 0;
    let mut eg: i32 = 0;
    if own_file.more_than_one() {
        mg = mg - 10;
        eg = eg - 20;
    }
    if beside.is_empty() {
        mg = mg - 12;
        eg = eg - 18;
    }
    if hindering.is_empty() {
        let rank: i32 = sq.relative_rank(c).index() as i32;
        proof {
            assert(0 <= rank * rank <= 49) by (nonlinear_arith)
                requires
                    0 <= rank <= 7,
            ;
        }
        mg = mg + 2 * (rank * rank);
        eg = eg + 6 * (rank * rank);
    }
    (mg, eg)
}

/// A file shifted east or west is a neighbouring file.
proof fn lemma_beside(file: Bitboard, i: int, j: int)
    requires
        forall|t: int| #[trigger] file.has(t) == (0 <= t < 64 && t % 8 == i % 8),
        0 <= i < 64,
    ensures
        (file.stepped(Direction::East, j) || file.stepped(Direction::West, j)) == (0 <= j < 64 && (j % 8 == i % 8 + 1 || j % 8 == i % 8 - 1)),
{
}

/// The table values of a piece type on a square, for the midgame and the endgame.
fn table_values(pt: PieceType, s: usize) -> (r: (i32, i32))
    requires
        s < 64,
    ensures
        r.0 == table_value(pt, s as int, true),
        r.1 == table_value(pt, s as int, false),
        -128 <= r.0 <= 127,
        -128 <= r.1 <= 127,
{
    match pt {
        PieceType::Pawn => (PAWN_MG[s] as i32, PAWN_EG[s] as i32),
        PieceType::Knight => (KNIGHT_MG[s] as i32, KNIGHT_MG[s] as i32),
        PieceType::Bishop => (BISHOP_MG[s] as i32, BISHOP_MG[s] as i32),
        PieceType::Rook => (ROOK_MG[s] as i32, ROOK_MG[s] as i32),
        PieceType::Queen => (QUEEN_MG[s] as i32, QUEEN_MG[s] as i32),
        PieceType::King => (KING_MG[s] as i32, KING_EG[s] as i32),
        PieceType::NoType => (0, 0),
    }
}

/// How many squares the piece on `sq` can use.
fn count_usable(pos: &Position, c: Color, pt: PieceType, sq: Square) -> (r: i32)
    requires
        pos.sound(),
        pt != PieceType::NoType,
        pt != PieceType::Pawn,
    ensures
        r == mobility(pos.board@, c, pt, sq.idx()),
        0 <= r <= 64,
{
    broadcast use bits::group_bits;

    let ghost b = pos.board@;
    let them = c.flip();
    let pawns = pos.pieces_of(them, PieceType::Pawn);
    let covered = pawns.pawn_attacks(them);
    let own = pos.colored(c);
    let reach = piece_attacks(pt, sq, pos.occupied());
    let set = Bitboard((reach.0 & !own.0) & !covered.0);
    proof {
        assert forall|t: int| 0 <= t < 64 implies #[trigger] bits::bit(set.0, t) == usable(
            b,
            c,
            pt,
            sq.idx(),
            t,
        ) by {
            assert(reach.has(t) == attacks::hits(Color::White, pt, placement::occ(b), sq.idx(), t));
            assert(own.has(t) == (b[t] != Piece::NONE && b[t].side() == c));
            assert(covered.has(t) == pawn_covers(b, them, t)) by {
                if covered.has(t) {
                    let q = choose|q: int| #[trigger] pawns.has(q) && bitboard::pawn_hits(them, q, t);
                    assert(bitboard::pawn_hits(them, q, t));
                }
                if pawn_covers(b, them, t) {
                    let q = choose|q: int|
                        0 <= q < 64 && b[q] == Piece::of(them, PieceType::Pawn)
                            && #[trigger] bitboard::pawn_hits(them, q, t);
                    assert(pawns.has(q));
                }
            }
        }
        movegen::lemma_squares(set.0, |t: int| usable(b, c, pt, sq.idx(), t));
    }
    set.count() as i32
}

/// What the piece of `c` on `sq` contributes, for the midgame and the endgame.
fn piece_score(pos: &Position, c: Color, sq: Square) -> (r: (i32, i32))
    requires
        pos.sound(),
        pos.board@[sq.idx()].is_real(),
        pos.board@[sq.idx()].side() == c,
    ensures
        r.0 == square_value(pos.board@, c, sq.idx(), true),
        r.1 == square_value(pos.board@, c, sq.idx(), false),
        -200 <= r.0 <= 4000,
        -200 <= r.1 <= 4000,
{
    broadcast use Square::lemma_idx;

    let pt = pos.piece_on(sq).piece_type();
    let material: i32 = match pt {
        PieceType::Pawn => PAWN_VALUE,
        PieceType::Knight => KNIGHT_VALUE,
        PieceType::Bishop => BISHOP_VALUE,
        PieceType::Rook => ROOK_VALUE,
        PieceType::Queen => QUEEN_VALUE,
        _ => 0,
    };
    // Mirror the square for Black so that one table serves both colours.
    let (mg, eg) = table_values(pt, sq.relative(c).index());
    let (mg_extra, eg_extra): (i32, i32) = match pt {
        PieceType::Pawn => pawn_structure(pos, c, sq),
        PieceType::Knight => {
            let n: i32 = count_usable(pos, c, pt, sq);
            (4 * n, 4 * n)
        },
        PieceType::Bishop => {
            let n: i32 = count_usable(pos, c, pt, sq);
            (5 * n, 5 * n)
        },
        PieceType::Rook => {
            let n: i32 = count_usable(pos, c, pt, sq);
            (2 * n, 4 * n)
        },
        PieceType::Queen => {
            let n: i32 = count_usable(pos, c, pt, sq);
            (n, 2 * n)
        },
        _ => (0, 0),
    };
    (material + mg + mg_extra, material + eg + eg_extra)
}

/// The score of one side, for the midgame and the endgame.
fn score_side(pos: &Position, c: Color) -> (r: (i32, i32))
    requires
        pos.sound(),
    ensures
        r.0 == side_score(pos.board@, c, true),
        r.1 == side_score(pos.board@, c, false),
        -20_000 <= r.0 <= 300_000,
        -20_000 <= r.1 <= 300_000,
{
    broadcast use Square::lemma_idx;

    let mut mg: i32 = 0;
    let mut eg: i32 = 0;
    let mut i: usize = 0;
    while i < 64
        invariant
            i <= 64,
            pos.sound(),
            mg == side_upto(pos.board@, c, true, i as int),
            eg == side_upto(pos.board@, c, false, i as int),
            -200 * i <= mg <= 4000 * i,
            -200 * i <= eg <= 4000 * i,
        decreases 64 - i,
    {
        broadcast use Square::lemma_idx;

        let sq = Square::new(i);
        let pc = pos.piece_on(sq);
        assert(pc == Piece::NONE || pc.is_real());
        if !pc.is_none() && pc.color() == c {
            let (m, e) = piece_score(pos, c, sq);
            mg = mg + m;
            eg = eg + e;
        }
        i += 1;
    }
    // Two bishops are worth more than the sum of them.
    if pos.count(c, PieceType::Bishop) >= 2 {
        mg = mg + 30;
        eg = eg + 50;
    }
    (mg, eg)
}

/// The game phase: a midgame score counts while the pieces are on, an endgame score as they
/// come off.
fn game_phase(pos: &Position) -> (r: i32)
    requires
        pos.sound(),
    ensures
        r == phase(pos.board@),
        0 <= r <= 24,
{
    broadcast use Square::lemma_idx;

    let mut sum: i32 = 0;
    let mut i: usize = 0;
    while i < 64
        invariant
            i <= 64,
            pos.sound(),
            sum == phase_upto(pos.board@, i as int),
            0 <= sum <= 4 * i,
        decreases 64 - i,
    {
        let w: i32 = match pos.piece_on(Square::new(i)).piece_type() {
            PieceType::Knight | PieceType::Bishop => 1,
            PieceType::Rook => 2,
            PieceType::Queen => 4,
            _ => 0,
        };
        sum = sum + w;
        i += 1;
    }
    if sum < MAX_PHASE {
        sum
    } else {
        MAX_PHASE
    }
}

/// The evaluation, as the side to move sees it.
pub fn evaluate(pos: &Position) -> (r: Value)
    requires
        pos.sound(),
    ensures
        r.0 == score_of(pos.board@, pos.side_to_move),
        -400_000 <= r.0 <= 400_000,
{
    let (white_mg, white_eg) = score_side(pos, Color::White);
    let (black_mg, black_eg) = score_side(pos, Color::Black);
    let phase: i32 = game_phase(pos);
    let mg: i32 = white_mg - black_mg;
    let eg: i32 = white_eg - black_eg;
    proof {
        assert(-24 * 320_000 <= mg * phase <= 24 * 320_000) by (nonlinear_arith)
            requires
                -320_000 <= mg <= 320_000,
                0 <= phase <= 24,
        ;
        assert(-24 * 320_000 <= eg * (24 - phase) <= 24 * 320_000) by (nonlinear_arith)
            requires
                -320_000 <= eg <= 320_000,
                0 <= phase <= 24,
        ;
        assert(-24 * 320_000 <= mg * phase + eg * (24 - phase) <= 24 * 320_000) by (nonlinear_arith)
            requires
                -320_000 <= mg <= 320_000,
                -320_000 <= eg <= 320_000,
                0 <= phase <= 24,
        ;
    }
    let v: i32 = div_trunc(mg * phase + eg * (MAX_PHASE - phase), MAX_PHASE);
    // The bonus comes after the change of view, so that a position and its mirror score the
    // same.
    match pos.side_to_move() {
        Color::White => Value(v + 15),
        Color::Black => Value(-v + 15),
    }
}

} // verus!
