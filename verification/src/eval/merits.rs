//! What the evaluation prizes: which of two placements it prefers, and why.

use vstd::prelude::*;
use crate::board::attacks;
use crate::board::bitboard;
use crate::board::movegen;
use crate::board::placement;
use crate::board::tally;
use crate::board::types;
use crate::board::types::{Color, Piece, PieceType, Square};
use crate::eval;
use crate::eval::classical;

verus! {

// ---------------------------------------------------------------------------
// Pawns
// ---------------------------------------------------------------------------

/// Square `t` is on the way of a pawn of `c` on `i`, or next to it: on a higher rank for White, a
/// lower one for Black, and at most a file away.
pub open spec fn on_the_way(c: Color, i: int, t: int) -> bool {
    &&& 0 <= t < 64
    &&& match c {
        Color::White => t / 8 > i / 8,
        Color::Black => t / 8 < i / 8,
    }
    &&& -1 <= t % 8 - i % 8 <= 1
}

/// How far a pawn of `c` on `i` has come from its own first rank.
pub open spec fn progress(c: Color, i: int) -> int {
    match c {
        Color::White => i / 8,
        Color::Black => 7 - i / 8,
    }
}

/// The two placements have their pawns of `c` on the same squares.
pub open spec fn same_pawns(a: Seq<Piece>, b: Seq<Piece>, c: Color) -> bool {
    forall|j: int|
        0 <= j < 64 ==> (#[trigger] a[j] == Piece::of(c, PieceType::Pawn)) == (b[j] == Piece::of(
            c,
            PieceType::Pawn,
        ))
}

proof fn lemma_same_company(a: Seq<Piece>, b: Seq<Piece>, c: Color, i: int)
    requires
        same_pawns(a, b, c),
    ensures
        classical::doubled(a, c, i) == classical::doubled(b, c, i),
        classical::isolated(a, c, i) == classical::isolated(b, c, i),
{
    let own = Piece::of(c, PieceType::Pawn);
    if classical::doubled(a, c, i) {
        let j = choose|j: int|
            0 <= j < 64 && j != i && j % 8 == i % 8 && #[trigger] a[j] == own;
        assert(b[j] == own);
    }
    if classical::doubled(b, c, i) {
        let j = choose|j: int|
            0 <= j < 64 && j != i && j % 8 == i % 8 && #[trigger] b[j] == own;
        assert(a[j] == own);
    }
    if classical::isolated(a, c, i) && !classical::isolated(b, c, i) {
        let j = choose|j: int|
            0 <= j < 64 && (j % 8 == i % 8 + 1 || j % 8 == i % 8 - 1) && #[trigger] b[j] == own;
        assert(a[j] == own);
    }
    if classical::isolated(b, c, i) && !classical::isolated(a, c, i) {
        let j = choose|j: int|
            0 <= j < 64 && (j % 8 == i % 8 + 1 || j % 8 == i % 8 - 1) && #[trigger] a[j] == own;
        assert(b[j] == own);
    }
}

/// A pawn with no enemy pawn on its way is worth more than the same pawn with one, in both phases
/// of the game, once it has left its first rank.
#[verifier::spinoff_prover]
pub proof fn law_a_passed_pawn_is_worth_more(
    free: Seq<Piece>,
    stopped: Seq<Piece>,
    c: Color,
    i: int,
    t: int,
    midgame: bool,
)
    requires
        0 <= i < 64,
        progress(c, i) > 0,
        free[i] == Piece::of(c, PieceType::Pawn),
        same_pawns(free, stopped, c),
        forall|s: int|
            on_the_way(c, i, s) ==> #[trigger] free[s] != Piece::of(c.opp(), PieceType::Pawn),
        on_the_way(c, i, t),
        stopped[t] == Piece::of(c.opp(), PieceType::Pawn),
    ensures
        classical::pawn_value(free, c, i, midgame) > classical::pawn_value(stopped, c, i, midgame),
        classical::square_value(free, c, i, midgame) > classical::square_value(
            stopped,
            c,
            i,
            midgame,
        ),
{
    lemma_same_company(free, stopped, c, i);
    let rank = Square::rel_rank(i, c);
    assert(rank == progress(c, i));
    assert(rank * rank >= 1) by (nonlinear_arith)
        requires
            rank >= 1,
    ;
    assert(classical::passed(free, c, i)) by {
        assert forall|s: int| #[trigger] classical::ahead(c, i, s) implies free[s] != Piece::of(
            c.opp(),
            PieceType::Pawn,
        ) by {
            assert(on_the_way(c, i, s));
        }
    }
    assert(classical::ahead(c, i, t));
    assert(!classical::passed(stopped, c, i));
    assert(stopped[i] == Piece::of(c, PieceType::Pawn));
}

/// Taking an enemy pawn off a pawn's way never makes that pawn worth less.
pub proof fn law_clearing_the_way_never_hurts(b: Seq<Piece>, c: Color, i: int, t: int, midgame: bool)
    requires
        b.len() == 64,
        0 <= i < 64,
        b[i] == Piece::of(c, PieceType::Pawn),
        on_the_way(c, i, t),
        b[t] == Piece::of(c.opp(), PieceType::Pawn),
    ensures
        classical::pawn_value(b.update(t, Piece::NONE), c, i, midgame) >= classical::pawn_value(
            b,
            c,
            i,
            midgame,
        ),
        classical::square_value(b.update(t, Piece::NONE), c, i, midgame)
            >= classical::square_value(b, c, i, midgame),
{
    let a = b.update(t, Piece::NONE);
    assert(same_pawns(a, b, c));
    lemma_same_company(a, b, c, i);
    let rank = Square::rel_rank(i, c);
    assert(rank * rank >= 0) by (nonlinear_arith);
    assert(classical::ahead(c, i, t));
    assert(!classical::passed(b, c, i));
}

/// On an open file, with no pawn of either side on it or next to it, a pawn is worth more the
/// further it has come.
pub proof fn law_a_passed_pawn_gains_by_advancing(b: Seq<Piece>, c: Color, i: int, j: int, midgame: bool)
    requires
        0 <= i < 64,
        0 <= j < 64,
        i % 8 == j % 8,
        progress(c, i) < progress(c, j),
        forall|s: int|
            0 <= s < 64 && -1 <= s % 8 - i % 8 <= 1 ==> #[trigger] b[s] != Piece::of(
                Color::White,
                PieceType::Pawn,
            ) && b[s] != Piece::of(Color::Black, PieceType::Pawn),
    ensures
        classical::pawn_value(b, c, i, midgame) < classical::pawn_value(b, c, j, midgame),
{
    let x = Square::rel_rank(i, c);
    let y = Square::rel_rank(j, c);
    assert(x == progress(c, i) && y == progress(c, j));
    assert(x * x < y * y) by (nonlinear_arith)
        requires
            0 <= x < y,
    ;
    assert(classical::passed(b, c, i));
    assert(classical::passed(b, c, j));
    assert(!classical::doubled(b, c, i));
    assert(!classical::doubled(b, c, j));
    assert(classical::isolated(b, c, i));
    assert(classical::isolated(b, c, j));
}

/// A second own pawn on its file makes a pawn worth less.
pub proof fn law_a_doubled_pawn_is_worth_less(b: Seq<Piece>, c: Color, i: int, j: int, midgame: bool)
    requires
        b.len() == 64,
        0 <= i < 64,
        0 <= j < 64,
        j != i,
        j % 8 == i % 8,
        b[i] == Piece::of(c, PieceType::Pawn),
        b[j] == Piece::NONE,
        forall|s: int|
            0 <= s < 64 && s != i && s % 8 == i % 8 ==> #[trigger] b[s] != Piece::of(
                c,
                PieceType::Pawn,
            ),
    ensures
        classical::square_value(b.update(j, Piece::of(c, PieceType::Pawn)), c, i, midgame)
            < classical::square_value(b, c, i, midgame),
{
    let own = Piece::of(c, PieceType::Pawn);
    let foe = Piece::of(c.opp(), PieceType::Pawn);
    let a = b.update(j, own);
    assert(!classical::doubled(b, c, i));
    assert(a[j] == own);
    assert(classical::doubled(a, c, i));
    assert(forall|s: int| 0 <= s < 64 && s != j ==> #[trigger] a[s] == b[s]);
    assert(classical::isolated(a, c, i) == classical::isolated(b, c, i)) by {
        if classical::isolated(b, c, i) {
            assert forall|s: int|
                0 <= s < 64 && (s % 8 == i % 8 + 1 || s % 8 == i % 8 - 1) implies #[trigger] a[s]
                != own by {
                assert(b[s] != own);
            }
        }
        if classical::isolated(a, c, i) {
            assert forall|s: int|
                0 <= s < 64 && (s % 8 == i % 8 + 1 || s % 8 == i % 8 - 1) implies #[trigger] b[s]
                != own by {
                assert(a[s] != own);
            }
        }
    }
    assert(classical::passed(a, c, i) == classical::passed(b, c, i)) by {
        assert(forall|s: int| 0 <= s < 64 ==> (#[trigger] a[s] == foe) == (b[s] == foe));
    }
}

/// An own pawn on a neighbouring file, where there was none, makes a pawn worth more.
pub proof fn law_a_supported_pawn_is_worth_more(b: Seq<Piece>, c: Color, i: int, j: int, midgame: bool)
    requires
        b.len() == 64,
        0 <= i < 64,
        0 <= j < 64,
        j % 8 == i % 8 + 1 || j % 8 == i % 8 - 1,
        b[i] == Piece::of(c, PieceType::Pawn),
        b[j] == Piece::NONE,
        forall|s: int|
            0 <= s < 64 && (s % 8 == i % 8 + 1 || s % 8 == i % 8 - 1) ==> #[trigger] b[s]
                != Piece::of(c, PieceType::Pawn),
    ensures
        classical::square_value(b.update(j, Piece::of(c, PieceType::Pawn)), c, i, midgame)
            > classical::square_value(b, c, i, midgame),
{
    let own = Piece::of(c, PieceType::Pawn);
    let foe = Piece::of(c.opp(), PieceType::Pawn);
    let a = b.update(j, own);
    assert(classical::isolated(b, c, i));
    assert(a[j] == own);
    assert(!classical::isolated(a, c, i));
    assert(forall|s: int| 0 <= s < 64 && s != j ==> #[trigger] a[s] == b[s]);
    assert(classical::doubled(a, c, i) == classical::doubled(b, c, i)) by {
        if classical::doubled(a, c, i) {
            let s = choose|s: int|
                0 <= s < 64 && s != i && s % 8 == i % 8 && #[trigger] a[s] == own;
            assert(b[s] == own);
        }
        if classical::doubled(b, c, i) {
            let s = choose|s: int|
                0 <= s < 64 && s != i && s % 8 == i % 8 && #[trigger] b[s] == own;
            assert(a[s] == own);
        }
    }
    assert(classical::passed(a, c, i) == classical::passed(b, c, i)) by {
        assert(forall|s: int| 0 <= s < 64 ==> (#[trigger] a[s] == foe) == (b[s] == foe));
    }
}

// ---------------------------------------------------------------------------
// Pieces
// ---------------------------------------------------------------------------

pub proof fn lemma_fewer_squares(p: spec_fn(int) -> bool, q: spec_fn(int) -> bool, i: int)
    requires
        0 <= i,
        forall|t: int| i <= t < 64 && #[trigger] p(t) ==> q(t),
    ensures
        movegen::squares_from(p, i).len() <= movegen::squares_from(q, i).len() <= (if i < 64 {
            64 - i
        } else {
            0
        }),
    decreases 64 - i,
{
    if i < 64 {
        lemma_fewer_squares(p, q, i + 1);
        if p(i) {
            assert(q(i));
        }
    }
}

/// An officer that reaches every square another of its kind reaches is worth at least as much on
/// the same square: an own piece in its way, or an enemy pawn that covers a square, takes value
/// away.
pub proof fn law_reach_is_worth_something(
    wide: Seq<Piece>,
    narrow: Seq<Piece>,
    c: Color,
    i: int,
    midgame: bool,
)
    requires
        0 <= i < 64,
        wide[i] == narrow[i],
        wide[i].is_real(),
        wide[i].side() == c,
        wide[i].kind() != PieceType::Pawn,
        forall|t: int|
            0 <= t < 64 && #[trigger] attacks::hits(
                Color::White,
                wide[i].kind(),
                placement::occ(narrow),
                i,
                t,
            ) && (narrow[t] == Piece::NONE || narrow[t].side() != c) && (forall|q: int|
                0 <= q < 64 && narrow[q] == Piece::of(c.opp(), PieceType::Pawn)
                    ==> !#[trigger] bitboard::pawn_hits(c.opp(), q, t)) ==> attacks::hits(
                Color::White,
                wide[i].kind(),
                placement::occ(wide),
                i,
                t,
            ) && (wide[t] == Piece::NONE || wide[t].side() != c) && (forall|q: int|
                0 <= q < 64 && wide[q] == Piece::of(c.opp(), PieceType::Pawn)
                    ==> !#[trigger] bitboard::pawn_hits(c.opp(), q, t)),
    ensures
        classical::square_value(wide, c, i, midgame) >= classical::square_value(
            narrow,
            c,
            i,
            midgame,
        ),
{
    let pt = wide[i].kind();
    let p = |t: int| classical::usable(narrow, c, pt, i, t);
    let q = |t: int| classical::usable(wide, c, pt, i, t);
    assert forall|t: int| 0 <= t < 64 && #[trigger] p(t) implies q(t) by {
        assert(attacks::hits(Color::White, pt, placement::occ(narrow), i, t));
    }
    lemma_fewer_squares(p, q, 0);
    let x = classical::mobility(narrow, c, pt, i);
    let y = classical::mobility(wide, c, pt, i);
    let w = classical::mobility_weight(pt, midgame);
    assert(w * x <= w * y) by (nonlinear_arith)
        requires
            w >= 0,
            x <= y,
    ;
}

/// One more square to go to makes a knight, bishop, rook or queen worth more.
pub proof fn law_more_reach_is_worth_more(
    wide: Seq<Piece>,
    narrow: Seq<Piece>,
    c: Color,
    i: int,
    midgame: bool,
)
    requires
        0 <= i < 64,
        wide[i] == narrow[i],
        wide[i].is_real(),
        wide[i].side() == c,
        wide[i].kind() != PieceType::Pawn,
        wide[i].kind() != PieceType::King,
        classical::mobility(wide, c, wide[i].kind(), i) > classical::mobility(
            narrow,
            c,
            wide[i].kind(),
            i,
        ),
    ensures
        classical::square_value(wide, c, i, midgame) > classical::square_value(
            narrow,
            c,
            i,
            midgame,
        ),
{
    let pt = wide[i].kind();
    let x = classical::mobility(narrow, c, pt, i);
    let y = classical::mobility(wide, c, pt, i);
    let w = classical::mobility_weight(pt, midgame);
    assert(w * x < w * y) by (nonlinear_arith)
        requires
            w >= 1,
            x < y,
    ;
}

// ---------------------------------------------------------------------------
// The whole
// ---------------------------------------------------------------------------

proof fn lemma_side_grows(a: Seq<Piece>, b: Seq<Piece>, c: Color, midgame: bool, n: int)
    requires
        0 <= n <= 64,
        forall|i: int|
            0 <= i < 64 ==> #[trigger] classical::square_value(a, c, i, midgame)
                >= classical::square_value(b, c, i, midgame),
    ensures
        classical::side_upto(a, c, midgame, n) >= classical::side_upto(b, c, midgame, n),
        (exists|i: int|
            0 <= i < n && #[trigger] classical::square_value(a, c, i, midgame)
                > classical::square_value(b, c, i, midgame)) ==> classical::side_upto(
            a,
            c,
            midgame,
            n,
        ) > classical::side_upto(b, c, midgame, n),
    decreases n,
{
    if n > 0 {
        lemma_side_grows(a, b, c, midgame, n - 1);
        assert(classical::square_value(a, c, n - 1, midgame) >= classical::square_value(
            b,
            c,
            n - 1,
            midgame,
        ));
        if exists|i: int|
            0 <= i < n && #[trigger] classical::square_value(a, c, i, midgame)
                > classical::square_value(b, c, i, midgame) {
            let i = choose|i: int|
                0 <= i < n && #[trigger] classical::square_value(a, c, i, midgame)
                    > classical::square_value(b, c, i, midgame);
            if i < n - 1 {
                assert(classical::square_value(a, c, i, midgame) > classical::square_value(
                    b,
                    c,
                    i,
                    midgame,
                ));
            }
        }
    }
}

/// A side whose pieces are each worth at least as much has at least as high a score, and a higher
/// one when some piece is worth more, with as many bishops.
pub proof fn law_better_pieces_make_a_better_side(
    a: Seq<Piece>,
    b: Seq<Piece>,
    c: Color,
    midgame: bool,
)
    requires
        tally::count_of(a, Piece::of(c, PieceType::Bishop)) == tally::count_of(
            b,
            Piece::of(c, PieceType::Bishop),
        ),
        forall|i: int|
            0 <= i < 64 ==> #[trigger] classical::square_value(a, c, i, midgame)
                >= classical::square_value(b, c, i, midgame),
    ensures
        classical::side_score(a, c, midgame) >= classical::side_score(b, c, midgame),
        (exists|i: int|
            0 <= i < 64 && #[trigger] classical::square_value(a, c, i, midgame)
                > classical::square_value(b, c, i, midgame)) ==> classical::side_score(
            a,
            c,
            midgame,
        ) > classical::side_score(b, c, midgame),
{
    lemma_side_grows(a, b, c, midgame, 64);
}

/// The second bishop is worth more than what its square alone adds: with squares worth the same,
/// the side with two bishops is ahead of the side with one.
pub proof fn law_the_bishop_pair_is_worth_something(
    pair: Seq<Piece>,
    other: Seq<Piece>,
    c: Color,
    midgame: bool,
)
    requires
        tally::count_of(pair, Piece::of(c, PieceType::Bishop)) >= 2,
        tally::count_of(other, Piece::of(c, PieceType::Bishop)) < 2,
        forall|i: int|
            0 <= i < 64 ==> #[trigger] classical::square_value(pair, c, i, midgame)
                >= classical::square_value(other, c, i, midgame),
    ensures
        classical::side_score(pair, c, midgame) > classical::side_score(other, c, midgame),
{
    lemma_side_grows(pair, other, c, midgame, 64);
}

/// What a side is ahead by, in one phase of the game.
pub open spec fn lead(b: Seq<Piece>, c: Color, midgame: bool) -> int {
    classical::side_score(b, c, midgame) - classical::side_score(b, c.opp(), midgame)
}

#[verifier::spinoff_prover]
proof fn lemma_between(x: int, y: int, p: int)
    requires
        0 <= p <= 24,
    ensures
        ({
            let v = types::trunc_div(x * p + y * (24 - p), 24);
            &&& x <= y ==> x <= v <= y
            &&& y <= x ==> y <= v <= x
            &&& p == 24 ==> v == x
            &&& p == 0 ==> v == y
            &&& types::trunc_div(-(x * p + y * (24 - p)), 24) == -v
        }),
{
    let s = x * p + y * (24 - p);
    assert(s == 24 * y + (x - y) * p) by (nonlinear_arith)
        requires
            s == x * p + y * (24 - p),
    ;
    if x <= y {
        assert((x - y) * 24 <= (x - y) * p <= 0) by (nonlinear_arith)
            requires
                x <= y,
                0 <= p <= 24,
        ;
    } else {
        assert(0 <= (x - y) * p <= (x - y) * 24) by (nonlinear_arith)
            requires
                y < x,
                0 <= p <= 24,
        ;
    }
}

/// The score is the side to move's own: 15 for the move, and what it is ahead by, between its lead
/// in the midgame and its lead in the endgame. With every officer on the board the midgame alone
/// counts, with none the endgame alone.
pub proof fn law_the_score_is_the_lead_of_the_side_to_move(b: Seq<Piece>, stm: Color)
    ensures
        lead(b, stm, true) <= lead(b, stm, false) ==> lead(b, stm, true) <= classical::score_of(
            b,
            stm,
        ) - 15 <= lead(b, stm, false),
        lead(b, stm, false) <= lead(b, stm, true) ==> lead(b, stm, false) <= classical::score_of(
            b,
            stm,
        ) - 15 <= lead(b, stm, true),
        classical::phase(b) == 24 ==> classical::score_of(b, stm) == lead(b, stm, true) + 15,
        classical::phase(b) == 0 ==> classical::score_of(b, stm) == lead(b, stm, false) + 15,
        classical::score_of(b, stm.opp()) - 15 == -(classical::score_of(b, stm) - 15),
{
    lemma_phase(b, 64);
    let p = classical::phase(b);
    let x = lead(b, Color::White, true);
    let y = lead(b, Color::White, false);
    lemma_between(x, y, p);
    lemma_between(-x, -y, p);
    assert((-x) * p + (-y) * (24 - p) == -(x * p + y * (24 - p))) by (nonlinear_arith);
}

/// How many officers of a kind there are, of both sides.
pub open spec fn officers(b: Seq<Piece>, pt: PieceType) -> int {
    tally::count_of(b, Piece::of(Color::White, pt)) + tally::count_of(b, Piece::of(Color::Black, pt))
}

proof fn lemma_phase(b: Seq<Piece>, n: int)
    requires
        0 <= n,
    ensures
        0 <= classical::phase_upto(b, n),
    decreases n,
{
    if n > 0 {
        lemma_phase(b, n - 1);
    }
}

#[verifier::spinoff_prover]
proof fn lemma_phase_counts(b: Seq<Piece>, n: int)
    requires
        0 <= n <= 64,
        placement::clean(b),
    ensures
        classical::phase_upto(b, n) == tally::count_upto(b, Piece::W_KNIGHT, n)
            + tally::count_upto(b, Piece::B_KNIGHT, n) + tally::count_upto(b, Piece::W_BISHOP, n)
            + tally::count_upto(b, Piece::B_BISHOP, n) + 2 * (tally::count_upto(
            b,
            Piece::W_ROOK,
            n,
        ) + tally::count_upto(b, Piece::B_ROOK, n)) + 4 * (tally::count_upto(b, Piece::W_QUEEN, n)
            + tally::count_upto(b, Piece::B_QUEEN, n)),
    decreases n,
{
    if n > 0 {
        lemma_phase_counts(b, n - 1);
        assert(b[n - 1] == Piece::NONE || b[n - 1].is_real());
    }
}

/// The phase counts officers: a minor piece once, a rook twice, a queen four times, 24 at most.
pub proof fn law_the_phase_counts_officers(b: Seq<Piece>)
    requires
        placement::clean(b),
    ensures
        ({
            let n = officers(b, PieceType::Knight) + officers(b, PieceType::Bishop) + 2 * officers(
                b,
                PieceType::Rook,
            ) + 4 * officers(b, PieceType::Queen);
            classical::phase(b) == if n < 24 {
                n
            } else {
                24
            }
        }),
{
    lemma_phase_counts(b, 64);
}

// ---------------------------------------------------------------------------
// The fifty-move counter
// ---------------------------------------------------------------------------

proof fn lemma_share(v: int, n: int)
    requires
        0 <= v,
        0 <= n <= 199,
    ensures
        0 <= types::trunc_div(v * n, 199) <= v,
        types::trunc_div(-(v * n), 199) == -types::trunc_div(v * n, 199),
        n == 199 ==> types::trunc_div(v * n, 199) == v,
        n == 0 ==> types::trunc_div(v * n, 199) == 0,
        v * n >= 0,
        (-v) * n == -(v * n),
{
    assert(0 <= v * n <= v * 199) by (nonlinear_arith)
        requires
            0 <= v,
            0 <= n <= 199,
    ;
    assert((-v) * n == -(v * n)) by (nonlinear_arith);
}

/// Damping keeps the sign and never adds: what is left of a score is less the longer nothing
/// irreversible has happened, nothing at all at 199, and the same for both sides. A score that no
/// move has worn is only kept out of the tablebases' range.
#[verifier::spinoff_prover]
pub proof fn law_damping_wears_a_score_away(v: int, early: int, late: int)
    requires
        0 <= v,
        0 <= early <= late <= 199,
    ensures
        0 <= eval::damped(v, late) <= eval::damped(v, early) <= v,
        eval::damped(-v, early) == -eval::damped(v, early),
        eval::damped(v, 199) == 0,
        v < types::VALUE_TB_WIN_IN_MAX_PLY ==> eval::damped(v, 0) == v,
        eval::damped(v, early) < types::VALUE_TB_WIN_IN_MAX_PLY,
{
    lemma_share(v, early);
    lemma_share(v, late);
    lemma_share(v, 199);
    lemma_share(v, 0);
    let x = v * early;
    let y = v * late;
    assert(x <= y) by (nonlinear_arith)
        requires
            0 <= v,
            early <= late,
            x == v * early,
            y == v * late,
    ;
    assert(x / 199 <= y / 199);
}

} // verus!
