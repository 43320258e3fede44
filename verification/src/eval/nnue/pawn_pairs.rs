//! The pawn-pair features: two pawns of either colour within one file of each other.
//!
//! A pair is unordered, so its number depends on the two pawn slots alone. The set is a
//! function of the two pawn bitboards.

use vstd::prelude::*;
use crate::board::bitboard::Bitboard;
use crate::board::bits;
use crate::board::placement;
use crate::board::position::Position;
use crate::board::threats::DirtyPawnPairs;
use crate::board::types::{Color, Piece, PieceType, Square};
use crate::eval::nnue::features::{orient, PP_DIMENSIONS, PP_INDEX_BASE};
use crate::eval::nnue::features;

verus! {

/// A pawn's square: one of the ranks 2 to 7.
pub open spec fn inside(s: int) -> bool {
    1 <= s / 8 <= 6
}

/// The slot of a pawn as a perspective sees it: its own pawns first.
pub open spec fn pawn_slot(p: Color, c: Color, s: int, ksq: int) -> int {
    features::oriented(s, features::threat_mirrors(ksq), p == Color::Black) - 8 + (if c == p {
        0int
    } else {
        48int
    })
}

/// The number of an unordered pair of different slots.
pub open spec fn pair_number(a: int, b: int) -> int {
    let hi = if a > b {
        a
    } else {
        b
    };
    let lo = if a > b {
        b
    } else {
        a
    };
    hi * (hi - 1) / 2 + lo
}

/// The feature of a pawn of `c` on `x` paired with one of `d` on `y`.
pub open spec fn pair_of(p: Color, c: Color, x: int, y: int, d: Color, ksq: int) -> int {
    PP_INDEX_BASE + pair_number(pawn_slot(p, c, x, ksq), pawn_slot(p, d, y, ksq))
}

/// A pair is the same from either end.
pub proof fn law_pairs_are_unordered(p: Color, c: Color, x: int, y: int, d: Color, ksq: int)
    ensures
        pair_of(p, c, x, y, d, ksq) == pair_of(p, d, y, x, c, ksq),
{
}

proof fn lemma_pair_number(a: int, b: int)
    requires
        0 <= a < 96,
        0 <= b < 96,
        a != b,
    ensures
        0 <= pair_number(a, b) < PP_DIMENSIONS,
{
    let hi = if a > b {
        a
    } else {
        b
    };
    let lo = if a > b {
        b
    } else {
        a
    };
    assert(0 <= hi * (hi - 1) <= 8930) by (nonlinear_arith)
        requires
            1 <= hi <= 95,
    ;
}

pub proof fn lemma_slots(p: Color, c: Color, x: int, y: int, d: Color, ksq: int)
    requires
        inside(x),
        inside(y),
        x != y || c != d,
    ensures
        0 <= pawn_slot(p, c, x, ksq) < 96,
        0 <= pawn_slot(p, d, y, ksq) < 96,
        pawn_slot(p, c, x, ksq) != pawn_slot(p, d, y, ksq),
{
}

/// Every pair of pawn squares has a number in range.
pub proof fn law_pairs_in_range(p: Color, c: Color, x: int, y: int, d: Color, ksq: int)
    requires
        inside(x),
        inside(y),
        x != y || c != d,
    ensures
        PP_INDEX_BASE <= pair_of(p, c, x, y, d, ksq) < PP_INDEX_BASE + PP_DIMENSIONS,
{
    lemma_slots(p, c, x, y, d, ksq);
    lemma_pair_number(pawn_slot(p, c, x, ksq), pawn_slot(p, d, y, ksq));
}

/// The slot of a pawn.
fn pawn_id(p: Color, c: Color, s: Square, ksq: Square) -> (r: u32)
    requires
        inside(s.idx()),
    ensures
        r == pawn_slot(p, c, s.idx(), ksq.idx()),
        r < 96,
{
    broadcast use Square::lemma_idx;

    let o: u32 = orient(s, ksq.index() % 8 >= 4, p == Color::Black).index() as u32;
    if c == p {
        o - 8
    } else {
        o - 8 + 48
    }
}

/// The feature index for a pawn of `color` on `from` paired with a pawn of `paired_color` on
/// `to`.
#[verifier::spinoff_prover]
#[verifier::rlimit(60)]
pub fn pawn_pair_index(
    perspective: Color,
    color: Color,
    from: Square,
    to: Square,
    paired_color: Color,
    ksq: Square,
) -> (r: u32)
    requires
        inside(from.idx()),
        inside(to.idx()),
        from != to || color != paired_color,
    ensures
        r == pair_of(perspective, color, from.idx(), to.idx(), paired_color, ksq.idx()),
        PP_INDEX_BASE <= r < PP_INDEX_BASE + PP_DIMENSIONS,
{
    broadcast use Square::lemma_idx;

    let a = pawn_id(perspective, color, from, ksq);
    let b = pawn_id(perspective, paired_color, to, ksq);
    proof {
        if from.idx() == to.idx() {
            Square::lemma_inj(from, to);
        }
        lemma_slots(perspective, color, from.idx(), to.idx(), paired_color, ksq.idx());
        lemma_pair_number(a as int, b as int);
    }
    let hi = if a > b {
        a
    } else {
        b
    };
    let lo = if a > b {
        b
    } else {
        a
    };
    assert(0 <= hi * (hi - 1) <= 8930) by (nonlinear_arith)
        requires
            1 <= hi <= 95,
    ;
    hi * (hi - 1) / 2 + lo + PP_INDEX_BASE
}

// ---------------------------------------------------------------------------
// The active set
// ---------------------------------------------------------------------------

/// The colour of the pawn on `s`.
pub open spec fn pawn_color(black: u64, s: int) -> Color {
    if bits::bit(black, s) {
        Color::Black
    } else {
        Color::White
    }
}

/// A pawn on `x` makes a pair with one on `y`.
pub open spec fn in_band(x: int, y: int) -> bool {
    x != y && inside(y) && -1 <= x % 8 - y % 8 <= 1
}

/// The squares whose pawns make a pair with one on `sq`: its file and the two beside it, from
/// the second rank to the seventh, without the square itself.
pub fn pawn_pair_band(sq: Square) -> (r: Bitboard)
    ensures
        forall|t: int| 0 <= t < 64 ==> #[trigger] r.has(t) == in_band(sq.idx(), t),
{
    broadcast use {Square::lemma_idx, bits::group_bits};

    let x = sq.index();
    let mut band = Bitboard(0);
    let mut y: usize = 0;
    while y < 64
        invariant
            y <= 64,
            x < 64,
            x == sq.idx(),
            forall|t: int|
                0 <= t < 64 ==> #[trigger] band.has(t) == (t < y && in_band(x as int, t)),
        decreases 64 - y,
    {
        broadcast use {Square::lemma_idx, Square::lemma_at, bits::group_bits};

        let f = x % 8;
        let g = y % 8;
        if x != y && y >= 8 && y < 56 && f <= g + 1 && g <= f + 1 {
            band.set(Square::new(y));
        }
        y += 1;
    }
    band
}

/// The squares `x` and `y`, in this order, hold a pair of pawns.
pub open spec fn paired(white: u64, black: u64, x: int, y: int) -> bool {
    &&& x < y
    &&& inside(x)
    &&& inside(y)
    &&& -1 <= x % 8 - y % 8 <= 1
    &&& bits::bit(white, x) || bits::bit(black, x)
    &&& bits::bit(white, y) || bits::bit(black, y)
}

/// They do, and one of them is in `changed`.
pub open spec fn paired_in(white: u64, black: u64, changed: u64, x: int, y: int) -> bool {
    paired(white, black, x, y) && (bits::bit(changed, x) || bits::bit(changed, y))
}

/// The features of the pairs of `x` with the first `n` squares.
pub open spec fn pairs_from(
    white: u64,
    black: u64,
    changed: u64,
    p: Color,
    ksq: int,
    x: int,
    n: int,
) -> Seq<u32>
    decreases n,
{
    if n <= 0 {
        Seq::empty()
    } else if paired_in(white, black, changed, x, n - 1) {
        pairs_from(white, black, changed, p, ksq, x, n - 1).push(
            pair_of(p, pawn_color(black, x), x, n - 1, pawn_color(black, n - 1), ksq) as u32,
        )
    } else {
        pairs_from(white, black, changed, p, ksq, x, n - 1)
    }
}

/// The features of the pairs that start on the first `m` squares and touch `changed`.
pub open spec fn pairs_upto(
    white: u64,
    black: u64,
    changed: u64,
    p: Color,
    ksq: int,
    m: int,
) -> Seq<u32>
    decreases m,
{
    if m <= 0 {
        Seq::empty()
    } else {
        pairs_upto(white, black, changed, p, ksq, m - 1) + pairs_from(
            white,
            black,
            changed,
            p,
            ksq,
            m - 1,
            64,
        )
    }
}

/// The pawn-pair features of a placement.
pub open spec fn pairs_of(white: u64, black: u64, p: Color, ksq: int) -> Seq<u32> {
    pairs_upto(white, black, 0xffff_ffff_ffff_ffff, p, ksq, 64)
}

/// The word holds the pawns of one side.
pub open spec fn holds_pawns(b: Seq<Piece>, c: Color, w: u64) -> bool {
    forall|i: int|
        0 <= i < 64 ==> #[trigger] bits::bit(w, i) == (b[i] == Piece::of(c, PieceType::Pawn))
}

/// The pawns of one side.
pub open spec fn pawns(b: Seq<Piece>, c: Color) -> u64 {
    choose|w: u64| holds_pawns(b, c, w)
}

pub proof fn lemma_pawns(b: Seq<Piece>, c: Color, w: u64)
    requires
        holds_pawns(b, c, w),
    ensures
        pawns(b, c) == w,
{
    let v = pawns(b, c);
    assert(holds_pawns(b, c, v));
    assert forall|i: int| 0 <= i < 64 implies #[trigger] bits::bit(v, i) == bits::bit(w, i) by {
        assert(bits::bit(w, i) == (b[i] == Piece::of(c, PieceType::Pawn)));
    }
    bits::lemma_ext(v, w);
}

/// Append the features of the pairs of one square that touch `changed`.
fn push_pairs_from(
    white: Bitboard,
    black: Bitboard,
    changed: Bitboard,
    perspective: Color,
    ksq: Square,
    from: Square,
    out: &mut Vec<u32>,
)
    ensures
        final(out)@ == old(out)@ + pairs_from(
            white.0,
            black.0,
            changed.0,
            perspective,
            ksq.idx(),
            from.idx(),
            64,
        ),
{
    broadcast use {Square::lemma_idx, bits::group_bits};

    let ghost start = out@;
    let x = from.index();
    let here = x >= 8 && x < 56 && (white.contains(from) || black.contains(from));
    let color = if black.contains(from) {
        Color::Black
    } else {
        Color::White
    };
    let touched = changed.contains(from);
    let mut i: usize = 0;
    assert(start + pairs_from(white.0, black.0, changed.0, perspective, ksq.idx(), x as int, 0)
        =~= start);
    while i < 64
        invariant
            i <= 64,
            x == from.idx(),
            x < 64,
            here == (inside(x as int) && (white.has(x as int) || black.has(x as int))),
            color == pawn_color(black.0, x as int),
            touched == changed.has(x as int),
            out@ == start + pairs_from(
                white.0,
                black.0,
                changed.0,
                perspective,
                ksq.idx(),
                x as int,
                i as int,
            ),
        decreases 64 - i,
    {
        let to = Square::new(i);
        if here && i > x && i < 56 && i % 8 <= x % 8 + 1 && x % 8 <= i % 8 + 1 && (white.contains(to)
            || black.contains(to)) && (touched || changed.contains(to)) {
            let paired = if black.contains(to) {
                Color::Black
            } else {
                Color::White
            };
            out.push(pawn_pair_index(perspective, color, from, to, paired, ksq));
        }
        i += 1;
        assert(out@ =~= start + pairs_from(
            white.0,
            black.0,
            changed.0,
            perspective,
            ksq.idx(),
            x as int,
            i as int,
        ));
    }
}

/// Append the features of the pairs that touch `changed`, each unordered pair once.
pub fn push_pairs(
    white: Bitboard,
    black: Bitboard,
    changed: Bitboard,
    perspective: Color,
    ksq: Square,
    out: &mut Vec<u32>,
)
    ensures
        final(out)@ == old(out)@ + pairs_upto(
            white.0,
            black.0,
            changed.0,
            perspective,
            ksq.idx(),
            64,
        ),
{
    let ghost start = out@;
    let mut i: usize = 0;
    assert(start + pairs_upto(white.0, black.0, changed.0, perspective, ksq.idx(), 0) =~= start);
    while i < 64
        invariant
            i <= 64,
            out@ == start + pairs_upto(
                white.0,
                black.0,
                changed.0,
                perspective,
                ksq.idx(),
                i as int,
            ),
        decreases 64 - i,
    {
        broadcast use Square::lemma_idx;

        push_pairs_from(white, black, changed, perspective, ksq, Square::new(i), out);
        i += 1;
        assert(out@ =~= start + pairs_upto(
            white.0,
            black.0,
            changed.0,
            perspective,
            ksq.idx(),
            i as int,
        ));
    }
}

/// Append every active pawn-pair feature of one perspective. The order carries no meaning.
pub fn pawn_pair_active(pos: &Position, perspective: Color, out: &mut Vec<u32>)
    requires
        pos.wf(),
    ensures
        final(out)@ == old(out)@ + pairs_of(
            pawns(pos.board@, Color::White),
            pawns(pos.board@, Color::Black),
            perspective,
            placement::king(pos.board@, perspective),
        ),
{
    let white = pos.pieces_of(Color::White, PieceType::Pawn);
    let black = pos.pieces_of(Color::Black, PieceType::Pawn);
    proof {
        assert forall|i: int| 0 <= i < 64 implies #[trigger] bits::bit(white.0, i) == (pos.board@[i]
            == Piece::of(Color::White, PieceType::Pawn)) by {
            assert(white.has(i) == bits::bit(white.0, i));
        }
        assert forall|i: int| 0 <= i < 64 implies #[trigger] bits::bit(black.0, i) == (pos.board@[i]
            == Piece::of(Color::Black, PieceType::Pawn)) by {
            assert(black.has(i) == bits::bit(black.0, i));
        }
        lemma_pawns(pos.board@, Color::White, white.0);
        lemma_pawns(pos.board@, Color::Black, black.0);
    }
    let all = Bitboard(0xffff_ffff_ffff_ffff);
    push_pairs(white, black, all, perspective, pos.king_square(perspective), out);
}

// ---------------------------------------------------------------------------
// The difference that a move makes
// ---------------------------------------------------------------------------

/// The pawn-pair features that a move adds and takes away: the pairs with a pawn on a square
/// that the move changed. Every other pair is in both sets.
pub fn pawn_pair_delta(
    dpp: &DirtyPawnPairs,
    perspective: Color,
    ksq: Square,
    adds: &mut Vec<u32>,
    subs: &mut Vec<u32>,
)
    ensures
        final(adds)@ == old(adds)@ + pairs_upto(
            dpp.after@[0].0,
            dpp.after@[1].0,
            dpp.touched(),
            perspective,
            ksq.idx(),
            64,
        ),
        final(subs)@ == old(subs)@ + pairs_upto(
            dpp.before@[0].0,
            dpp.before@[1].0,
            dpp.touched(),
            perspective,
            ksq.idx(),
            64,
        ),
{
    if dpp.is_unchanged() {
        proof {
            lemma_untouched(*dpp, dpp.after@[0].0, dpp.after@[1].0, perspective, ksq.idx(), 64);
            assert(adds@ + Seq::<u32>::empty() =~= adds@);
            assert(subs@ + Seq::<u32>::empty() =~= subs@);
        }
        return;
    }
    let changed = (dpp.before[0] ^ dpp.after[0]) | (dpp.before[1] ^ dpp.after[1]);
    push_pairs(dpp.before[0], dpp.before[1], changed, perspective, ksq, subs);
    push_pairs(dpp.after[0], dpp.after[1], changed, perspective, ksq, adds);
}

proof fn lemma_untouched(d: DirtyPawnPairs, white: u64, black: u64, p: Color, ksq: int, m: int)
    requires
        d.before@[0] == d.after@[0],
        d.before@[1] == d.after@[1],
    ensures
        pairs_upto(white, black, d.touched(), p, ksq, m) == Seq::<u32>::empty(),
    decreases m,
{
    if m > 0 {
        lemma_untouched(d, white, black, p, ksq, m - 1);
        lemma_untouched_from(d, white, black, p, ksq, m - 1, 64);
        assert(Seq::<u32>::empty() + Seq::<u32>::empty() =~= Seq::<u32>::empty());
    }
}

proof fn lemma_untouched_from(
    d: DirtyPawnPairs,
    white: u64,
    black: u64,
    p: Color,
    ksq: int,
    x: int,
    n: int,
)
    requires
        d.before@[0] == d.after@[0],
        d.before@[1] == d.after@[1],
    ensures
        pairs_from(white, black, d.touched(), p, ksq, x, n) == Seq::<u32>::empty(),
    decreases n,
{
    broadcast use bits::group_bits;

    if n > 0 {
        lemma_untouched_from(d, white, black, p, ksq, x, n - 1);
    }
}

proof fn lemma_pair_delta_from(
    d: DirtyPawnPairs,
    p: Color,
    ksq: int,
    x: int,
    n: int,
    f: spec_fn(int) -> int,
)
    requires
        0 <= x < 64,
        n <= 64,
    ensures
        ({
            let all = 0xffff_ffff_ffff_ffffu64;
            let (w0, b0) = (d.before@[0].0, d.before@[1].0);
            let (w1, b1) = (d.after@[0].0, d.after@[1].0);
            features::total(pairs_from(w1, b1, all, p, ksq, x, n), f) == features::total(
                pairs_from(w0, b0, all, p, ksq, x, n),
                f,
            ) + features::total(pairs_from(w1, b1, d.touched(), p, ksq, x, n), f) - features::total(
                pairs_from(w0, b0, d.touched(), p, ksq, x, n),
                f,
            )
        }),
    decreases n,
{
    broadcast use bits::group_bits;

    let all = 0xffff_ffff_ffff_ffffu64;
    let (w0, b0) = (d.before@[0].0, d.before@[1].0);
    let (w1, b1) = (d.after@[0].0, d.after@[1].0);
    if n > 0 {
        lemma_pair_delta_from(d, p, ksq, x, n - 1, f);
        let y = n - 1;
        let now = pair_of(p, pawn_color(b1, x), x, y, pawn_color(b1, y), ksq) as u32;
        let was = pair_of(p, pawn_color(b0, x), x, y, pawn_color(b0, y), ksq) as u32;
        features::lemma_total_push(pairs_from(w1, b1, all, p, ksq, x, n - 1), now, f);
        features::lemma_total_push(pairs_from(w1, b1, d.touched(), p, ksq, x, n - 1), now, f);
        features::lemma_total_push(pairs_from(w0, b0, all, p, ksq, x, n - 1), was, f);
        features::lemma_total_push(pairs_from(w0, b0, d.touched(), p, ksq, x, n - 1), was, f);
        assert(bits::bit(all, x) && bits::bit(all, y));
        if !bits::bit(d.touched(), x) && !bits::bit(d.touched(), y) {
            assert(bits::bit(w0, x) == bits::bit(w1, x) && bits::bit(b0, x) == bits::bit(b1, x));
            assert(bits::bit(w0, y) == bits::bit(w1, y) && bits::bit(b0, y) == bits::bit(b1, y));
        }
    }
}

proof fn lemma_pair_delta_upto(d: DirtyPawnPairs, p: Color, ksq: int, m: int, f: spec_fn(int) -> int)
    requires
        m <= 64,
    ensures
        ({
            let all = 0xffff_ffff_ffff_ffffu64;
            let (w0, b0) = (d.before@[0].0, d.before@[1].0);
            let (w1, b1) = (d.after@[0].0, d.after@[1].0);
            features::total(pairs_upto(w1, b1, all, p, ksq, m), f) == features::total(
                pairs_upto(w0, b0, all, p, ksq, m),
                f,
            ) + features::total(pairs_upto(w1, b1, d.touched(), p, ksq, m), f) - features::total(
                pairs_upto(w0, b0, d.touched(), p, ksq, m),
                f,
            )
        }),
    decreases m,
{
    if m > 0 {
        let all = 0xffff_ffff_ffff_ffffu64;
        let (w0, b0) = (d.before@[0].0, d.before@[1].0);
        let (w1, b1) = (d.after@[0].0, d.after@[1].0);
        let c = d.touched();
        lemma_pair_delta_upto(d, p, ksq, m - 1, f);
        lemma_pair_delta_from(d, p, ksq, m - 1, 64, f);
        features::lemma_total_add(
            pairs_upto(w1, b1, all, p, ksq, m - 1),
            pairs_from(w1, b1, all, p, ksq, m - 1, 64),
            f,
        );
        features::lemma_total_add(
            pairs_upto(w0, b0, all, p, ksq, m - 1),
            pairs_from(w0, b0, all, p, ksq, m - 1, 64),
            f,
        );
        features::lemma_total_add(
            pairs_upto(w1, b1, c, p, ksq, m - 1),
            pairs_from(w1, b1, c, p, ksq, m - 1, 64),
            f,
        );
        features::lemma_total_add(
            pairs_upto(w0, b0, c, p, ksq, m - 1),
            pairs_from(w0, b0, c, p, ksq, m - 1, 64),
            f,
        );
    }
}

/// What a pawn move adds and takes away carries the one pair set into the other, whatever
/// weight the features have.
pub proof fn law_pair_delta_is_the_difference(
    d: DirtyPawnPairs,
    p: Color,
    ksq: int,
    f: spec_fn(int) -> int,
)
    ensures
        features::total(pairs_of(d.after@[0].0, d.after@[1].0, p, ksq), f) == features::total(
            pairs_of(d.before@[0].0, d.before@[1].0, p, ksq),
            f,
        ) + features::total(
            pairs_upto(d.after@[0].0, d.after@[1].0, d.touched(), p, ksq, 64),
            f,
        ) - features::total(
            pairs_upto(d.before@[0].0, d.before@[1].0, d.touched(), p, ksq, 64),
            f,
        ),
{
    lemma_pair_delta_upto(d, p, ksq, 64, f);
}

} // verus!
