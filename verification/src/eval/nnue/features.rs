//! The three feature sets that the network reads.
//!
//! A feature is an index into the transformer's weight tables; the network sees a position only
//! as the set of indices that are active. The king-piece set pairs the own king's square with
//! every piece. The threat set holds the ordered pairs of pieces where the first attacks the
//! second. The pawn-pair set holds the pairs of pawns within one file of each other. Threats and
//! pawn pairs share one weight table, the pawn pairs behind the threats.

use vstd::prelude::*;
use crate::board::attacks;
use crate::board::placement;
use crate::board::position::Position;
use crate::board::threats;
use crate::board::types::{Color, Piece, PieceType, Square};

verus! {

/// Distinct piece-on-square slots: ten coloured piece kinds and one for kings.
pub const PS_NB: u32 = 704;

/// Feature count of the king-piece set.
pub const HALFKA_DIMENSIONS: usize = 22528;

/// Feature count of the threat set.
pub const THREAT_DIMENSIONS: u32 = 59808;

/// Distinct pawn slots: 48 squares per colour.
pub const PAWN_IDS: u32 = 96;

/// Feature count of the pawn-pair set: every unordered pair of pawn slots.
pub const PP_DIMENSIONS: u32 = 4560;

/// Where the pawn pairs start in the shared weight table.
pub const PP_INDEX_BASE: u32 = 59808;

/// The threat and pawn-pair sets together.
pub const THREAT_AND_PP_DIMENSIONS: usize = 64368;

// ---------------------------------------------------------------------------
// Orientation
// ---------------------------------------------------------------------------

/// A square with its file mirrored, its rank mirrored, or both.
pub open spec fn oriented(s: int, files: bool, ranks: bool) -> int {
    let f = s % 8;
    let r = s / 8;
    8 * (if ranks {
        7 - r
    } else {
        r
    }) + (if files {
        7 - f
    } else {
        f
    })
}

/// The king-piece set mirrors the board for a king on the a to d files.
pub open spec fn halfka_mirrors(ksq: int) -> bool {
    ksq % 8 < 4
}

/// The threat and pawn-pair sets mirror it for a king on the e to h files.
pub open spec fn threat_mirrors(ksq: int) -> bool {
    ksq % 8 >= 4
}

/// The two orientations are opposites.
pub proof fn law_orientations_are_opposites(ksq: int)
    ensures
        halfka_mirrors(ksq) != threat_mirrors(ksq),
{
}

/// The square with its file mirrored, its rank mirrored, or both.
pub fn orient(s: Square, files: bool, ranks: bool) -> (r: Square)
    ensures
        r.idx() == oriented(s.idx(), files, ranks),
{
    broadcast use Square::lemma_idx;

    let a = if files {
        s.flip_file()
    } else {
        s
    };
    if ranks {
        a.flip_rank()
    } else {
        a
    }
}

/// The file mirror of the king-piece numbering for a king square: 0, or 7 for the a to d files.
pub fn halfka_mirror(ksq: Square) -> (r: u8)
    ensures
        r == (if halfka_mirrors(ksq.idx()) {
            7int
        } else {
            0int
        }),
{
    if ksq.index() % 8 < 4 {
        7
    } else {
        0
    }
}

/// The file mirror of the threat and pawn-pair numbering for a king square: 0, or 7 for the
/// e to h files. A king move that stays in one half changes no index.
pub fn threat_mirror(ksq: Square) -> (r: u8)
    ensures
        r == (if threat_mirrors(ksq.idx()) {
            7int
        } else {
            0int
        }),
{
    if ksq.index() % 8 < 4 {
        0
    } else {
        7
    }
}

// ---------------------------------------------------------------------------
// King and piece
// ---------------------------------------------------------------------------

/// Where a piece's squares start, seen by a perspective: own pieces before the enemy's, kind
/// by kind, and one block for both kings.
pub open spec fn piece_base(p: Color, pc: Piece) -> int {
    if !pc.is_real() {
        0
    } else if pc.kind() == PieceType::King {
        640
    } else {
        128 * (pc.kind().idx() - 1) + (if pc.side() == p {
            0int
        } else {
            64int
        })
    }
}

/// The bucket of a king square as its own side sees it: the square within the half board.
pub open spec fn king_bucket(ksq: int) -> int {
    let f = ksq % 8;
    28 - 4 * (ksq / 8) + (if f < 4 {
        f
    } else {
        7 - f
    })
}

/// The feature of `pc` on `s`, seen by `p` with its king on `ksq`.
pub open spec fn halfka_of(p: Color, s: int, pc: Piece, ksq: int) -> int {
    oriented(s, halfka_mirrors(ksq), p == Color::Black) + piece_base(p, pc) + 704 * king_bucket(
        oriented(ksq, false, p == Color::Black),
    )
}

/// Every king-piece feature is in range.
pub proof fn law_halfka_in_range(p: Color, s: int, pc: Piece, ksq: int)
    requires
        0 <= s < 64,
        0 <= ksq < 64,
    ensures
        0 <= halfka_of(p, s, pc, ksq) < HALFKA_DIMENSIONS,
{
}

/// Where a piece's squares start.
fn base_of(perspective: Color, pc: Piece) -> (r: u32)
    ensures
        r == piece_base(perspective, pc),
        r <= 640,
{
    let pt = pc.piece_type();
    match pt {
        PieceType::NoType => 0,
        PieceType::King => 640,
        _ => {
            let kinds: u32 = 128 * (pt.index() as u32 - 1);
            if pc.color() == perspective {
                kinds
            } else {
                kinds + 64
            }
        },
    }
}

/// The bucket of a king square.
fn bucket_of(k: Square) -> (r: u32)
    ensures
        r == king_bucket(k.idx()),
        r < 32,
{
    broadcast use Square::lemma_idx;

    let file: u32 = (k.index() % 8) as u32;
    let rank: u32 = (k.index() / 8) as u32;
    if file < 4 {
        28 - 4 * rank + file
    } else {
        28 - 4 * rank + (7 - file)
    }
}

/// The feature index for `pc` on `s`, seen by `perspective` with its king on `ksq`.
pub fn halfka_index(perspective: Color, s: Square, pc: Piece, ksq: Square) -> (r: u32)
    ensures
        r == halfka_of(perspective, s.idx(), pc, ksq.idx()),
        r < HALFKA_DIMENSIONS,
{
    let black = perspective == Color::Black;
    let place: u32 = orient(s, ksq.index() % 8 < 4, black).index() as u32;
    let base: u32 = base_of(perspective, pc);
    let bucket: u32 = bucket_of(orient(ksq, false, black));
    place + base + PS_NB * bucket
}

/// The king-piece features of the first `n` squares.
pub open spec fn halfka_upto(b: Seq<Piece>, p: Color, ksq: int, n: int) -> Seq<u32>
    decreases n,
{
    if n <= 0 {
        Seq::empty()
    } else if b[n - 1] != Piece::NONE {
        halfka_upto(b, p, ksq, n - 1).push(halfka_of(p, n - 1, b[n - 1], ksq) as u32)
    } else {
        halfka_upto(b, p, ksq, n - 1)
    }
}

/// The features of the first `n` squares that `now` has and `was` has not, each where the two
/// placements differ.
pub open spec fn halfka_new(was: Seq<Piece>, now: Seq<Piece>, p: Color, ksq: int, n: int) -> Seq<u32>
    decreases n,
{
    if n <= 0 {
        Seq::empty()
    } else if was[n - 1] != now[n - 1] && now[n - 1] != Piece::NONE {
        halfka_new(was, now, p, ksq, n - 1).push(halfka_of(p, n - 1, now[n - 1], ksq) as u32)
    } else {
        halfka_new(was, now, p, ksq, n - 1)
    }
}

/// The king-piece features that differ between two placements, for a king on the same square
/// in both: what to add, and what to take away.
pub fn halfka_delta(
    was: &[Piece; 64],
    now: &[Piece; 64],
    perspective: Color,
    ksq: Square,
    adds: &mut Vec<u32>,
    subs: &mut Vec<u32>,
)
    ensures
        final(adds)@ == old(adds)@ + halfka_new(was@, now@, perspective, ksq.idx(), 64),
        final(subs)@ == old(subs)@ + halfka_new(now@, was@, perspective, ksq.idx(), 64),
{
    broadcast use Square::lemma_idx;

    let ghost adds0 = adds@;
    let ghost subs0 = subs@;
    let mut i: usize = 0;
    assert(adds0 + halfka_new(was@, now@, perspective, ksq.idx(), 0) =~= adds0);
    assert(subs0 + halfka_new(now@, was@, perspective, ksq.idx(), 0) =~= subs0);
    while i < 64
        invariant
            i <= 64,
            adds@ == adds0 + halfka_new(was@, now@, perspective, ksq.idx(), i as int),
            subs@ == subs0 + halfka_new(now@, was@, perspective, ksq.idx(), i as int),
        decreases 64 - i,
    {
        let before = was[i];
        let after = now[i];
        if before != after {
            let sq = Square::new(i);
            if before != Piece::NONE {
                subs.push(halfka_index(perspective, sq, before, ksq));
            }
            if after != Piece::NONE {
                adds.push(halfka_index(perspective, sq, after, ksq));
            }
        }
        i += 1;
        assert(adds@ =~= adds0 + halfka_new(was@, now@, perspective, ksq.idx(), i as int));
        assert(subs@ =~= subs0 + halfka_new(now@, was@, perspective, ksq.idx(), i as int));
    }
}

/// Append every active king-piece feature of one perspective.
pub fn halfka_active(pos: &Position, perspective: Color, out: &mut Vec<u32>)
    requires
        pos.wf(),
    ensures
        final(out)@ == old(out)@ + halfka_upto(
            pos.board@,
            perspective,
            placement::king(pos.board@, perspective),
            64,
        ),
{
    broadcast use Square::lemma_idx;

    let ksq = pos.king_square(perspective);
    let ghost start = out@;
    let mut i: usize = 0;
    assert(start + halfka_upto(pos.board@, perspective, ksq.idx(), 0) =~= start);
    while i < 64
        invariant
            i <= 64,
            pos.wf(),
            out@ == start + halfka_upto(pos.board@, perspective, ksq.idx(), i as int),
        decreases 64 - i,
    {
        let sq = Square::new(i);
        let pc = pos.piece_on(sq);
        if pc != Piece::NONE {
            out.push(halfka_index(perspective, sq, pc, ksq));
        }
        i += 1;
        assert(out@ =~= start + halfka_upto(pos.board@, perspective, ksq.idx(), i as int));
    }
}

// ---------------------------------------------------------------------------
// Sums over features
// ---------------------------------------------------------------------------

/// The sum of a weight over a sequence of features.
pub open spec fn total(s: Seq<u32>, f: spec_fn(int) -> int) -> int
    decreases s.len(),
{
    if s.len() == 0 {
        0
    } else {
        total(s.drop_last(), f) + f(s.last() as int)
    }
}

pub proof fn lemma_total_push(s: Seq<u32>, x: u32, f: spec_fn(int) -> int)
    ensures
        total(s.push(x), f) == total(s, f) + f(x as int),
{
    assert(s.push(x).drop_last() =~= s);
}

pub proof fn lemma_total_add(a: Seq<u32>, b: Seq<u32>, f: spec_fn(int) -> int)
    ensures
        total(a + b, f) == total(a, f) + total(b, f),
    decreases b.len(),
{
    if b.len() == 0 {
        assert(a + b =~= a);
    } else {
        lemma_total_add(a, b.drop_last(), f);
        assert((a + b).drop_last() =~= a + b.drop_last());
    }
}

/// What a difference of placements adds and takes away carries the one feature set into the
/// other.
pub proof fn law_halfka_delta_is_the_difference(
    was: Seq<Piece>,
    now: Seq<Piece>,
    p: Color,
    ksq: int,
    n: int,
    f: spec_fn(int) -> int,
)
    requires
        0 <= n <= 64,
    ensures
        total(halfka_upto(now, p, ksq, n), f) == total(halfka_upto(was, p, ksq, n), f) + total(
            halfka_new(was, now, p, ksq, n),
            f,
        ) - total(halfka_new(now, was, p, ksq, n), f),
    decreases n,
{
    if n > 0 {
        law_halfka_delta_is_the_difference(was, now, p, ksq, n - 1, f);
        let a = halfka_of(p, n - 1, now[n - 1], ksq) as u32;
        let d = halfka_of(p, n - 1, was[n - 1], ksq) as u32;
        lemma_total_push(halfka_upto(now, p, ksq, n - 1), a, f);
        lemma_total_push(halfka_upto(was, p, ksq, n - 1), d, f);
        lemma_total_push(halfka_new(was, now, p, ksq, n - 1), a, f);
        lemma_total_push(halfka_new(now, was, p, ksq, n - 1), d, f);
    }
}

} // verus!
