//! The threat features: ordered pairs of pieces where the first attacks the second.
//!
//! A threat is numbered by the attacker, by the class of what it attacks, and by the place of
//! its origin and destination among the attacks of that piece on an empty board. The occupancy
//! of a position decides which threats exist and never how one is numbered.

use vstd::prelude::*;
use crate::board::attacks::attacks_from;
use crate::board::attacks;
use crate::board::bitboard::Bitboard;
use crate::board::bits;
use crate::board::placement;
use crate::board::position::Position;
use crate::board::threats::{threatened_squares, DirtyThreat};
use crate::board::threats;
use crate::board::types::{Color, Piece, PieceType, Square};
use crate::eval::nnue::features::{orient, THREAT_DIMENSIONS};
use crate::eval::nnue::features;

verus! {

// ---------------------------------------------------------------------------
// The numbering
// ---------------------------------------------------------------------------

/// The piece with the given code.
pub open spec fn coded(i: int) -> Piece {
    choose|pc: Piece| #[trigger] pc.code() == i
}

/// The piece with its colour swapped.
pub open spec fn toggled(pc: Piece) -> Piece {
    coded((pc.code() + 8) % 16)
}

/// A piece as a perspective sees it: White's are its own.
pub open spec fn seen(p: Color, pc: Piece) -> Piece {
    if p == Color::Black {
        toggled(pc)
    } else {
        pc
    }
}

/// On an empty board `pc` on `f` attacks `t`.
pub open spec fn reaches(pc: Piece, f: int, t: int) -> bool {
    pc.is_real() && attacks::hits(pc.side(), pc.kind(), 0, f, t)
}

/// How many of the first `n` squares `pc` on `f` attacks on an empty board.
pub open spec fn reach(pc: Piece, f: int, n: int) -> int
    decreases n,
{
    if n <= 0 {
        0
    } else if reaches(pc, f, n - 1) {
        reach(pc, f, n - 1) + 1
    } else {
        reach(pc, f, n - 1)
    }
}

/// An origin has places of its own, except for a pawn on the first or last rank.
pub open spec fn is_origin(pc: Piece, f: int) -> bool {
    pc.kind() != PieceType::Pawn || 1 <= f / 8 <= 6
}

/// The places that the first `n` origins of `pc` take.
pub open spec fn places(pc: Piece, n: int) -> int
    decreases n,
{
    if n <= 0 {
        0
    } else if is_origin(pc, n - 1) {
        places(pc, n - 1) + reach(pc, n - 1, 64)
    } else {
        places(pc, n - 1)
    }
}

/// The place of the attack from `f` to `t` among all those of `pc`.
pub open spec fn place(pc: Piece, f: int, t: int) -> int {
    if pc.is_real() {
        places(pc, f) + reach(pc, f, t)
    } else {
        0
    }
}

/// How many classes of target an attacker of kind `pt` has.
pub open spec fn targets(pt: PieceType) -> int {
    match pt {
        PieceType::Pawn => 4,
        PieceType::Knight | PieceType::Queen => 10,
        PieceType::Bishop | PieceType::Rook => 8,
        _ => 0,
    }
}

/// The class of a target of kind `dt` for an attacker of kind `at`, or -1 for a pair that is
/// not encoded.
pub open spec fn class_of(at: PieceType, dt: PieceType) -> int {
    match at {
        PieceType::Pawn => match dt {
            PieceType::Knight => 0,
            PieceType::Rook => 1,
            _ => -1,
        },
        PieceType::Knight | PieceType::Queen => match dt {
            PieceType::Pawn | PieceType::Knight | PieceType::Bishop | PieceType::Rook
            | PieceType::Queen => dt.idx() - 1,
            _ => -1,
        },
        PieceType::Bishop | PieceType::Rook => match dt {
            PieceType::Pawn | PieceType::Knight | PieceType::Bishop | PieceType::Rook => dt.idx()
                - 1,
            _ => -1,
        },
        _ => -1,
    }
}

/// Where the block of the attacker with code `n` starts.
pub open spec fn block_start(n: int) -> int
    decreases n,
{
    if n <= 0 {
        0
    } else {
        block_start(n - 1) + targets(coded(n - 1).kind()) * places(coded(n - 1), 64)
    }
}

/// Where a pair of pieces starts within the set. A pair of one kind is recorded from the
/// higher square only; what is not encoded starts behind the set.
pub open spec fn class_base(a: Piece, d: Piece, forward: bool) -> int {
    let class = class_of(a.kind(), d.kind());
    if !a.is_real() || !d.is_real() {
        0
    } else if class < 0 || (forward && a.kind() == d.kind()) {
        THREAT_DIMENSIONS as int
    } else {
        block_start(a.code()) + (d.side().idx() * (targets(a.kind()) / 2) + class) * places(a, 64)
    }
}

/// The feature of `attacker` on `from` attacking `attacked` on `to`, seen by `p` with its king
/// on `ksq`.
#[verifier::opaque]
pub open spec fn threat_of(
    p: Color,
    attacker: Piece,
    from: int,
    to: int,
    attacked: Piece,
    ksq: int,
) -> int {
    let f = features::oriented(from, features::threat_mirrors(ksq), p == Color::Black);
    let t = features::oriented(to, features::threat_mirrors(ksq), p == Color::Black);
    class_base(seen(p, attacker), seen(p, attacked), f < t) + place(seen(p, attacker), f, t)
}

pub proof fn lemma_coded(pc: Piece)
    ensures
        coded(pc.code()) == pc,
{
    assert(coded(pc.code()).code() == pc.code());
}

pub proof fn lemma_reach(pc: Piece, f: int, n: int)
    ensures
        0 <= reach(pc, f, n),
        n >= 0 ==> reach(pc, f, n) <= n,
    decreases n,
{
    if n > 0 {
        lemma_reach(pc, f, n - 1);
    }
}

pub proof fn lemma_places(pc: Piece, n: int)
    ensures
        0 <= places(pc, n),
        n >= 0 ==> places(pc, n) <= 64 * n,
    decreases n,
{
    if n > 0 {
        lemma_places(pc, n - 1);
        lemma_reach(pc, n - 1, 64);
    }
}

proof fn lemma_block_start(n: int)
    ensures
        0 <= block_start(n),
        n >= 0 ==> block_start(n) <= 40960 * n,
    decreases n,
{
    if n > 0 {
        lemma_block_start(n - 1);
        lemma_places(coded(n - 1), 64);
        let k = targets(coded(n - 1).kind());
        let u = places(coded(n - 1), 64);
        assert(0 <= k * u <= 40960) by (nonlinear_arith)
            requires
                0 <= k <= 10,
                0 <= u <= 4096,
        ;
    }
}

proof fn lemma_class_base(a: Piece, d: Piece, forward: bool)
    ensures
        0 <= class_base(a, d, forward) <= 700000,
{
    if a.is_real() && d.is_real() && class_of(a.kind(), d.kind()) >= 0 {
        lemma_block_start(a.code());
        lemma_places(a, 64);
        let k = d.side().idx() * (targets(a.kind()) / 2) + class_of(a.kind(), d.kind());
        let u = places(a, 64);
        assert(0 <= k <= 10) by {
            assert(d.side().idx() == 0 || d.side().idx() == 1);
        }
        assert(0 <= k * u <= 40960) by (nonlinear_arith)
            requires
                0 <= k <= 10,
                0 <= u <= 4096,
        ;
    }
}

pub proof fn lemma_threat_of(
    p: Color,
    attacker: Piece,
    from: int,
    to: int,
    attacked: Piece,
    ksq: int,
)
    ensures
        0 <= threat_of(p, attacker, from, to, attacked, ksq),
{
    reveal(threat_of);
    let f = features::oriented(from, features::threat_mirrors(ksq), p == Color::Black);
    let t = features::oriented(to, features::threat_mirrors(ksq), p == Color::Black);
    lemma_class_base(seen(p, attacker), seen(p, attacked), f < t);
    lemma_places(seen(p, attacker), f);
    lemma_reach(seen(p, attacker), f, t);
}

/// The attacks of `pc` on an empty board.
fn pseudo_attacks(pc: Piece, from: Square) -> (r: Bitboard)
    ensures
        forall|t: int| #[trigger] r.has(t) == (0 <= t < 64 && reaches(pc, from.idx(), t)),
{
    broadcast use bits::group_bits;

    let pt = pc.piece_type();
    if pt == PieceType::NoType {
        return Bitboard::empty();
    }
    let empty = Bitboard::empty();
    let r = attacks_from(pc.color(), pt, from, empty);
    assert forall|t: int| #[trigger] r.has(t) == (0 <= t < 64 && reaches(pc, from.idx(), t)) by {
        assert(empty.0 == 0);
    }
    r
}

/// The number of classes of target.
fn class_count(pt: PieceType) -> (r: u32)
    ensures
        r == targets(pt),
{
    match pt {
        PieceType::Pawn => 4,
        PieceType::Knight | PieceType::Queen => 10,
        PieceType::Bishop | PieceType::Rook => 8,
        _ => 0,
    }
}

/// The class of a target, or `None` for a pair that is not encoded.
fn class_index(at: PieceType, dt: PieceType) -> (r: Option<u32>)
    ensures
        match r {
            Some(c) => c == class_of(at, dt),
            None => class_of(at, dt) == -1,
        },
{
    let ordinary = match dt {
        PieceType::Pawn | PieceType::Knight | PieceType::Bishop | PieceType::Rook => true,
        _ => false,
    };
    match at {
        PieceType::Pawn => match dt {
            PieceType::Knight => Some(0),
            PieceType::Rook => Some(1),
            _ => None,
        },
        PieceType::Knight | PieceType::Queen => if ordinary || dt == PieceType::Queen {
            Some(dt.index() as u32 - 1)
        } else {
            None
        },
        PieceType::Bishop | PieceType::Rook => if ordinary {
            Some(dt.index() as u32 - 1)
        } else {
            None
        },
        _ => None,
    }
}

// ---------------------------------------------------------------------------
// The tables
// ---------------------------------------------------------------------------

/// What a threat index reads: the place of every attack, and where every pair of pieces starts.
#[derive(Debug)]
pub struct ThreatTables {
    /// By attacker, origin and destination.
    slots: Vec<u16>,
    /// By attacker, attacked piece, and whether the attack runs to a higher square.
    bases: Vec<u32>,
}

impl ThreatTables {
    /// The tables hold the numbering.
    pub closed spec fn wf(&self) -> bool {
        &&& self.slots@.len() == 65536
        &&& forall|j: int|
            0 <= j < 65536 ==> #[trigger] self.slots@[j] == place(
                coded(j / 4096),
                (j / 64) % 64,
                j % 64,
            )
        &&& self.bases@.len() == 512
        &&& forall|j: int|
            0 <= j < 512 ==> #[trigger] self.bases@[j] == class_base(
                coded(j / 32),
                coded((j / 2) % 16),
                j % 2 == 1,
            )
    }

    /// Append the places of the attacks of `pc` from `from`, behind those of the earlier
    /// origins.
    fn fill_origin(pc: Piece, from: Square, used: u32, slots: &mut Vec<u16>) -> (r: u32)
        requires
            used == places(pc, from.idx()),
            old(slots)@.len() <= 65472,
        ensures
            r == places(pc, from.idx() + 1),
            final(slots)@.len() == old(slots)@.len() + 64,
            forall|j: int|
                0 <= j < old(slots)@.len() ==> #[trigger] final(slots)@[j] == old(slots)@[j],
            forall|t: int|
                0 <= t < 64 ==> #[trigger] final(slots)@[old(slots)@.len() + t] == place(
                    pc,
                    from.idx(),
                    t,
                ),
    {
        broadcast use Square::lemma_idx;

        let attacks = pseudo_attacks(pc, from);
        let named = pc.piece_type() != PieceType::NoType;
        let ghost start = slots@;
        let mut rank: u32 = 0;
        let mut i: usize = 0;
        proof {
            lemma_places(pc, from.idx());
        }
        while i < 64
            invariant
                i <= 64,
                named == pc.is_real(),
                used == places(pc, from.idx()),
                used <= 4096,
                rank == reach(pc, from.idx(), i as int),
                rank <= i,
                forall|t: int|
                    #[trigger] attacks.has(t) == (0 <= t < 64 && reaches(pc, from.idx(), t)),
                slots@.len() == start.len() + i,
                start.len() <= 65472,
                forall|j: int| 0 <= j < start.len() ==> #[trigger] slots@[j] == start[j],
                forall|t: int|
                    0 <= t < i ==> #[trigger] slots@[start.len() + t] == place(pc, from.idx(), t),
            decreases 64 - i,
        {
            if named {
                slots.push((used + rank) as u16);
            } else {
                slots.push(0);
            }
            if attacks.contains(Square::new(i)) {
                rank += 1;
            }
            i += 1;
        }
        let counts = pc.piece_type() != PieceType::Pawn || (from.index() >= 8 && from.index() < 56);
        if counts {
            used + rank
        } else {
            used
        }
    }

    /// Append the places of every attack of `pc`; how many there are.
    fn fill_attacker(pc: Piece, slots: &mut Vec<u16>) -> (r: u32)
        requires
            old(slots)@.len() <= 61440,
        ensures
            r == places(pc, 64),
            final(slots)@.len() == old(slots)@.len() + 4096,
            forall|j: int|
                0 <= j < old(slots)@.len() ==> #[trigger] final(slots)@[j] == old(slots)@[j],
            forall|j: int|
                0 <= j < 4096 ==> #[trigger] final(slots)@[old(slots)@.len() + j] == place(
                    pc,
                    j / 64,
                    j % 64,
                ),
    {
        let ghost start = slots@;
        let mut used: u32 = 0;
        let mut f: usize = 0;
        while f < 64
            invariant
                f <= 64,
                used == places(pc, f as int),
                start.len() <= 61440,
                slots@.len() == start.len() + 64 * f,
                forall|j: int| 0 <= j < start.len() ==> #[trigger] slots@[j] == start[j],
                forall|j: int|
                    0 <= j < 64 * f ==> #[trigger] slots@[start.len() + j] == place(
                        pc,
                        j / 64,
                        j % 64,
                    ),
            decreases 64 - f,
        {
            broadcast use Square::lemma_idx;

            let ghost before = slots@;
            used = ThreatTables::fill_origin(pc, Square::new(f), used, slots);
            proof {
                assert forall|j: int| 0 <= j < 64 * (f + 1) implies #[trigger] slots@[start.len()
                    + j] == place(pc, j / 64, j % 64) by {
                    if j < 64 * f {
                        assert(slots@[start.len() + j] == before[start.len() + j]);
                    } else {
                        let t = j - 64 * f;
                        assert(slots@[before.len() + t] == place(pc, f as int, t));
                        assert(j / 64 == f && j % 64 == t);
                        assert(before.len() + t == start.len() + j);
                    }
                }
                assert forall|j: int| 0 <= j < start.len() implies #[trigger] slots@[j]
                    == start[j] by {
                    assert(slots@[j] == before[j]);
                }
            }
            f += 1;
        }
        used
    }

    /// Where a pair of pieces starts.
    fn base(a: Piece, d: Piece, forward: bool, start: u32, count: u32) -> (r: u32)
        requires
            start == block_start(a.code()),
            count == places(a, 64),
        ensures
            r == class_base(a, d, forward),
    {
        let at = a.piece_type();
        let dt = d.piece_type();
        proof {
            lemma_class_base(a, d, forward);
            lemma_class_base(a, d, false);
            lemma_places(a, 64);
        }
        if at == PieceType::NoType || dt == PieceType::NoType {
            return 0;
        }
        if forward && at == dt {
            return THREAT_DIMENSIONS;
        }
        match class_index(at, dt) {
            None => THREAT_DIMENSIONS,
            Some(class) => {
                let half: u32 = class_count(at) / 2;
                let k: u32 = if d.color() == Color::White {
                    class
                } else {
                    half + class
                };
                assert(k == d.side().idx() * (targets(a.kind()) / 2) + class_of(
                    a.kind(),
                    d.kind(),
                ));
                assert(0 <= k * count <= 40960) by (nonlinear_arith)
                    requires
                        0 <= k <= 10,
                        0 <= count <= 4096,
                ;
                start + k * count
            },
        }
    }

    /// The place of an attack.
    fn slot(&self, a: Piece, f: usize, t: usize) -> (r: u32)
        requires
            self.wf(),
            f < 64,
            t < 64,
        ensures
            r == place(a, f as int, t as int),
            r <= 4160,
    {
        let at: usize = (a.index() * 64 + f) * 64 + t;
        proof {
            lemma_coded(a);
            lemma_places(a, f as int);
            lemma_reach(a, f as int, t as int);
            assert(at / 4096 == a.code() && (at / 64) % 64 == f && at % 64 == t);
        }
        self.slots[at] as u32
    }

    /// Where a pair of pieces starts.
    fn start(&self, a: Piece, d: Piece, forward: bool) -> (r: u32)
        requires
            self.wf(),
        ensures
            r == class_base(a, d, forward),
            r <= 700000,
    {
        let row: usize = (a.index() * 16 + d.index()) * 2;
        proof {
            lemma_coded(a);
            lemma_coded(d);
            lemma_class_base(a, d, forward);
            assert(row / 32 == a.code() && (row / 2) % 16 == d.code() && row % 2 == 0);
            assert((row + 1) / 32 == a.code() && ((row + 1) / 2) % 16 == d.code() && (row + 1) % 2
                == 1);
        }
        if forward {
            self.bases[row + 1]
        } else {
            self.bases[row]
        }
    }

    /// The tables.
    #[verifier::rlimit(40)]
    pub fn build() -> (r: ThreatTables)
        ensures
            r.wf(),
    {
        let mut slots: Vec<u16> = Vec::new();
        let mut counts: Vec<u32> = Vec::new();
        let mut starts: Vec<u32> = Vec::new();
        let mut cumulative: u32 = 0;
        let mut c: usize = 0;
        while c < 16
            invariant
                c <= 16,
                cumulative == block_start(c as int),
                counts@.len() == c,
                starts@.len() == c,
                forall|i: int| 0 <= i < c ==> #[trigger] counts@[i] == places(coded(i), 64),
                forall|i: int| 0 <= i < c ==> #[trigger] starts@[i] == block_start(i),
                slots@.len() == 4096 * c,
                forall|j: int|
                    0 <= j < 4096 * c ==> #[trigger] slots@[j] == place(
                        coded(j / 4096),
                        (j / 64) % 64,
                        j % 64,
                    ),
            decreases 16 - c,
        {
            let pc = Piece::from_raw(c as u8);
            let ghost before = slots@;
            proof {
                lemma_coded(pc);
                lemma_block_start(c as int);
                lemma_block_start(c as int + 1);
                lemma_places(pc, 64);
            }
            let count = ThreatTables::fill_attacker(pc, &mut slots);
            counts.push(count);
            starts.push(cumulative);
            let kinds: u32 = class_count(pc.piece_type());
            assert(0 <= kinds * count <= 40960) by (nonlinear_arith)
                requires
                    0 <= kinds <= 10,
                    0 <= count <= 4096,
            ;
            cumulative = cumulative + kinds * count;
            proof {
                lemma_slots_grow(before, slots@, pc, c as int);
            }
            c += 1;
        }
        let mut bases: Vec<u32> = Vec::new();
        let mut n: usize = 0;
        while n < 512
            invariant
                n <= 512,
                counts@.len() == 16,
                starts@.len() == 16,
                forall|i: int| 0 <= i < 16 ==> #[trigger] counts@[i] == places(coded(i), 64),
                forall|i: int| 0 <= i < 16 ==> #[trigger] starts@[i] == block_start(i),
                bases@.len() == n,
                forall|j: int|
                    0 <= j < n ==> #[trigger] bases@[j] == class_base(
                        coded(j / 32),
                        coded((j / 2) % 16),
                        j % 2 == 1,
                    ),
            decreases 512 - n,
        {
            let a = Piece::from_raw((n / 32) as u8);
            let d = Piece::from_raw(((n / 2) % 16) as u8);
            proof {
                lemma_coded(a);
                lemma_coded(d);
            }
            bases.push(ThreatTables::base(a, d, n % 2 == 1, starts[n / 32], counts[n / 32]));
            n += 1;
        }
        ThreatTables { slots, bases }
    }
}

/// One more attacker's places continue the table.
proof fn lemma_slots_grow(before: Seq<u16>, slots: Seq<u16>, pc: Piece, c: int)
    requires
        0 <= c < 16,
        pc == coded(c),
        before.len() == 4096 * c,
        slots.len() == 4096 * (c + 1),
        forall|j: int| 0 <= j < 4096 * c ==> #[trigger] slots[j] == before[j],
        forall|k: int|
            0 <= k < 4096 ==> #[trigger] slots[before.len() + k] == place(pc, k / 64, k % 64),
        forall|j: int|
            0 <= j < 4096 * c ==> #[trigger] before[j] == place(
                coded(j / 4096),
                (j / 64) % 64,
                j % 64,
            ),
    ensures
        forall|j: int|
            0 <= j < 4096 * (c + 1) ==> #[trigger] slots[j] == place(
                coded(j / 4096),
                (j / 64) % 64,
                j % 64,
            ),
{
    assert forall|j: int| 0 <= j < 4096 * (c + 1) implies #[trigger] slots[j] == place(
        coded(j / 4096),
        (j / 64) % 64,
        j % 64,
    ) by {
        if j < 4096 * c {
            assert(slots[j] == before[j]);
        } else {
            let k = j - 4096 * c;
            assert(slots[before.len() + k] == place(pc, k / 64, k % 64));
            assert(j / 4096 == c && (j / 64) % 64 == k / 64 && j % 64 == k % 64);
        }
    }
}

/// A piece as a perspective sees it.
fn see(p: Color, pc: Piece) -> (r: Piece)
    ensures
        r == seen(p, pc),
{
    match p {
        Color::White => pc,
        Color::Black => {
            let r = Piece::from_raw((pc.raw() + 8) % 16);
            proof {
                lemma_coded(r);
            }
            r
        },
    }
}

/// The feature index for `attacker` on `from` attacking `attacked` on `to`. A pair that is not
/// encoded gives a value of at least `THREAT_DIMENSIONS`, which callers drop.
pub fn threat_index(
    tables: &ThreatTables,
    perspective: Color,
    attacker: Piece,
    from: Square,
    to: Square,
    attacked: Piece,
    ksq: Square,
) -> (r: u32)
    requires
        tables.wf(),
    ensures
        r == threat_of(perspective, attacker, from.idx(), to.idx(), attacked, ksq.idx()),
{
    broadcast use Square::lemma_idx;

    proof {
        reveal(threat_of);
    }
    let mirror = ksq.index() % 8 >= 4;
    let black = perspective == Color::Black;
    let f = orient(from, mirror, black).index();
    let t = orient(to, mirror, black).index();
    let a = see(perspective, attacker);
    let d = see(perspective, attacked);
    tables.start(a, d, f < t) + tables.slot(a, f, t)
}

// ---------------------------------------------------------------------------
// The active set
// ---------------------------------------------------------------------------

/// The man on `x` threatens the man on `y`.
pub open spec fn active(b: Seq<Piece>, x: int, y: int) -> bool {
    &&& b[x].is_real()
    &&& b[x].kind() != PieceType::King
    &&& threats::threatens(b, b[x], x, y)
}

/// The threat from `x` to `y` is a feature for `p`.
pub open spec fn recorded(b: Seq<Piece>, p: Color, ksq: int, x: int, y: int) -> bool {
    active(b, x, y) && threat_of(p, b[x], x, y, b[y], ksq) < THREAT_DIMENSIONS
}

/// The features of the threats from `x` to the first `n` squares.
pub open spec fn threats_from(b: Seq<Piece>, p: Color, ksq: int, x: int, n: int) -> Seq<u32>
    decreases n,
{
    if n <= 0 {
        Seq::empty()
    } else if recorded(b, p, ksq, x, n - 1) {
        threats_from(b, p, ksq, x, n - 1).push(threat_of(p, b[x], x, n - 1, b[n - 1], ksq) as u32)
    } else {
        threats_from(b, p, ksq, x, n - 1)
    }
}

/// The features of the threats from the first `m` squares, ordered by origin and by destination.
pub open spec fn threats_upto(b: Seq<Piece>, p: Color, ksq: int, m: int) -> Seq<u32>
    decreases m,
{
    if m <= 0 {
        Seq::empty()
    } else {
        threats_upto(b, p, ksq, m - 1) + threats_from(b, p, ksq, m - 1, 64)
    }
}

/// Append the features of the threats from one square.
fn push_threats_from(
    tables: &ThreatTables,
    pos: &Position,
    perspective: Color,
    ksq: Square,
    from: Square,
    out: &mut Vec<u32>,
)
    requires
        tables.wf(),
        pos.sound(),
    ensures
        final(out)@ == old(out)@ + threats_from(
            pos.board@,
            perspective,
            ksq.idx(),
            from.idx(),
            64,
        ),
{
    broadcast use {Square::lemma_idx, bits::group_bits};

    let ghost b = pos.board@;
    let ghost start = out@;
    let pc = pos.piece_on(from);
    let pt = pc.piece_type();
    let targets = if pt == PieceType::NoType || pt == PieceType::King {
        Bitboard::empty()
    } else {
        threatened_squares(&pos.board, pc, from)
    };
    assert forall|t: int| #[trigger] targets.has(t) == (0 <= t < 64 && active(b, from.idx(), t)) by {
    }
    let mut i: usize = 0;
    assert(start + threats_from(b, perspective, ksq.idx(), from.idx(), 0) =~= start);
    while i < 64
        invariant
            i <= 64,
            tables.wf(),
            pos.sound(),
            b == pos.board@,
            pc == b[from.idx()],
            forall|t: int|
                #[trigger] targets.has(t) == (0 <= t < 64 && active(b, from.idx(), t)),
            out@ == start + threats_from(b, perspective, ksq.idx(), from.idx(), i as int),
        decreases 64 - i,
    {
        let to = Square::new(i);
        if targets.contains(to) {
            let index = threat_index(tables, perspective, pc, from, to, pos.piece_on(to), ksq);
            if index < THREAT_DIMENSIONS {
                out.push(index);
            }
        }
        i += 1;
        assert(out@ =~= start + threats_from(b, perspective, ksq.idx(), from.idx(), i as int));
    }
}

/// Append every active threat feature of one perspective. The order carries no meaning.
pub fn threat_active(tables: &ThreatTables, pos: &Position, perspective: Color, out: &mut Vec<u32>)
    requires
        tables.wf(),
        pos.wf(),
    ensures
        final(out)@ == old(out)@ + threats_upto(
            pos.board@,
            perspective,
            placement::king(pos.board@, perspective),
            64,
        ),
{
    let ghost b = pos.board@;
    let ghost start = out@;
    let ksq = pos.king_square(perspective);
    let mut i: usize = 0;
    assert(start + threats_upto(b, perspective, ksq.idx(), 0) =~= start);
    while i < 64
        invariant
            i <= 64,
            tables.wf(),
            pos.wf(),
            b == pos.board@,
            out@ == start + threats_upto(b, perspective, ksq.idx(), i as int),
        decreases 64 - i,
    {
        broadcast use Square::lemma_idx;

        push_threats_from(tables, pos, perspective, ksq, Square::new(i), out);
        i += 1;
        assert(out@ =~= start + threats_upto(b, perspective, ksq.idx(), i as int));
    }
}

// ---------------------------------------------------------------------------
// The difference that a move makes
// ---------------------------------------------------------------------------

/// The feature of a recorded change.
pub open spec fn change_of(d: DirtyThreat, p: Color, ksq: int) -> int {
    threat_of(p, d.aggressor(), d.src(), d.dst(), d.victim(), ksq)
}

/// The features of the first `n` changes that add, or of those that take away.
pub open spec fn changes_upto(dts: Seq<DirtyThreat>, p: Color, ksq: int, add: bool, n: int) -> Seq<
    u32,
>
    decreases n,
{
    if n <= 0 {
        Seq::empty()
    } else if dts[n - 1].adds() == add && change_of(dts[n - 1], p, ksq) < THREAT_DIMENSIONS {
        changes_upto(dts, p, ksq, add, n - 1).push(change_of(dts[n - 1], p, ksq) as u32)
    } else {
        changes_upto(dts, p, ksq, add, n - 1)
    }
}

/// The threat features that recorded changes add and take away. A feature that goes and comes
/// back is in both lists, where its two weights cancel.
pub fn threat_delta(
    tables: &ThreatTables,
    dts: &[DirtyThreat],
    perspective: Color,
    ksq: Square,
    adds: &mut Vec<u32>,
    subs: &mut Vec<u32>,
)
    requires
        tables.wf(),
    ensures
        final(adds)@ == old(adds)@ + changes_upto(
            dts@,
            perspective,
            ksq.idx(),
            true,
            dts@.len() as int,
        ),
        final(subs)@ == old(subs)@ + changes_upto(
            dts@,
            perspective,
            ksq.idx(),
            false,
            dts@.len() as int,
        ),
{
    let ghost adds0 = adds@;
    let ghost subs0 = subs@;
    let mut i: usize = 0;
    assert(adds0 + changes_upto(dts@, perspective, ksq.idx(), true, 0) =~= adds0);
    assert(subs0 + changes_upto(dts@, perspective, ksq.idx(), false, 0) =~= subs0);
    while i < dts.len()
        invariant
            i <= dts@.len(),
            tables.wf(),
            adds@ == adds0 + changes_upto(dts@, perspective, ksq.idx(), true, i as int),
            subs@ == subs0 + changes_upto(dts@, perspective, ksq.idx(), false, i as int),
        decreases dts@.len() - i,
    {
        let d = dts[i];
        let index = threat_index(
            tables,
            perspective,
            d.attacker(),
            d.from(),
            d.to(),
            d.attacked(),
            ksq,
        );
        if index < THREAT_DIMENSIONS {
            if d.is_add() {
                adds.push(index);
            } else {
                subs.push(index);
            }
        }
        i += 1;
        assert(adds@ =~= adds0 + changes_upto(dts@, perspective, ksq.idx(), true, i as int));
        assert(subs@ =~= subs0 + changes_upto(dts@, perspective, ksq.idx(), false, i as int));
    }
}

} // verus!
