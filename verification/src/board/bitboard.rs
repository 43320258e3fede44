//! The 64-bit board set and its geometry.
//!
//! A [`Bitboard`] is a set of squares, bit `i` standing for the square with index `i`.
//! Everything in this module is pure geometry: no position state, no attack set that
//! depends on occupancy. The occupancy-dependent slider attacks live in
//! [`crate::board::attacks`].

use vstd::prelude::*;
use std::ops::{BitAnd, BitOr, BitXor, Not};
use vstd::std_specs::ops::{BitAndSpecImpl, BitOrSpecImpl, BitXorSpecImpl, NotSpecImpl};
use crate::board::bits;
use crate::board::types::{Color, Direction, Square};

verus! {

/// A set of squares.
///
/// The operators are the set operations: `&` is intersection, `|` union, `^` symmetric
/// difference, `!` complement.
#[derive(Clone, Copy, Debug, PartialEq, Eq, PartialOrd, Ord, Hash, Structural)]
pub struct Bitboard(pub u64);

/// The word of the 32 light squares.
pub const LIGHT_SQUARES: u64 = 0x55AA_55AA_55AA_55AA;

/// The word of the 32 dark squares.
pub const DARK_SQUARES: u64 = 0xAA55_AA55_AA55_AA55;

/// The word of the a-file.
pub const FILE_A: u64 = 0x0101_0101_0101_0101;

/// The word of the h-file.
pub const FILE_H: u64 = 0x8080_8080_8080_8080;

/// The word of the first rank.
pub const RANK_1: u64 = 0xFF;

/// The word of the eighth rank.
pub const RANK_8: u64 = 0xFF00_0000_0000_0000;

impl Bitboard {
    /// The square with index `i` is a member.
    #[verifier::inline]
    pub open spec fn has(self, i: int) -> bool {
        bits::bit(self.0, i)
    }

    /// The indices of the members, ascending.
    #[verifier::inline]
    pub open spec fn members(self) -> Seq<int> {
        bits::members(self.0)
    }

    /// The empty set.
    #[inline(always)]
    pub fn empty() -> (r: Bitboard)
        ensures
            r == Bitboard(0),
    {
        Bitboard(0)
    }

    /// Every square.
    #[inline(always)]
    pub fn all() -> (r: Bitboard)
        ensures
            forall|i: int| #[trigger] r.has(i) == (0 <= i < 64),
    {
        broadcast use bits::group_bits;

        Bitboard(0xffff_ffff_ffff_ffff)
    }

    /// The singleton set holding `sq`.
    #[inline(always)]
    pub fn from_square(sq: Square) -> (r: Bitboard)
        ensures
            r.0 == 1u64 << (sq.idx() as u64),
            forall|i: int| #[trigger] r.has(i) == (i == sq.idx()),
    {
        broadcast use bits::group_bits;

        Bitboard(1u64 << (sq.index() as u64))
    }

    /// The word.
    #[inline(always)]
    pub fn bits(self) -> (r: u64)
        ensures
            r == self.0,
    {
        self.0
    }

    /// True when the set is empty.
    #[inline(always)]
    pub fn is_empty(self) -> (r: bool)
        ensures
            r == (self.0 == 0),
            r == (forall|i: int| !self.has(i)),
    {
        proof {
            bits::lemma_nonzero(self.0);
        }
        self.0 == 0
    }

    /// True when the set holds at least one square.
    #[inline(always)]
    pub fn any(self) -> (r: bool)
        ensures
            r == (self.0 != 0),
            r == (exists|i: int| self.has(i)),
    {
        proof {
            bits::lemma_nonzero(self.0);
        }
        self.0 != 0
    }

    /// True when `sq` is a member.
    #[inline(always)]
    pub fn contains(self, sq: Square) -> (r: bool)
        ensures
            r == self.has(sq.idx()),
    {
        proof {
            broadcast use bits::group_bits;

            broadcast use Square::lemma_idx;

            let one = 1u64 << (sq.idx() as u64);
            bits::lemma_nonzero(self.0 & one);
            if self.has(sq.idx()) {
                assert(bits::bit(self.0 & one, sq.idx()));
            } else {
                assert forall|i: int| !bits::bit(self.0 & one, i) by {}
            }
        }
        self.0 & (1u64 << (sq.index() as u64)) != 0
    }

    /// Add `sq` to the set.
    #[inline(always)]
    pub fn set(&mut self, sq: Square)
        ensures
            final(self).0 == old(self).0 | (1u64 << (sq.idx() as u64)),
            forall|i: int| #[trigger] final(self).has(i) == (old(self).has(i) || i == sq.idx()),
    {
        broadcast use bits::group_bits;

        self.0 = self.0 | (1u64 << (sq.index() as u64));
    }

    /// Remove `sq` from the set.
    #[inline(always)]
    pub fn clear(&mut self, sq: Square)
        ensures
            forall|i: int| #[trigger] final(self).has(i) == (old(self).has(i) && i != sq.idx()),
    {
        broadcast use bits::group_bits;

        self.0 = self.0 & !(1u64 << (sq.index() as u64));
    }

    /// Flip `sq`'s membership.
    #[inline(always)]
    pub fn toggle(&mut self, sq: Square)
        ensures
            final(self).0 == old(self).0 ^ (1u64 << (sq.idx() as u64)),
            forall|i: int| #[trigger]
                final(self).has(i) == (if i == sq.idx() { !old(self).has(i) } else { old(self).has(i) }),
    {
        broadcast use bits::group_bits;

        self.0 = self.0 ^ (1u64 << (sq.index() as u64));
    }

    /// The number of squares in the set.
    #[inline(always)]
    pub fn count(self) -> (r: u32)
        ensures
            r == self.members().len(),
            r <= 64,
    {
        let mut b = self;
        let mut n: u32 = 0;
        proof {
            bits::lemma_members(self.0);
        }
        while b.0 != 0
            invariant
                n + b.members().len() == self.members().len(),
                self.members().len() <= 64,
            decreases b.members().len(),
        {
            let _ = b.pop_lsb();
            n += 1;
        }
        proof {
            bits::lemma_members_empty(b.0);
        }
        n
    }

    /// True when the set holds exactly one square.
    #[inline(always)]
    pub fn exactly_one(self) -> (r: bool)
        ensures
            r == (self.members().len() == 1),
    {
        proof {
            bits::lemma_members_empty(self.0);
        }
        self.0 != 0 && !self.more_than_one()
    }

    /// True when the set holds two or more squares.
    #[inline(always)]
    pub fn more_than_one(self) -> (r: bool)
        ensures
            r == (self.members().len() >= 2),
            self.0 == 0 <==> self.members().len() == 0,
            r == (exists|i: int, j: int| i != j && self.has(i) && self.has(j)),
    {
        proof {
            bits::lemma_members(self.0);
            bits::lemma_members_empty(self.0);
            if self.0 != 0 {
                let t = vstd::std_specs::bits::u64_trailing_zeros(self.0) as int;
                let rest = self.0 & ((self.0 - 1) as u64);
                bits::lemma_lowest(self.0);
                bits::lemma_drop_lowest(self.0);
                bits::lemma_members_pop(self.0, rest, t);
                bits::lemma_members_empty(rest);
                if self.members().len() >= 2 {
                    assert(self.has(self.members()[0]) && self.has(self.members()[1]));
                }
            } else {
                broadcast use bits::lemma_bit_zero;

            }
            if exists|i: int, j: int| i != j && self.has(i) && self.has(j) {
                let (i, j) = choose|i: int, j: int| i != j && self.has(i) && self.has(j);
                let k = choose|k: int| 0 <= k < self.members().len() && self.members()[k] == i;
                let l = choose|l: int| 0 <= l < self.members().len() && self.members()[l] == j;
                assert(k != l);
            }
        }
        self.0 != 0 && self.0 & (self.0 - 1) != 0
    }

    /// The least significant member.
    #[inline(always)]
    pub fn lsb(self) -> (r: Square)
        requires
            self.0 != 0,
        ensures
            self.has(r.idx()),
            forall|j: int| #[trigger] self.has(j) ==> j >= r.idx(),
            self.members().len() > 0,
            r.idx() == self.members()[0],
            r.idx() == vstd::std_specs::bits::u64_trailing_zeros(self.0),
    {
        proof {
            bits::lemma_lowest(self.0);
            bits::lemma_drop_lowest(self.0);
            bits::lemma_members_pop(
                self.0,
                self.0 & ((self.0 - 1) as u64),
                vstd::std_specs::bits::u64_trailing_zeros(self.0) as int,
            );
        }
        Square::new(self.0.trailing_zeros() as usize)
    }

    /// The most significant member.
    #[inline(always)]
    pub fn msb(self) -> (r: Square)
        requires
            self.0 != 0,
        ensures
            self.has(r.idx()),
            forall|j: int| #[trigger] self.has(j) ==> j <= r.idx(),
    {
        proof {
            bits::lemma_highest(self.0);
        }
        Square::new(63 - self.0.leading_zeros() as usize)
    }

    /// Remove and return the least significant member.
    #[inline(always)]
    pub fn pop_lsb(&mut self) -> (r: Square)
        requires
            old(self).0 != 0,
        ensures
            old(self).has(r.idx()),
            forall|j: int| #[trigger] old(self).has(j) ==> j >= r.idx(),
            forall|i: int| #[trigger] final(self).has(i) == (old(self).has(i) && i != r.idx()),
            old(self).members() == seq![r.idx()] + final(self).members(),
            old(self).members().len() > 0,
            r.idx() == old(self).members()[0],
            final(self).members() == old(self).members().drop_first(),
            final(self).0 == old(self).0 & ((old(self).0 - 1) as u64),
    {
        let sq = self.lsb();
        proof {
            bits::lemma_lowest(self.0);
            bits::lemma_drop_lowest(self.0);
            bits::lemma_members_pop(
                self.0,
                self.0 & ((self.0 - 1) as u64),
                vstd::std_specs::bits::u64_trailing_zeros(self.0) as int,
            );
        }
        self.0 = self.0 & (self.0 - 1);
        assert(old(self).members().drop_first() =~= self.members());
        sq
    }

    /// The member frontmost from `c`'s point of view: the most significant for White, the
    /// least for Black.
    #[inline(always)]
    pub fn frontmost(self, c: Color) -> (r: Square)
        requires
            self.0 != 0,
        ensures
            self.has(r.idx()),
            c == Color::White ==> forall|j: int| #[trigger] self.has(j) ==> j <= r.idx(),
            c == Color::Black ==> forall|j: int| #[trigger] self.has(j) ==> j >= r.idx(),
    {
        match c {
            Color::White => self.msb(),
            Color::Black => self.lsb(),
        }
    }

    /// Square `t` is one step in direction `d` from a member.
    pub open spec fn stepped(self, d: Direction, t: int) -> bool {
        &&& 0 <= t < 64
        &&& 0 <= t % 8 - d.df() < 8
        &&& 0 <= t / 8 - d.dr() < 8
        &&& self.has(t - d.delta())
    }

    /// Shift every member one square in `d`, dropping members that would leave the board.
    #[inline(always)]
    pub fn shift(self, d: Direction) -> (r: Bitboard)
        ensures
            forall|t: int| #[trigger] r.has(t) == self.stepped(d, t),
    {
        proof {
            broadcast use bits::group_bits;

            assert(FILE_A == FILE_A << 0u64 && FILE_H == FILE_A << 7u64) by (bit_vector);
            assert forall|i: int| bits::bit(FILE_A, i) == (0 <= i < 64 && i % 8 == 0) by {
                bits::lemma_lines(0, i);
            }
            assert forall|i: int| bits::bit(FILE_H, i) == (0 <= i < 64 && i % 8 == 7) by {
                bits::lemma_lines(7, i);
            }
        }
        let b: u64 = self.0;
        match d {
            Direction::North => Bitboard(b << 8u64),
            Direction::South => Bitboard(b >> 8u64),
            Direction::East => Bitboard((b & !FILE_H) << 1u64),
            Direction::West => Bitboard((b & !FILE_A) >> 1u64),
            Direction::NorthEast => Bitboard((b & !FILE_H) << 9u64),
            Direction::NorthWest => Bitboard((b & !FILE_A) << 7u64),
            Direction::SouthEast => Bitboard((b & !FILE_H) >> 7u64),
            Direction::SouthWest => Bitboard((b & !FILE_A) >> 9u64),
        }
    }

    /// Push every pawn in the set one square forward for `c`.
    #[inline(always)]
    pub fn pawn_push(self, c: Color) -> (r: Bitboard)
        ensures
            forall|t: int| #[trigger] r.has(t) == self.stepped(Direction::forward(c), t),
    {
        self.shift(Direction::pawn_push(c))
    }

    /// The squares attacked by the pawns in the set, for `c`.
    #[inline(always)]
    pub fn pawn_attacks(self, c: Color) -> (r: Bitboard)
        ensures
            forall|t: int| #[trigger]
                r.has(t) <==> exists|s: int| #[trigger] self.has(s) && pawn_hits(c, s, t),
    {
        proof {
            broadcast use bits::group_bits;

        }
        let (a, b) = match c {
            Color::White => (self.shift(Direction::NorthWest), self.shift(Direction::NorthEast)),
            Color::Black => (self.shift(Direction::SouthWest), self.shift(Direction::SouthEast)),
        };
        proof {
            assert forall|t: int| (a.has(t) || b.has(t)) <==> exists|s: int| #[trigger]
                self.has(s) && pawn_hits(c, s, t) by {
                let da = if c == Color::White { Direction::NorthWest } else { Direction::SouthWest };
                let db = if c == Color::White { Direction::NorthEast } else { Direction::SouthEast };
                if a.has(t) {
                    assert(self.has(t - da.delta()) && pawn_hits(c, t - da.delta(), t));
                }
                if b.has(t) {
                    assert(self.has(t - db.delta()) && pawn_hits(c, t - db.delta(), t));
                }
                if exists|s: int| #[trigger] self.has(s) && pawn_hits(c, s, t) {
                    let s = choose|s: int| #[trigger] self.has(s) && pawn_hits(c, s, t);
                    assert(s == t - da.delta() || s == t - db.delta());
                }
            }
        }
        a | b
    }

    /// Iterate the members, least significant first. The iterator owns a copy of the set.
    #[inline(always)]
    pub fn iter(self) -> (r: BitboardIter)
        ensures
            r.0 == self,
    {
        BitboardIter(self)
    }

    /// The members as a list, least significant first.
    pub fn to_vec(self) -> (r: Vec<Square>)
        ensures
            r@.len() == self.members().len(),
            forall|k: int| 0 <= k < r@.len() ==> (#[trigger] r@[k]).idx() == self.members()[k],
    {
        let mut b = self;
        let mut v: Vec<Square> = Vec::new();
        while b.0 != 0
            invariant
                v@.len() + b.members().len() == self.members().len(),
                b.members() == self.members().skip(v@.len() as int),
                forall|k: int| 0 <= k < v@.len() ==> (#[trigger] v@[k]).idx() == self.members()[k],
            decreases b.members().len(),
        {
            let sq = b.pop_lsb();
            v.push(sq);
        }
        proof {
            bits::lemma_members_empty(b.0);
        }
        v
    }
}

/// Iterator over a bitboard's members, least significant first.
#[derive(Debug)]
pub struct BitboardIter(pub Bitboard);

impl BitboardIter {
    /// The next member, and `None` when there is none left.
    pub fn next(&mut self) -> (r: Option<Square>)
        ensures
            r.is_none() <==> old(self).0.members().len() == 0,
            r.is_none() ==> final(self).0 == old(self).0,
            r matches Some(s) ==> s.idx() == old(self).0.members()[0] && final(self).0.members()
                == old(self).0.members().drop_first(),
    {
        proof {
            bits::lemma_members_empty(self.0.0);
        }
        if self.0.is_empty() {
            None
        } else {
            Some(self.0.pop_lsb())
        }
    }
}

impl BitAnd for Bitboard {
    type Output = Bitboard;

    #[inline(always)]
    fn bitand(self, rhs: Bitboard) -> (r: Bitboard) {
        Bitboard(self.0 & rhs.0)
    }
}

impl BitAndSpecImpl for Bitboard {
    open spec fn obeys_bitand_spec() -> bool {
        true
    }

    open spec fn bitand_req(self, rhs: Bitboard) -> bool {
        true
    }

    open spec fn bitand_spec(self, rhs: Bitboard) -> Bitboard {
        Bitboard(self.0 & rhs.0)
    }
}

impl BitOr for Bitboard {
    type Output = Bitboard;

    #[inline(always)]
    fn bitor(self, rhs: Bitboard) -> (r: Bitboard) {
        Bitboard(self.0 | rhs.0)
    }
}

impl BitOrSpecImpl for Bitboard {
    open spec fn obeys_bitor_spec() -> bool {
        true
    }

    open spec fn bitor_req(self, rhs: Bitboard) -> bool {
        true
    }

    open spec fn bitor_spec(self, rhs: Bitboard) -> Bitboard {
        Bitboard(self.0 | rhs.0)
    }
}

impl BitXor for Bitboard {
    type Output = Bitboard;

    #[inline(always)]
    fn bitxor(self, rhs: Bitboard) -> (r: Bitboard) {
        Bitboard(self.0 ^ rhs.0)
    }
}

impl BitXorSpecImpl for Bitboard {
    open spec fn obeys_bitxor_spec() -> bool {
        true
    }

    open spec fn bitxor_req(self, rhs: Bitboard) -> bool {
        true
    }

    open spec fn bitxor_spec(self, rhs: Bitboard) -> Bitboard {
        Bitboard(self.0 ^ rhs.0)
    }
}

impl Not for Bitboard {
    type Output = Bitboard;

    #[inline(always)]
    fn not(self) -> (r: Bitboard) {
        Bitboard(!self.0)
    }
}

impl NotSpecImpl for Bitboard {
    open spec fn obeys_not_spec() -> bool {
        true
    }

    open spec fn not_req(self) -> bool {
        true
    }

    open spec fn not_spec(self) -> Bitboard {
        Bitboard(!self.0)
    }
}

impl Default for Bitboard {
    /// The empty set.
    fn default() -> (r: Bitboard)
        ensures
            r == Bitboard(0),
    {
        Bitboard(0)
    }
}

// ---------------------------------------------------------------------------
// File and rank masks
// ---------------------------------------------------------------------------

/// The file `sq` stands on.
#[inline(always)]
pub fn file_bb(sq: Square) -> (r: Bitboard)
    ensures
        forall|i: int| #[trigger] r.has(i) == (0 <= i < 64 && i % 8 == sq.idx() % 8),
{
    let f: u64 = (sq.index() % 8) as u64;
    proof {
        assert forall|i: int| bits::bit(FILE_A << f, i) == (0 <= i < 64 && i % 8 == f) by {
            bits::lemma_lines(f, i);
        }
    }
    Bitboard(FILE_A << f)
}

/// The rank `sq` stands on.
#[inline(always)]
pub fn rank_bb(sq: Square) -> (r: Bitboard)
    ensures
        forall|i: int| #[trigger] r.has(i) == (0 <= i < 64 && i / 8 == sq.idx() / 8),
{
    nth_rank_bb(sq.index() / 8)
}

/// The rank with index `r`.
#[inline(always)]
fn nth_rank_bb(r: usize) -> (b: Bitboard)
    requires
        r < 8,
    ensures
        forall|i: int| #[trigger] b.has(i) == (0 <= i < 64 && i / 8 == r),
{
    let k: u64 = 8 * r as u64;
    proof {
        assert forall|i: int| #[trigger] bits::bit(RANK_1 << k, i) == (0 <= i < 64 && i / 8 == r) by {
            bits::lemma_lines(r as u64, i);
        }
    }
    Bitboard(RANK_1 << k)
}

/// The rank `r` counted from `c`'s own back rank.
#[inline(always)]
pub fn relative_rank_bb(c: Color, r: usize) -> (b: Bitboard)
    requires
        r < 8,
    ensures
        forall|i: int| #[trigger] b.has(i) == (0 <= i < 64 && Square::rel_rank(i, c) == r),
{
    match c {
        Color::White => nth_rank_bb(r),
        Color::Black => nth_rank_bb(7 - r),
    }
}

// ---------------------------------------------------------------------------
// Distances and step attacks
// ---------------------------------------------------------------------------

/// Chebyshev distance between two squares.
pub fn distance(a: Square, b: Square) -> (r: usize)
    ensures
        r == Square::chebyshev(a.idx(), b.idx()),
{
    a.distance(b)
}

/// The magnitude of a difference.
pub open spec fn gap(a: int, b: int) -> int {
    if a >= b {
        a - b
    } else {
        b - a
    }
}

/// A knight on `s` attacks `t`.
pub open spec fn knight_hits(s: int, t: int) -> bool {
    &&& 0 <= s < 64 && 0 <= t < 64
    &&& (gap(s % 8, t % 8) == 1 && gap(s / 8, t / 8) == 2) || (gap(s % 8, t % 8) == 2 && gap(
        s / 8,
        t / 8,
    ) == 1)
}

/// A king on `s` attacks `t`.
pub open spec fn king_hits(s: int, t: int) -> bool {
    &&& 0 <= s < 64 && 0 <= t < 64
    &&& Square::chebyshev(s, t) == 1
}

/// A pawn of colour `c` on `s` attacks `t`.
pub open spec fn pawn_hits(c: Color, s: int, t: int) -> bool {
    &&& 0 <= s < 64 && 0 <= t < 64
    &&& gap(s % 8, t % 8) == 1
    &&& t / 8 - s / 8 == (match c {
        Color::White => 1int,
        Color::Black => -1int,
    })
}

/// Square `t` is one of the first `n` steps away from `s` and within two files and ranks.
pub open spec fn step_target(s: int, steps: Seq<i32>, n: int, t: int) -> bool {
    exists|i: int|
        0 <= i < n && t == s + #[trigger] steps[i] && 0 <= t < 64 && Square::chebyshev(s, t) <= 2
}

/// The squares a step piece on `sq` attacks, given its steps in the square numbering.
///
/// A step is legal when it lands on the board and stays within two files of its origin.
/// The file test is what rejects the wrap-around that index arithmetic lets through.
fn step_attacks(sq: Square, steps: &[i32]) -> (r: Bitboard)
    requires
        forall|i: int| 0 <= i < steps@.len() ==> -17 <= #[trigger] steps@[i] <= 17,
    ensures
        forall|t: int| #[trigger] r.has(t) == step_target(sq.idx(), steps@, steps@.len() as int, t),
{
    broadcast use {bits::group_bits, Square::lemma_idx};

    let mut b = Bitboard(0);
    let s: i32 = sq.index() as i32;
    let mut i: usize = 0;
    while i < steps.len()
        invariant
            i <= steps@.len(),
            s == sq.idx(),
            0 <= s < 64,
            forall|k: int| 0 <= k < steps@.len() ==> -17 <= #[trigger] steps@[k] <= 17,
            forall|t: int| #[trigger] b.has(t) == step_target(sq.idx(), steps@, i as int, t),
        decreases steps@.len() - i,
    {
        let to: i32 = s + steps[i];
        let ghost before = b;
        if to >= 0 && to < 64 {
            let dest = Square::new(to as usize);
            if sq.distance(dest) <= 2 {
                b.set(dest);
            }
        }
        proof {
            assert forall|t: int| #[trigger] b.has(t) == step_target(sq.idx(), steps@, i + 1, t) by {
                assert(before.has(t) == step_target(sq.idx(), steps@, i as int, t));
                if t == s + steps@[i as int] {
                }
            }
        }
        i += 1;
    }
    b
}

/// The squares a knight on `sq` attacks.
pub fn knight_attacks(sq: Square) -> (r: Bitboard)
    ensures
        forall|t: int| #[trigger] r.has(t) == knight_hits(sq.idx(), t),
{
    broadcast use Square::lemma_idx;

    let steps: [i32; 8] = [-17, -15, -10, -6, 6, 10, 15, 17];
    let r = step_attacks(sq, &steps);
    proof {
        let s = sq.idx();
        let q = steps@;
        assert(q[0] == -17 && q[1] == -15 && q[2] == -10 && q[3] == -6 && q[4] == 6 && q[5] == 10
            && q[6] == 15 && q[7] == 17);
        assert forall|t: int| #[trigger] r.has(t) == knight_hits(s, t) by {
            assert(r.has(t) == step_target(s, q, 8, t));
        }
    }
    r
}

/// The squares a king on `sq` attacks.
pub fn king_attacks(sq: Square) -> (r: Bitboard)
    ensures
        forall|t: int| #[trigger] r.has(t) == king_hits(sq.idx(), t),
{
    broadcast use Square::lemma_idx;

    let steps: [i32; 8] = [-9, -8, -7, -1, 1, 7, 8, 9];
    let r = step_attacks(sq, &steps);
    proof {
        let s = sq.idx();
        let q = steps@;
        assert(q[0] == -9 && q[1] == -8 && q[2] == -7 && q[3] == -1 && q[4] == 1 && q[5] == 7
            && q[6] == 8 && q[7] == 9);
        assert forall|t: int| #[trigger] r.has(t) == king_hits(s, t) by {
            assert(r.has(t) == step_target(s, q, 8, t));
        }
    }
    r
}

/// The squares a pawn of colour `c` on `sq` attacks.
pub fn pawn_attacks_from(c: Color, sq: Square) -> (r: Bitboard)
    ensures
        forall|t: int| #[trigger] r.has(t) == pawn_hits(c, sq.idx(), t),
{
    broadcast use Square::lemma_idx;

    let steps: [i32; 2] = match c {
        Color::White => [7, 9],
        Color::Black => [-7, -9],
    };
    let r = step_attacks(sq, &steps);
    proof {
        let s = sq.idx();
        let q = steps@;
        assert(c == Color::White ==> q[0] == 7 && q[1] == 9);
        assert(c == Color::Black ==> q[0] == -7 && q[1] == -9);
        assert forall|t: int| #[trigger] r.has(t) == pawn_hits(c, s, t) by {
            assert(r.has(t) == step_target(s, q, 2, t));
        }
    }
    r
}

/// A pawn attacks a square exactly when an enemy pawn there would attack it back.
pub proof fn law_pawn_attacks_mirror(c: Color, s: int, t: int)
    ensures
        pawn_hits(c, s, t) == pawn_hits(c.opp(), t, s),
{
}

} // verus!
