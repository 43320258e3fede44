//! Slider attacks by magic lookup.
//!
//! A magic number turns "which squares does a rook on `sq` attack through occupancy `occ`"
//! into one multiplication, one shift and one table read. The tables hold the answers of the
//! ray walk; a square for which no magic number was found within the search bound is answered
//! by the ray walk itself.

use vstd::prelude::*;
use std::sync::Arc;
use crate::board::attacks::{bishop_attacks, rook_attacks};
use crate::board::attacks;
use crate::board::bitboard::{king_attacks, knight_attacks, pawn_attacks_from, Bitboard};
use crate::board::bits;
use crate::board::spans;
use crate::board::types::{Color, PieceType, Square};
use crate::board::zobrist;

verus! {

/// The successor of a subset, in the order of the words, is found by one subtraction.
proof fn lemma_next_subset(sub: u64, mask: u64, y: u64, x: u64)
    requires
        sub & mask == sub,
        x & mask == x,
        y + mask == sub || y + mask == sub + 0x1_0000_0000_0000_0000,
    ensures
        (y & mask) & mask == y & mask,
        y & mask != 0 ==> y & mask > sub,
        x > sub ==> y & mask != 0 && y & mask <= x,
{
    assert((y & mask) & mask == y & mask && (y & mask != 0 ==> y & mask > sub) && (x > sub ==> y & mask
        != 0 && y & mask <= x)) by (bit_vector)
        requires
            sub & mask == sub,
            x & mask == x,
            y + mask == sub || y + mask == sub + 0x1_0000_0000_0000_0000,
    ;
}

/// Every subset of `mask`, ascending: each exactly once.
pub fn subsets(mask: u64) -> (r: Vec<u64>)
    ensures
        forall|i: int| 0 <= i < r@.len() ==> #[trigger] r@[i] & mask == r@[i],
        forall|i: int, j: int| 0 <= i < j < r@.len() ==> r@[i] < r@[j],
        forall|x: u64| #[trigger] (x & mask) == x ==> r@.contains(x),
{
    let mut r: Vec<u64> = Vec::new();
    let mut sub: u64 = 0;
    proof {
        assert(0u64 & mask == 0u64) by (bit_vector);
    }
    loop
        invariant
            sub & mask == sub,
            forall|i: int| 0 <= i < r@.len() ==> #[trigger] r@[i] & mask == r@[i],
            forall|i: int, j: int| 0 <= i < j < r@.len() ==> r@[i] < r@[j],
            forall|i: int| 0 <= i < r@.len() ==> #[trigger] r@[i] < sub,
            forall|x: u64| #[trigger] (x & mask) == x && x < sub ==> r@.contains(x),
        decreases u64::MAX - sub,
    {
        let ghost before = r@;
        let y: u64 = sub.wrapping_sub(mask);
        let next: u64 = y & mask;
        r.push(sub);
        proof {
            assert(r@[before.len() as int] == sub);
            assert forall|x: u64| #[trigger] (x & mask) == x && x <= sub implies r@.contains(x) by {
                if x < sub {
                    assert(before.contains(x));
                    let i = choose|i: int| 0 <= i < before.len() && before[i] == x;
                    assert(r@[i] == x);
                }
            }
            assert forall|x: u64| #[trigger] (x & mask) == x && x > sub implies next != 0 && next
                <= x by {
                lemma_next_subset(sub, mask, y, x);
            }
            lemma_next_subset(sub, mask, y, sub);
        }
        if next == 0 {
            return r;
        }
        sub = next;
    }
}

// ---------------------------------------------------------------------------
// Relevant occupancy
// ---------------------------------------------------------------------------

/// A rook, or else a bishop, on `s` attacks `t` through occupancy `occ`.
pub open spec fn slides(rook: bool, occ: u64, s: int, t: int) -> bool {
    if rook {
        attacks::rook_hits(occ, s, t)
    } else {
        attacks::bishop_hits(occ, s, t)
    }
}

/// `u` lies on a board edge that `s` does not lie on.
pub open spec fn far_edge(s: int, u: int) -> bool {
    ||| (u / 8 == 0 || u / 8 == 7) && u / 8 != s / 8
    ||| (u % 8 == 0 || u % 8 == 7) && u % 8 != s % 8
}

/// What stands on `u` can matter to the slider on `s`.
pub open spec fn relevant(rook: bool, s: int, u: int) -> bool {
    slides(rook, 0, s, u) && !far_edge(s, u)
}

/// A blocker on the edge where a ray ends hides nothing: only the relevant squares matter.
pub proof fn law_only_relevant_squares_matter(rook: bool, a: u64, b: u64, s: int, t: int)
    requires
        forall|u: int| relevant(rook, s, u) ==> #[trigger] bits::bit(a, u) == bits::bit(b, u),
    ensures
        slides(rook, a, s, t) == slides(rook, b, s, t),
{
    broadcast use bits::group_bits;

    if slides(rook, 0, s, t) {
        assert forall|u: int| #[trigger] attacks::between(s, u, t) implies bits::bit(a, u)
            == bits::bit(b, u) by {
            assert(attacks::clear(0, s, u));
            assert(relevant(rook, s, u));
        }
    } else {
        assert(attacks::clear(0, s, t));
    }
}

/// Squares a rook, or else a bishop, on `sq` attacks, by the ray walk.
pub fn walk(rook: bool, sq: Square, occ: Bitboard) -> (r: Bitboard)
    ensures
        forall|t: int| #[trigger] r.has(t) == slides(rook, occ.0, sq.idx(), t),
{
    if rook {
        rook_attacks(sq, occ)
    } else {
        bishop_attacks(sq, occ)
    }
}

/// The relevant squares of `sq`: the ray squares, minus the edges the rays end on.
pub fn relevant_mask(rook: bool, sq: Square) -> (r: Bitboard)
    ensures
        forall|u: int| #[trigger] r.has(u) == relevant(rook, sq.idx(), u),
{
    broadcast use {bits::group_bits, Square::lemma_idx};

    let reach = walk(rook, sq, Bitboard(0));
    let mut acc = Bitboard(0);
    let mut i: usize = 0;
    while i < 64
        invariant
            i <= 64,
            forall|u: int| #[trigger] reach.has(u) == slides(rook, 0, sq.idx(), u),
            forall|u: int| #[trigger] acc.has(u) == (u < i && relevant(rook, sq.idx(), u)),
        decreases 64 - i,
    {
        broadcast use {bits::group_bits, Square::lemma_idx};

        let u = Square::new(i);
        let rank: usize = i / 8;
        let file: usize = i % 8;
        let far = ((rank == 0 || rank == 7) && rank != sq.index() / 8) || ((file == 0 || file == 7)
            && file != sq.index() % 8);
        let ghost before = acc;
        if reach.contains(u) && !far {
            acc.set(u);
        }
        proof {
            assert forall|v: int| #[trigger] acc.has(v) == (v < i + 1 && relevant(
                rook,
                sq.idx(),
                v,
            )) by {
                assert(before.has(v) == (v < i && relevant(rook, sq.idx(), v)));
                assert(reach.has(v) == slides(rook, 0, sq.idx(), v));
            }
        }
        i += 1;
    }
    acc
}

// ---------------------------------------------------------------------------
// The generator
// ---------------------------------------------------------------------------

/// A xorshift generator, so that the search takes the same path every time.
pub struct Prng(pub u64);

impl Prng {
    /// The next word.
    pub fn next_u64(&mut self) -> (r: u64)
        ensures
            final(self).0 == zobrist::step(old(self).0),
            r == zobrist::step(old(self).0).wrapping_mul(zobrist::MULTIPLIER),
    {
        let (state, word) = zobrist::next_key(self.0);
        self.0 = state;
        word
    }

    /// A word with few bits set: a sparse multiplier scatters an occupancy over the high
    /// bits far more often than a dense one.
    pub fn sparse_u64(&mut self) -> (r: u64)
        ensures
            ({
                let a = zobrist::step(old(self).0);
                let b = zobrist::step(a);
                let c = zobrist::step(b);
                &&& final(self).0 == c
                &&& r == (a.wrapping_mul(zobrist::MULTIPLIER) & b.wrapping_mul(zobrist::MULTIPLIER))
                    & c.wrapping_mul(zobrist::MULTIPLIER)
            }),
    {
        let a = self.next_u64();
        let b = self.next_u64();
        let c = self.next_u64();
        (a & b) & c
    }
}

/// The seed of the search for a square, by its rank.
pub const MAGIC_SEEDS: [u64; 8] = [728, 10316, 55013, 32803, 12281, 15100, 16645, 255];

// ---------------------------------------------------------------------------
// Magic numbers
// ---------------------------------------------------------------------------

/// Everything needed to turn an occupancy into a place in the table.
#[derive(Clone, Copy, Debug)]
pub struct Magic {
    /// The relevant squares.
    pub mask: u64,
    /// The number that maps the relevant occupancies onto places.
    pub multiplier: u64,
    /// Where the square's block starts in the table.
    pub offset: usize,
    /// How far the product is shifted down.
    pub shift: u32,
}

/// Where an occupancy lands in a block.
pub open spec fn place(mask: u64, multiplier: u64, shift: u32, occ: u64) -> int {
    ((occ & mask).wrapping_mul(multiplier) >> shift) as int
}

/// The set is what the slider on `s` attacks through `occ`.
pub open spec fn is_reach(b: Bitboard, rook: bool, occ: u64, s: int) -> bool {
    forall|t: int| #[trigger] b.has(t) == slides(rook, occ, s, t)
}

impl Magic {
    /// Where an occupancy lands in the table.
    pub open spec fn spot(self, occ: u64) -> int {
        self.offset + place(self.mask, self.multiplier, self.shift, occ)
    }

    /// The table answers every occupancy for the slider on `s`.
    pub open spec fn answers(self, table: Seq<Bitboard>, rook: bool, s: int) -> bool {
        &&& self.shift < 64
        &&& forall|occ: u64| #[trigger]
            self.spot(occ) < table.len() && is_reach(table[self.spot(occ)], rook, occ, s)
    }
}

/// Two occupancies that the multiplier lands on one place have different answers.
pub open spec fn collides(rook: bool, s: int, mask: u64, c: u64, shift: u32) -> bool {
    exists|x: u64, y: u64| #[trigger] clash(rook, s, mask, c, shift, x, y)
}

/// The occupancies `x` and `y` land on one place and have different answers.
pub open spec fn clash(rook: bool, s: int, mask: u64, c: u64, shift: u32, x: u64, y: u64) -> bool {
    &&& x & mask == x
    &&& y & mask == y
    &&& place(mask, c, shift, x) == place(mask, c, shift, y)
    &&& exists|t: int| #[trigger] slides(rook, x, s, t) != slides(rook, y, s, t)
}

/// The multiplier serves for the slider on `s`: it moves at least six bits of the mask into the
/// top byte, and no two occupancies clash.
pub open spec fn serves(rook: bool, s: int, mask: u64, c: u64, shift: u32) -> bool {
    &&& bits::members(mask.wrapping_mul(c) >> 56u32).len() >= 6
    &&& !collides(rook, s, mask, c, shift)
}

/// The state of the generator after `n` multipliers.
pub open spec fn state_after(seed: u64, n: int) -> u64
    decreases n,
{
    if n <= 0 {
        seed
    } else {
        zobrist::step(zobrist::step(zobrist::step(state_after(seed, n - 1))))
    }
}

/// The multiplier that is drawn after `n` others.
pub open spec fn drawn(seed: u64, n: int) -> u64 {
    let a = zobrist::step(state_after(seed, n));
    let b = zobrist::step(a);
    let c = zobrist::step(b);
    (a.wrapping_mul(zobrist::MULTIPLIER) & b.wrapping_mul(zobrist::MULTIPLIER)) & c.wrapping_mul(
        zobrist::MULTIPLIER,
    )
}

/// The word holds the squares that matter to the slider on `s`.
pub open spec fn is_mask(rook: bool, s: int, mask: u64) -> bool {
    forall|u: int| #[trigger] bits::bit(mask, u) == relevant(rook, s, u)
}

/// None of the first `n` multipliers that are drawn for `s` serves.
pub open spec fn fruitless(rook: bool, s: int, mask: u64, n: int) -> bool {
    forall|j: int|
        0 <= j < n ==> !serves(
            rook,
            s,
            mask,
            #[trigger] drawn(MAGIC_SEEDS[s / 8], j),
            (64 - bits::members(mask).len()) as u32,
        )
}

/// The outcome of the search for `s`: the first multiplier drawn that serves, or nothing when
/// none of those that are tried does.
pub open spec fn is_search(rook: bool, s: int, found: Option<Magic>) -> bool {
    match found {
        Some(m) => {
            &&& is_mask(rook, s, m.mask)
            &&& m.shift == 64 - bits::members(m.mask).len()
            &&& exists|n: int|
                {
                    &&& 0 <= n < MAGIC_TRIES
                    &&& m.multiplier == #[trigger] drawn(MAGIC_SEEDS[s / 8], n)
                    &&& serves(rook, s, m.mask, m.multiplier, m.shift)
                    &&& fruitless(rook, s, m.mask, n)
                }
        },
        None => exists|mask: u64|
            #[trigger] is_mask(rook, s, mask) && fruitless(rook, s, mask, MAGIC_TRIES as int),
    }
}

/// A word whose members are all attacked has no more members than there are attacks.
proof fn lemma_members_bounded(pt: PieceType, s: int, mask: u64, i: int)
    requires
        0 <= i <= 64,
        forall|u: int| #[trigger] bits::bit(mask, u) ==> attacks::hits(Color::White, pt, 0, s, u),
    ensures
        bits::members_from(mask, i).len() <= spans::hits_upto(Color::White, pt, s, 64)
            - spans::hits_upto(Color::White, pt, s, i),
    decreases 64 - i,
{
    if i < 64 {
        lemma_members_bounded(pt, s, mask, i + 1);
        assert(bits::bit(mask, i) ==> attacks::hits(Color::White, pt, 0, s, i));
    }
}

/// Some squares matter to every slider, and no more than it attacks.
proof fn lemma_mask_size(rook: bool, s: int, mask: u64)
    requires
        0 <= s < 64,
        is_mask(rook, s, mask),
    ensures
        1 <= bits::members(mask).len() <= 14,
{
    broadcast use bits::group_bits;

    let pt = if rook {
        PieceType::Rook
    } else {
        PieceType::Bishop
    };
    lemma_members_bounded(pt, s, mask, 0);
    spans::law_spans_count_the_attacks(Color::White, pt, s);
    let f = if s % 8 <= 3 {
        s % 8 + 1
    } else {
        s % 8 - 1
    };
    let r = if s / 8 <= 3 {
        s / 8 + 1
    } else {
        s / 8 - 1
    };
    let t = if rook {
        8 * r + s % 8
    } else {
        8 * r + f
    };
    assert(t / 8 == r && t % 8 == (if rook {
        s % 8
    } else {
        f
    }));
    assert(attacks::clear(0, s, t));
    assert(relevant(rook, s, t));
    bits::lemma_members_empty(mask);
    bits::lemma_member_nonzero(mask, t);
}

/// A shifted word fits in the bits that are left.
proof fn lemma_shifted(x: u64, s: u32)
    requires
        0 < s < 64,
    ensures
        x >> s < 1u64 << ((64 - s) as u32),
{
    let n: u32 = (64 - s) as u32;
    assert(x >> s < 1u64 << n) by (bit_vector)
        requires
            0 < s < 64,
            n == 64 - s,
    ;
}

/// Every pair lands where its answer is stored.
spec fn stored(
    occs: Seq<u64>,
    refs: Seq<Bitboard>,
    n: int,
    mask: u64,
    c: u64,
    shift: u32,
    slot: Seq<Bitboard>,
) -> bool {
    forall|k: int|
        0 <= k < n ==> place(mask, c, shift, #[trigger] occs[k]) < slot.len() && slot[place(
            mask,
            c,
            shift,
            occs[k],
        )] == refs[k]
}

/// Try one multiplier: fill the block, and stop at the first two occupancies that land on one
/// place with different answers. The epochs say which attempt last wrote a place.
fn try_multiplier(
    rook: bool,
    sq: Square,
    occs: &Vec<u64>,
    refs: &Vec<Bitboard>,
    mask: u64,
    c: u64,
    shift: u32,
    slot: &mut Vec<Bitboard>,
    epoch: &mut Vec<u32>,
    attempt: u32,
) -> (r: bool)
    requires
        occs@.len() == refs@.len(),
        0 < shift < 64,
        old(slot)@.len() == old(epoch)@.len(),
        old(slot)@.len() == 1u64 << ((64 - shift) as u32),
        forall|i: int| 0 <= i < old(epoch)@.len() ==> #[trigger] old(epoch)@[i] < attempt,
        forall|k: int|
            0 <= k < refs@.len() ==> is_reach(#[trigger] refs@[k], rook, occs@[k], sq.idx()),
        forall|k: int| 0 <= k < occs@.len() ==> #[trigger] occs@[k] & mask == occs@[k],
        forall|x: u64| #[trigger] (x & mask) == x ==> occs@.contains(x),
    ensures
        r == !collides(rook, sq.idx(), mask, c, shift),
        final(slot)@.len() == old(slot)@.len(),
        final(epoch)@.len() == old(slot)@.len(),
        forall|i: int| 0 <= i < final(epoch)@.len() ==> #[trigger] final(epoch)@[i] <= attempt,
        r ==> stored(occs@, refs@, occs@.len() as int, mask, c, shift, final(slot)@),
{
    let mut j: usize = 0;
    while j < occs.len()
        invariant
            j <= occs@.len(),
            occs@.len() == refs@.len(),
            0 < shift < 64,
            slot@.len() == 1u64 << ((64 - shift) as u32),
            forall|k: int|
                0 <= k < refs@.len() ==> is_reach(#[trigger] refs@[k], rook, occs@[k], sq.idx()),
            forall|k: int| 0 <= k < occs@.len() ==> #[trigger] occs@[k] & mask == occs@[k],
            forall|i: int|
                0 <= i < epoch@.len() && #[trigger] epoch@[i] == attempt ==> exists|k: int|
                    0 <= k < j && place(mask, c, shift, #[trigger] occs@[k]) == i,
            slot@.len() == old(slot)@.len(),
            epoch@.len() == slot@.len(),
            forall|i: int| 0 <= i < epoch@.len() ==> #[trigger] epoch@[i] <= attempt,
            stored(occs@, refs@, j as int, mask, c, shift, slot@),
            forall|k: int|
                0 <= k < j ==> epoch@[place(mask, c, shift, #[trigger] occs@[k])] == attempt,
        decreases occs@.len() - j,
    {
        let spot: u64 = (occs[j] & mask).wrapping_mul(c) >> shift;
        let size: usize = slot.len();
        proof {
            assert(size == slot@.len());
            lemma_shifted((occs@[j as int] & mask).wrapping_mul(c), shift);
        }
        let at: usize = spot as usize;
        let answer = refs[j];
        let ghost marks = epoch@;
        if epoch[at] < attempt {
            epoch.set(at, attempt);
            slot.set(at, answer);
        } else if slot[at] != answer {
            proof {
                let k = choose|k: int|
                    0 <= k < j && place(mask, c, shift, #[trigger] occs@[k]) == at;
                lemma_answers_differ(refs@[k], answer, rook, sq.idx(), occs@[k], occs@[j as int]);
                assert(clash(rook, sq.idx(), mask, c, shift, occs@[k], occs@[j as int]));
            }
            return false;
        }
        proof {
            assert forall|i: int|
                0 <= i < epoch@.len() && #[trigger] epoch@[i] == attempt implies exists|k: int|
                0 <= k < j + 1 && place(mask, c, shift, #[trigger] occs@[k]) == i by {
                if i == at {
                    assert(place(mask, c, shift, occs@[j as int]) == i);
                } else {
                    assert(marks[i] == attempt);
                }
            }
        }
        j += 1;
    }
    proof {
        if collides(rook, sq.idx(), mask, c, shift) {
            let (x, y) = choose|x: u64, y: u64| #[trigger]
                clash(rook, sq.idx(), mask, c, shift, x, y);
            assert(occs@.contains(x) && occs@.contains(y));
            let k = choose|k: int| 0 <= k < occs@.len() && occs@[k] == x;
            let l = choose|l: int| 0 <= l < occs@.len() && occs@[l] == y;
            let t = choose|t: int| #[trigger]
                slides(rook, x, sq.idx(), t) != slides(rook, y, sq.idx(), t);
            assert(refs@[k].has(t) != refs@[l].has(t));
            assert(refs@[k] == refs@[l]);
        }
    }
    true
}

/// Different answers are to occupancies that differ in what is attacked.
proof fn lemma_answers_differ(a: Bitboard, b: Bitboard, rook: bool, s: int, x: u64, y: u64)
    requires
        a != b,
        is_reach(a, rook, x, s),
        is_reach(b, rook, y, s),
    ensures
        exists|t: int| #[trigger] slides(rook, x, s, t) != slides(rook, y, s, t),
{
    if forall|t: int| #[trigger] slides(rook, x, s, t) == slides(rook, y, s, t) {
        assert forall|t: int| 0 <= t < 64 implies #[trigger] bits::bit(a.0, t) == bits::bit(
            b.0,
            t,
        ) by {
            assert(a.has(t) == slides(rook, x, s, t));
            assert(b.has(t) == slides(rook, y, s, t));
        }
        bits::lemma_ext(a.0, b.0);
    }
}

/// How many multipliers are tried for one square.
pub const MAGIC_TRIES: u32 = 100_000_000;

/// A shift by a few bits is small.
proof fn lemma_small_shift(n: u32)
    requires
        n <= 14,
    ensures
        1u64 << n <= 16384,
{
    assert(1u64 << n <= 16384) by (bit_vector)
        requires
            n <= 14,
    ;
}

/// Search a magic number for the slider on `sq`, and append its block to the table. Without
/// one the table stays as it is.
fn find_magic(rook: bool, sq: Square, table: &mut Vec<Bitboard>) -> (r: Option<Magic>)
    ensures
        old(table)@.is_prefix_of(final(table)@),
        r matches Some(m) ==> m.answers(final(table)@, rook, sq.idx()) && m.offset == old(
            table,
        )@.len(),
        is_search(rook, sq.idx(), r),
{
    broadcast use Square::lemma_idx;

    let mask_bb = relevant_mask(rook, sq);
    let mask: u64 = mask_bb.0;
    let bits: u32 = mask_bb.count();
    proof {
        assert(is_mask(rook, sq.idx(), mask)) by {
            assert forall|u: int| #[trigger] bits::bit(mask, u) == relevant(rook, sq.idx(), u) by {
                assert(mask_bb.has(u) == relevant(rook, sq.idx(), u));
            }
        }
        lemma_mask_size(rook, sq.idx(), mask);
        lemma_small_shift(bits);
    }
    let shift: u32 = 64 - bits;
    let size: usize = (1u64 << bits) as usize;
    let occs = subsets(mask);
    let mut refs: Vec<Bitboard> = Vec::new();
    while refs.len() < occs.len()
        invariant
            refs@.len() <= occs@.len(),
            forall|k: int|
                0 <= k < refs@.len() ==> is_reach(#[trigger] refs@[k], rook, occs@[k], sq.idx()),
        decreases occs@.len() - refs@.len(),
    {
        let answer = walk(rook, sq, Bitboard(occs[refs.len()]));
        refs.push(answer);
    }
    let mut slot: Vec<Bitboard> = Vec::new();
    let mut epoch: Vec<u32> = Vec::new();
    while slot.len() < size
        invariant
            slot@.len() <= size,
            epoch@.len() == slot@.len(),
            forall|i: int| 0 <= i < epoch@.len() ==> #[trigger] epoch@[i] == 0,
        decreases size - slot@.len(),
    {
        slot.push(Bitboard(0));
        epoch.push(0);
    }
    let rank: usize = sq.index() / 8;
    let mut rng = Prng(MAGIC_SEEDS[rank]);
    let mut attempt: u32 = 0;
    let ghost before = table@;
    let ghost seed = MAGIC_SEEDS[rank as int];
    while attempt < MAGIC_TRIES
        invariant
            attempt <= MAGIC_TRIES,
            0 < shift < 64,
            seed == MAGIC_SEEDS[sq.idx() / 8],
            shift == 64 - bits::members(mask).len(),
            slot@.len() == 1u64 << ((64 - shift) as u32),
            rng.0 == state_after(seed, attempt as int),
            is_mask(rook, sq.idx(), mask),
            fruitless(rook, sq.idx(), mask, attempt as int),
            forall|k: int| 0 <= k < occs@.len() ==> #[trigger] occs@[k] & mask == occs@[k],
            table@ == before,
            before == old(table)@,
            occs@.len() == refs@.len(),
            slot@.len() == epoch@.len(),
            forall|i: int| 0 <= i < epoch@.len() ==> #[trigger] epoch@[i] <= attempt,
            forall|k: int|
                0 <= k < refs@.len() ==> is_reach(#[trigger] refs@[k], rook, occs@[k], sq.idx()),
            forall|x: u64| #[trigger] (x & mask) == x ==> occs@.contains(x),
            forall|u: int| #[trigger] bits::bit(mask, u) == relevant(rook, sq.idx(), u),
        decreases MAGIC_TRIES - attempt,
    {
        let c = rng.sparse_u64();
        assert(c == drawn(seed, attempt as int));
        attempt += 1;
        // A magic number moves at least six bits of the mask into the top byte.
        if Bitboard(mask.wrapping_mul(c) >> 56u32).count() >= 6 {
            if try_multiplier(rook, sq, &occs, &refs, mask, c, shift, &mut slot, &mut epoch, attempt) {
                let offset: usize = table.len();
                let mut i: usize = 0;
                while i < slot.len()
                    invariant
                        i <= slot@.len(),
                        table@ == before + slot@.subrange(0, i as int),
                    decreases slot@.len() - i,
                {
                    table.push(slot[i]);
                    i += 1;
                    assert(table@ =~= before + slot@.subrange(0, i as int));
                }
                assert(table@ =~= before + slot@);
                assert(before.is_prefix_of(table@));
                let m = Magic { mask, multiplier: c, offset, shift };
                proof {
                    lemma_answers(m, rook, sq.idx(), occs@, refs@, before, slot@);
                    assert(serves(rook, sq.idx(), mask, c, shift));
                    assert(c == drawn(seed, attempt - 1));
                    assert(is_search(rook, sq.idx(), Some(m)));
                }
                return Some(m);
            }
        }
        assert(!serves(rook, sq.idx(), mask, c, shift));
    }
    assert(table@ =~= before);
    None
}

/// A block that stores every relevant occupancy answers every occupancy.
proof fn lemma_answers(
    m: Magic,
    rook: bool,
    s: int,
    occs: Seq<u64>,
    refs: Seq<Bitboard>,
    before: Seq<Bitboard>,
    slot: Seq<Bitboard>,
)
    requires
        m.shift < 64,
        m.offset == before.len(),
        occs.len() == refs.len(),
        stored(occs, refs, occs.len() as int, m.mask, m.multiplier, m.shift, slot),
        forall|k: int| 0 <= k < refs.len() ==> is_reach(#[trigger] refs[k], rook, occs[k], s),
        forall|x: u64| #[trigger] (x & m.mask) == x ==> occs.contains(x),
        forall|u: int| #[trigger] bits::bit(m.mask, u) == relevant(rook, s, u),
    ensures
        m.answers(before + slot, rook, s),
{
    broadcast use bits::group_bits;

    assert forall|occ: u64| #[trigger]
        m.spot(occ) < (before + slot).len() && is_reach((before + slot)[m.spot(occ)], rook, occ, s) by {
        let x = occ & m.mask;
        let mask = m.mask;
        assert((occ & mask) & mask == occ & mask) by (bit_vector);
        assert(occs.contains(x));
        let k = choose|k: int| 0 <= k < occs.len() && occs[k] == x;
        let p = place(m.mask, m.multiplier, m.shift, occs[k]);
        assert(p == place(m.mask, m.multiplier, m.shift, occ));
        assert((before + slot)[m.spot(occ)] == refs[k]);
        assert forall|t: int| #[trigger] refs[k].has(t) == slides(rook, occ, s, t) by {
            assert(refs[k].has(t) == slides(rook, x, s, t));
            law_only_relevant_squares_matter(rook, x, occ, s, t);
        }
    }
}

/// One slider's magic numbers and its attack table.
#[derive(Debug)]
pub struct SliderTable {
    pub magics: Vec<Option<Magic>>,
    pub table: Vec<Bitboard>,
}

impl SliderTable {
    /// Every magic number answers for its square.
    pub open spec fn wf(&self, rook: bool) -> bool {
        &&& self.magics@.len() == 64
        &&& forall|s: int|
            0 <= s < 64 ==> ((#[trigger] self.magics@[s]) matches Some(m) ==> m.answers(
                self.table@,
                rook,
                s,
            ))
    }

    /// Every square has the outcome of its search.
    pub open spec fn searched(&self, rook: bool) -> bool {
        forall|s: int| 0 <= s < 64 ==> is_search(rook, s, #[trigger] self.magics@[s])
    }

    /// Search the magic numbers of one slider, square by square.
    pub fn build(rook: bool) -> (r: SliderTable)
        ensures
            r.wf(rook),
            r.searched(rook),
    {
        broadcast use Square::lemma_idx;

        let mut magics: Vec<Option<Magic>> = Vec::new();
        let mut table: Vec<Bitboard> = Vec::new();
        while magics.len() < 64
            invariant
                magics@.len() <= 64,
                forall|s: int|
                    0 <= s < magics@.len() ==> is_search(rook, s, #[trigger] magics@[s]),
                forall|s: int|
                    0 <= s < magics@.len() ==> ((#[trigger] magics@[s]) matches Some(m)
                        ==> m.answers(table@, rook, s)),
            decreases 64 - magics@.len(),
        {
            let sq = Square::new(magics.len());
            let ghost before = table@;
            let found = find_magic(rook, sq, &mut table);
            proof {
                assert forall|s: int| 0 <= s < magics@.len() implies ((#[trigger] magics@[s]) matches Some(
                    m,
                ) ==> m.answers(table@, rook, s)) by {
                    if let Some(m) = magics@[s] {
                        assert(m.answers(before, rook, s));
                        assert forall|occ: u64| #[trigger]
                            m.spot(occ) < table@.len() && is_reach(
                                table@[m.spot(occ)],
                                rook,
                                occ,
                                s,
                            ) by {
                            assert(m.spot(occ) < before.len());
                            assert(table@[m.spot(occ)] == before[m.spot(occ)]);
                        }
                    }
                }
            }
            magics.push(found);
        }
        SliderTable { magics, table }
    }

    /// Squares the slider on `sq` attacks through occupancy `occ`.
    pub fn lookup(&self, rook: bool, sq: Square, occ: Bitboard) -> (r: Bitboard)
        requires
            self.wf(rook),
        ensures
            forall|t: int| #[trigger] r.has(t) == slides(rook, occ.0, sq.idx(), t),
    {
        broadcast use Square::lemma_idx;

        match self.magics[sq.index()] {
            Some(m) => {
                let size: usize = self.table.len();
                assert(m.answers(self.table@, rook, sq.idx()));
                assert(m.spot(occ.0) < size);
                let at: u64 = (occ.0 & m.mask).wrapping_mul(m.multiplier) >> m.shift;
                self.table[m.offset + at as usize]
            },
            None => walk(rook, sq, occ),
        }
    }
}

/// Both sliders' tables, built once and read many times.
#[derive(Debug)]
pub struct Sliders {
    pub rooks: Arc<SliderTable>,
    pub bishops: Arc<SliderTable>,
}

/// Build the tables of both sliders.
pub fn sliders() -> (r: Sliders)
    ensures
        r.wf(),
        r.rooks.searched(true),
        r.bishops.searched(false),
{
    Sliders {
        rooks: Arc::new(SliderTable::build(true)),
        bishops: Arc::new(SliderTable::build(false)),
    }
}

impl Sliders {
    /// Both tables answer.
    pub open spec fn wf(&self) -> bool {
        self.rooks.wf(true) && self.bishops.wf(false)
    }

    /// Squares a rook on `sq` attacks through occupancy `occ`.
    pub fn rook(&self, sq: Square, occ: Bitboard) -> (r: Bitboard)
        requires
            self.wf(),
        ensures
            forall|t: int| #[trigger] r.has(t) == attacks::rook_hits(occ.0, sq.idx(), t),
    {
        self.rooks.lookup(true, sq, occ)
    }

    /// Squares a bishop on `sq` attacks through occupancy `occ`.
    pub fn bishop(&self, sq: Square, occ: Bitboard) -> (r: Bitboard)
        requires
            self.wf(),
        ensures
            forall|t: int| #[trigger] r.has(t) == attacks::bishop_hits(occ.0, sq.idx(), t),
    {
        self.bishops.lookup(false, sq, occ)
    }

    /// Squares a queen on `sq` attacks through occupancy `occ`.
    pub fn queen(&self, sq: Square, occ: Bitboard) -> (r: Bitboard)
        requires
            self.wf(),
        ensures
            forall|t: int| #[trigger]
                r.has(t) == (attacks::rook_hits(occ.0, sq.idx(), t) || attacks::bishop_hits(
                    occ.0,
                    sq.idx(),
                    t,
                )),
    {
        broadcast use bits::group_bits;

        self.rook(sq, occ) | self.bishop(sq, occ)
    }

    /// Bishop and rook attacks from one square.
    pub fn both(&self, sq: Square, occ: Bitboard) -> (r: (Bitboard, Bitboard))
        requires
            self.wf(),
        ensures
            forall|t: int| #[trigger] r.0.has(t) == attacks::bishop_hits(occ.0, sq.idx(), t),
            forall|t: int| #[trigger] r.1.has(t) == attacks::rook_hits(occ.0, sq.idx(), t),
    {
        (self.bishop(sq, occ), self.rook(sq, occ))
    }

    /// The attack set of `pt` from `sq`.
    pub fn from(&self, c: Color, pt: PieceType, sq: Square, occ: Bitboard) -> (r: Bitboard)
        requires
            self.wf(),
            pt != PieceType::NoType,
        ensures
            forall|t: int| #[trigger] r.has(t) == attacks::hits(c, pt, occ.0, sq.idx(), t),
    {
        match pt {
            PieceType::Pawn => pawn_attacks_from(c, sq),
            PieceType::Knight => knight_attacks(sq),
            PieceType::Bishop => self.bishop(sq, occ),
            PieceType::Rook => self.rook(sq, occ),
            PieceType::Queen => self.queen(sq, occ),
            _ => king_attacks(sq),
        }
    }

    /// The colourless form of [`Sliders::from`], for the pieces other than pawns.
    pub fn piece(&self, pt: PieceType, sq: Square, occ: Bitboard) -> (r: Bitboard)
        requires
            self.wf(),
            pt != PieceType::NoType,
            pt != PieceType::Pawn,
        ensures
            forall|t: int| #[trigger]
                r.has(t) == attacks::hits(Color::White, pt, occ.0, sq.idx(), t),
    {
        self.from(Color::White, pt, sq, occ)
    }
}

} // verus!
