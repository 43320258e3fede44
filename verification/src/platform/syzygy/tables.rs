//! The numbers that a table's index is made of.
//!
//! A table is a flat array of values, and a position's place in it is one number. The tables
//! here keep that number small: they fold the symmetries of the board, number the placements
//! of two kings that do not touch, and count combinations rather than permutations.

use vstd::prelude::*;
use crate::board::bitboard;
use crate::board::bitboard::king_attacks;
use crate::board::types::{File, Square};

verus! {

/// The most pieces that a table covers.
pub const TB_PIECES: usize = 7;

/// How far a square is off the diagonal from a1 to h8: negative below it, positive above.
pub open spec fn off_diagonal(s: int) -> int {
    s / 8 - s % 8
}

/// How far a square is off the diagonal from a1 to h8.
pub fn off_a1h8(sq: Square) -> (r: i32)
    ensures
        r == off_diagonal(sq.idx()),
{
    let i = sq.index();
    (i / 8) as i32 - (i % 8) as i32
}

// ---------------------------------------------------------------------------
// Squares
// ---------------------------------------------------------------------------

/// How many of the first `n` squares are below the diagonal.
pub open spec fn below_upto(n: int) -> int
    decreases n,
{
    if n <= 0 {
        0
    } else {
        below_upto(n - 1) + (if off_diagonal(n - 1) < 0 {
            1int
        } else {
            0int
        })
    }
}

/// The number of a square below the diagonal.
pub open spec fn below_number(s: int) -> int {
    if off_diagonal(s) < 0 {
        below_upto(s)
    } else {
        0
    }
}

/// A square of the triangle a1, d1, d4 that is off the diagonal.
pub open spec fn in_triangle(s: int) -> bool {
    s <= 27 && off_diagonal(s) < 0 && s % 8 <= 3
}

/// How many of the first `n` squares are in the triangle and off the diagonal.
pub open spec fn triangle_upto(n: int) -> int
    decreases n,
{
    if n <= 0 {
        0
    } else {
        triangle_upto(n - 1) + (if in_triangle(n - 1) {
            1int
        } else {
            0int
        })
    }
}

/// The number of a square of the triangle: the six off the diagonal first, then the four on
/// it.
pub open spec fn triangle_number(s: int) -> int {
    if in_triangle(s) {
        triangle_upto(s)
    } else if s <= 27 && off_diagonal(s) == 0 {
        6 + s / 8
    } else {
        0
    }
}

/// The square of the triangle with a number.
pub open spec fn triangle_square(i: int) -> int {
    if i < 3 {
        i + 1
    } else if i < 5 {
        i + 7
    } else if i < 6 {
        19
    } else {
        9 * (i - 6)
    }
}

/// Every square of the triangle has the number that its square has.
pub proof fn law_triangle_numbers(i: int)
    requires
        0 <= i < 10,
    ensures
        triangle_number(triangle_square(i)) == i,
{
    reveal_with_fuel(triangle_upto, 21);
}

// ---------------------------------------------------------------------------
// Two kings
// ---------------------------------------------------------------------------

/// The kings do not touch, and with the first on the diagonal the second is not above it.
pub open spec fn kings_apart(i: int, t: int) -> bool {
    let s = triangle_square(i);
    &&& s != t
    &&& !bitboard::king_hits(s, t)
    &&& !(off_diagonal(s) == 0 && off_diagonal(t) > 0)
}

/// Both kings are on the diagonal.
pub open spec fn both_on_diagonal(i: int, t: int) -> bool {
    off_diagonal(triangle_square(i)) == 0 && off_diagonal(t) == 0
}

/// The placement is numbered in the first pass.
pub open spec fn first_pass(n: int) -> bool {
    kings_apart(n / 64, n % 64) && !both_on_diagonal(n / 64, n % 64)
}

/// The placement is numbered in the second pass.
pub open spec fn second_pass(n: int) -> bool {
    kings_apart(n / 64, n % 64) && both_on_diagonal(n / 64, n % 64)
}

/// How many of the first `n` placements are numbered in the first pass.
pub open spec fn first_upto(n: int) -> int
    decreases n,
{
    if n <= 0 {
        0
    } else {
        first_upto(n - 1) + (if first_pass(n - 1) {
            1int
        } else {
            0int
        })
    }
}

/// How many of the first `n` placements are numbered in the second pass.
pub open spec fn second_upto(n: int) -> int
    decreases n,
{
    if n <= 0 {
        0
    } else {
        second_upto(n - 1) + (if second_pass(n - 1) {
            1int
        } else {
            0int
        })
    }
}

/// The number of a placement of two kings, the first given by its number in the triangle: the
/// placements with both on the diagonal come last. A placement that does not count has no
/// number of its own and reads as zero.
pub open spec fn kings_number(i: int, t: int) -> int {
    let n = 64 * i + t;
    if first_pass(n) {
        first_upto(n)
    } else if second_pass(n) {
        first_upto(640) + second_upto(n)
    } else {
        0
    }
}

// ---------------------------------------------------------------------------
// Combinations
// ---------------------------------------------------------------------------

/// The number of ways to choose `k` of `n`.
pub open spec fn combos(n: int, k: int) -> int
    decreases n,
{
    if k < 0 || k > n {
        0
    } else if n <= 0 {
        1
    } else {
        combos(n - 1, k - 1) + combos(n - 1, k)
    }
}

/// A bound of the ways to choose `k` of at most 64.
pub open spec fn cap(k: int) -> int {
    if k <= 0 {
        1
    } else if k == 1 {
        64
    } else if k == 2 {
        4096
    } else if k == 3 {
        262144
    } else if k == 4 {
        16777216
    } else {
        1073741824
    }
}

pub proof fn lemma_choose(n: int, k: int)
    requires
        0 <= n <= 64,
        0 <= k <= 5,
    ensures
        0 <= combos(n, k) <= cap(k),
        k >= 1 ==> combos(n, k) <= n * cap(k - 1),
    decreases n,
{
    if n > 0 {
        lemma_choose(n - 1, k);
        if k > 0 {
            lemma_choose(n - 1, k - 1);
            let c = cap(k - 1);
            assert((n - 1) * c + c == n * c) by (nonlinear_arith);
            assert(n * c <= 64 * c) by (nonlinear_arith)
                requires
                    n <= 64,
                    0 <= c,
            ;
        } else {
            lemma_choose_none(n);
        }
    } else if k >= 1 {
        assert(n * cap(k - 1) == 0) by (nonlinear_arith)
            requires
                n == 0,
        ;
    }
}

proof fn lemma_choose_none(n: int)
    requires
        0 <= n,
    ensures
        combos(n, 0) == 1,
    decreases n,
{
    reveal_with_fuel(combos, 2);
    if n > 0 {
        lemma_choose_none(n - 1);
    }
}

// ---------------------------------------------------------------------------
// Pawns
// ---------------------------------------------------------------------------

/// How far a file is from the nearest edge.
pub open spec fn edge(f: int) -> int {
    if f < 4 {
        f
    } else {
        7 - f
    }
}

/// The number of a pawn's square: the nearer to an edge and the lower, the higher the number.
pub open spec fn pawn_number(s: int) -> int {
    if 8 <= s < 56 {
        47 - 12 * edge(s % 8) - 2 * (s / 8 - 1) - (if s % 8 > 3 {
            1int
        } else {
            0int
        })
    } else {
        0
    }
}

/// Where the index of the leading pawn on file `f` and rank `r` starts, with `c` leading pawns:
/// what the lower ranks of the file take.
pub open spec fn lead_start(c: int, f: int, r: int) -> int
    decreases r,
{
    if r <= 1 {
        0
    } else {
        lead_start(c, f, r - 1) + combos(pawn_number(8 * (r - 1) + f), c - 1)
    }
}

pub proof fn lemma_lead_start(c: int, f: int, r: int)
    requires
        1 <= c <= 5,
        0 <= f < 4,
        1 <= r <= 7,
    ensures
        0 <= lead_start(c, f, r) <= (r - 1) * cap(c - 1),
    decreases r,
{
    if r > 1 {
        lemma_lead_start(c, f, r - 1);
        lemma_choose(pawn_number(8 * (r - 1) + f), c - 1);
        let x = cap(c - 1);
        assert((r - 2) * x + x == (r - 1) * x) by (nonlinear_arith);
    }
}

/// Everything that an index is computed with.
#[derive(Debug)]
pub struct IndexTables {
    pub map_pawns: Vec<i32>,
    pub map_b1h1h7: Vec<i32>,
    pub map_a1d1d4: Vec<i32>,
    pub map_kk: Vec<Vec<i32>>,
    pub binomial: Vec<Vec<i32>>,
    pub lead_pawn_idx: Vec<Vec<i32>>,
    pub lead_pawns_size: Vec<Vec<i32>>,
}

/// The index of the leading pawn on a square, with `c` leading pawns.
pub open spec fn lead_number(c: int, s: int) -> int {
    if 1 <= c && s % 8 < 4 && 8 <= s < 56 {
        lead_start(c, s % 8, s / 8)
    } else {
        0
    }
}

impl IndexTables {
    pub open spec fn wf(&self) -> bool {
        &&& self.map_pawns@.len() == 64
        &&& forall|s: int| 0 <= s < 64 ==> #[trigger] self.map_pawns@[s] == pawn_number(s)
        &&& self.map_b1h1h7@.len() == 64
        &&& forall|s: int| 0 <= s < 64 ==> #[trigger] self.map_b1h1h7@[s] == below_number(s)
        &&& self.map_a1d1d4@.len() == 64
        &&& forall|s: int| 0 <= s < 64 ==> #[trigger] self.map_a1d1d4@[s] == triangle_number(s)
        &&& self.map_kk@.len() == 10
        &&& forall|i: int|
            0 <= i < 10 ==> (#[trigger] self.map_kk@[i])@.len() == 64 && forall|t: int|
                0 <= t < 64 ==> #[trigger] self.map_kk@[i]@[t] == kings_number(i, t)
        &&& self.binomial@.len() == 6
        &&& forall|k: int|
            0 <= k < 6 ==> (#[trigger] self.binomial@[k])@.len() == 64 && forall|n: int|
                0 <= n < 64 ==> #[trigger] self.binomial@[k]@[n] == combos(n, k)
        &&& self.lead_pawn_idx@.len() == 6
        &&& forall|c: int|
            0 <= c < 6 ==> (#[trigger] self.lead_pawn_idx@[c])@.len() == 64 && forall|s: int|
                0 <= s < 64 ==> #[trigger] self.lead_pawn_idx@[c]@[s] == lead_number(c, s)
        &&& self.lead_pawns_size@.len() == 6
        &&& forall|c: int|
            0 <= c < 6 ==> (#[trigger] self.lead_pawns_size@[c])@.len() == 4 && forall|f: int|
                0 <= f < 4 ==> #[trigger] self.lead_pawns_size@[c]@[f] == (if c == 0 {
                    0
                } else {
                    lead_start(c, f, 7)
                })
    }

    fn build_squares() -> (r: (Vec<i32>, Vec<i32>, Vec<i32>))
        ensures
            r.0@.len() == 64,
            r.1@.len() == 64,
            r.2@.len() == 64,
            forall|s: int| 0 <= s < 64 ==> #[trigger] r.0@[s] == pawn_number(s),
            forall|s: int| 0 <= s < 64 ==> #[trigger] r.1@[s] == below_number(s),
            forall|s: int| 0 <= s < 64 ==> #[trigger] r.2@[s] == triangle_number(s),
    {
        let mut pawns: Vec<i32> = Vec::new();
        let mut below: Vec<i32> = Vec::new();
        let mut triangle: Vec<i32> = Vec::new();
        let mut b: i32 = 0;
        let mut t: i32 = 0;
        let mut s: usize = 0;
        while s < 64
            invariant
                s <= 64,
                pawns@.len() == s,
                below@.len() == s,
                triangle@.len() == s,
                b == below_upto(s as int),
                t == triangle_upto(s as int),
                0 <= b <= s,
                0 <= t <= s,
                forall|k: int| 0 <= k < s ==> #[trigger] pawns@[k] == pawn_number(k),
                forall|k: int| 0 <= k < s ==> #[trigger] below@[k] == below_number(k),
                forall|k: int| 0 <= k < s ==> #[trigger] triangle@[k] == triangle_number(k),
            decreases 64 - s,
        {
            let f: i32 = (s % 8) as i32;
            let r: i32 = (s / 8) as i32;
            if s >= 8 && s < 56 {
                if f > 3 {
                    pawns.push(47 - 12 * (7 - f) - 2 * (r - 1) - 1);
                } else {
                    pawns.push(47 - 12 * f - 2 * (r - 1));
                }
            } else {
                pawns.push(0);
            }
            if r < f {
                below.push(b);
                b += 1;
            } else {
                below.push(0);
            }
            if s <= 27 && r < f && f <= 3 {
                triangle.push(t);
                t += 1;
            } else if s <= 27 && r == f {
                triangle.push(6 + r);
            } else {
                triangle.push(0);
            }
            s += 1;
        }
        (pawns, below, triangle)
    }

    /// Whether a placement of two kings counts, and in which pass it is numbered.
    fn kings_pass(i: usize, t: usize) -> (r: (bool, bool))
        requires
            i < 10,
            t < 64,
        ensures
            r.0 == kings_apart(i as int, t as int),
            r.1 == both_on_diagonal(i as int, t as int),
    {
        broadcast use Square::lemma_idx;

        let s: usize = if i < 3 {
            i + 1
        } else if i < 5 {
            i + 7
        } else if i < 6 {
            19
        } else {
            9 * (i - 6)
        };
        let first = Square::new(s);
        let second = Square::new(t);
        let touching = s == t || king_attacks(first).contains(second);
        let a = off_a1h8(first);
        let b = off_a1h8(second);
        (!touching && !(a == 0 && b > 0), a == 0 && b == 0)
    }

    fn build_kings() -> (r: Vec<Vec<i32>>)
        ensures
            r@.len() == 10,
            forall|i: int|
                0 <= i < 10 ==> (#[trigger] r@[i])@.len() == 64 && forall|t: int|
                    0 <= t < 64 ==> #[trigger] r@[i]@[t] == kings_number(i, t),
    {
        let mut total: i32 = 0;
        let mut n: usize = 0;
        while n < 640
            invariant
                n <= 640,
                total == first_upto(n as int),
                0 <= total <= n,
            decreases 640 - n,
        {
            let (apart, both) = IndexTables::kings_pass(n / 64, n % 64);
            if apart && !both {
                total += 1;
            }
            n += 1;
        }
        let mut rows: Vec<Vec<i32>> = Vec::new();
        let mut one: i32 = 0;
        let mut two: i32 = 0;
        let mut i: usize = 0;
        while i < 10
            invariant
                i <= 10,
                rows@.len() == i,
                total == first_upto(640),
                0 <= total <= 640,
                one == first_upto(64 * i as int),
                two == second_upto(64 * i as int),
                0 <= one <= 64 * i,
                0 <= two <= 64 * i,
                forall|k: int|
                    0 <= k < i ==> (#[trigger] rows@[k])@.len() == 64 && forall|t: int|
                        0 <= t < 64 ==> #[trigger] rows@[k]@[t] == kings_number(k, t),
            decreases 10 - i,
        {
            let mut row: Vec<i32> = Vec::new();
            let mut t: usize = 0;
            while t < 64
                invariant
                    i < 10,
                    t <= 64,
                    row@.len() == t,
                    total == first_upto(640),
                    0 <= total <= 640,
                    one == first_upto(64 * i + t),
                    two == second_upto(64 * i + t),
                    0 <= one <= 64 * i + t,
                    0 <= two <= 64 * i + t,
                    forall|k: int|
                        0 <= k < t ==> #[trigger] row@[k] == kings_number(i as int, k),
                decreases 64 - t,
            {
                let (apart, both) = IndexTables::kings_pass(i, t);
                let ghost n = 64 * i + t;
                assert(n / 64 == i && n % 64 == t);
                if apart && !both {
                    row.push(one);
                    one += 1;
                } else if apart {
                    row.push(total + two);
                    two += 1;
                } else {
                    row.push(0);
                }
                t += 1;
            }
            rows.push(row);
            i += 1;
        }
        rows
    }

    fn build_binomial() -> (r: Vec<Vec<i32>>)
        ensures
            r@.len() == 6,
            forall|k: int|
                0 <= k < 6 ==> (#[trigger] r@[k])@.len() == 64 && forall|n: int|
                    0 <= n < 64 ==> #[trigger] r@[k]@[n] == combos(n, k),
    {
        let mut rows: Vec<Vec<i32>> = Vec::new();
        let mut k: usize = 0;
        while k < 6
            invariant
                k <= 6,
                rows@.len() == k,
                forall|j: int|
                    0 <= j < k ==> (#[trigger] rows@[j])@.len() == 64 && forall|n: int|
                        0 <= n < 64 ==> #[trigger] rows@[j]@[n] == combos(n, j),
            decreases 6 - k,
        {
            let mut row: Vec<i32> = Vec::new();
            let mut n: usize = 0;
            while n < 64
                invariant
                    k < 6,
                    n <= 64,
                    rows@.len() == k,
                    row@.len() == n,
                    forall|j: int|
                        0 <= j < k ==> (#[trigger] rows@[j])@.len() == 64 && forall|m: int|
                            0 <= m < 64 ==> #[trigger] rows@[j]@[m] == combos(m, j),
                    forall|m: int| 0 <= m < n ==> #[trigger] row@[m] == combos(m, k as int),
                decreases 64 - n,
            {
                proof {
                    lemma_choose(n as int, k as int);
                    lemma_choose_none(n as int);
                    if n > 0 {
                        lemma_choose(n - 1, k as int);
                    }
                }
                if k > n {
                    row.push(0);
                } else if k == 0 || n == 0 {
                    row.push(1);
                } else {
                    proof {
                        lemma_choose(n - 1, k - 1);
                        assert(rows@[k - 1]@[n - 1] == combos(n - 1, k - 1));
                    }
                    let a: i32 = rows[k - 1][n - 1];
                    let b: i32 = row[n - 1];
                    row.push(a + b);
                }
                n += 1;
            }
            rows.push(row);
            k += 1;
        }
        rows
    }

    /// The row of lead-pawn indices for `c` leading pawns, and the sizes of its files.
    fn build_lead(c: usize, pawns: &Vec<i32>, binomial: &Vec<Vec<i32>>) -> (r: (Vec<i32>, Vec<i32>))
        requires
            c <= 5,
            pawns@.len() == 64,
            forall|s: int| 0 <= s < 64 ==> #[trigger] pawns@[s] == pawn_number(s),
            binomial@.len() == 6,
            forall|k: int|
                0 <= k < 6 ==> (#[trigger] binomial@[k])@.len() == 64 && forall|n: int|
                    0 <= n < 64 ==> #[trigger] binomial@[k]@[n] == combos(n, k),
        ensures
            r.0@.len() == 64,
            r.1@.len() == 4,
            forall|s: int| 0 <= s < 64 ==> #[trigger] r.0@[s] == lead_number(c as int, s),
            forall|f: int|
                0 <= f < 4 ==> #[trigger] r.1@[f] == (if c == 0 {
                    0
                } else {
                    lead_start(c as int, f, 7)
                }),
    {
        let mut row: Vec<i32> = Vec::new();
        // The running index of each of the four files.
        let mut run: Vec<i32> = Vec::new();
        run.push(0);
        run.push(0);
        run.push(0);
        run.push(0);
        let mut s: usize = 0;
        while s < 64
            invariant
                c <= 5,
                s <= 64,
                pawns@.len() == 64,
                forall|k: int| 0 <= k < 64 ==> #[trigger] pawns@[k] == pawn_number(k),
                binomial@.len() == 6,
                forall|k: int|
                    0 <= k < 6 ==> (#[trigger] binomial@[k])@.len() == 64 && forall|n: int|
                        0 <= n < 64 ==> #[trigger] binomial@[k]@[n] == combos(n, k),
                row@.len() == s,
                run@.len() == 4,
                forall|k: int| 0 <= k < s ==> #[trigger] row@[k] == lead_number(c as int, k),
                forall|f: int|
                    0 <= f < 4 ==> #[trigger] run@[f] == (if c == 0 {
                        0
                    } else {
                        lead_start(c as int, f, seen_rank(s as int, f))
                    }),
            decreases 64 - s,
        {
            let f: usize = s % 8;
            if c >= 1 && f < 4 && s >= 8 && s < 56 {
                let start: i32 = run[f];
                row.push(start);
                let ghost rank = s as int / 8;
                assert(seen_rank(s as int, f as int) == rank);
                assert(seen_rank(s + 1, f as int) == rank + 1);
                assert(8 * rank + f == s);
                assert(0 <= pawns@[s as int] < 48);
                let p: usize = pawns[s] as usize;
                assert(binomial@[c - 1]@.len() == 64);
                let more: i32 = binomial[c - 1][p];
                proof {
                    lemma_lead_start(c as int, f as int, rank);
                    lemma_lead_start(c as int, f as int, rank + 1);
                    assert(rank * cap(c - 1) <= 7 * cap(c - 1)) by (nonlinear_arith)
                        requires
                            rank <= 7,
                            cap(c - 1) >= 0,
                    ;
                }
                run.set(f, start + more);
            } else {
                row.push(0);
            }
            proof {
                assert forall|g: int| 0 <= g < 4 implies #[trigger] run@[g] == (if c == 0 {
                    0
                } else {
                    lead_start(c as int, g, seen_rank(s + 1, g))
                }) by {
                    if g != f || s < 8 || s >= 56 {
                        assert(seen_rank(s + 1, g) == seen_rank(s as int, g));
                    }
                }
            }
            s += 1;
        }
        proof {
            assert forall|g: int| 0 <= g < 4 implies #[trigger] run@[g] == (if c == 0 {
                0
            } else {
                lead_start(c as int, g, 7)
            }) by {
                assert(seen_rank(64, g) == 7);
            }
        }
        (row, run)
    }

    /// The tables.
    pub fn build() -> (r: IndexTables)
        ensures
            r.wf(),
    {
        let (map_pawns, map_b1h1h7, map_a1d1d4) = IndexTables::build_squares();
        let map_kk = IndexTables::build_kings();
        let binomial = IndexTables::build_binomial();
        let mut lead_pawn_idx: Vec<Vec<i32>> = Vec::new();
        let mut lead_pawns_size: Vec<Vec<i32>> = Vec::new();
        let mut c: usize = 0;
        while c < 6
            invariant
                c <= 6,
                map_pawns@.len() == 64,
                forall|s: int| 0 <= s < 64 ==> #[trigger] map_pawns@[s] == pawn_number(s),
                binomial@.len() == 6,
                forall|k: int|
                    0 <= k < 6 ==> (#[trigger] binomial@[k])@.len() == 64 && forall|n: int|
                        0 <= n < 64 ==> #[trigger] binomial@[k]@[n] == combos(n, k),
                lead_pawn_idx@.len() == c,
                lead_pawns_size@.len() == c,
                forall|k: int|
                    0 <= k < c ==> (#[trigger] lead_pawn_idx@[k])@.len() == 64 && forall|s: int|
                        0 <= s < 64 ==> #[trigger] lead_pawn_idx@[k]@[s] == lead_number(k, s),
                forall|k: int|
                    0 <= k < c ==> (#[trigger] lead_pawns_size@[k])@.len() == 4 && forall|f: int|
                        0 <= f < 4 ==> #[trigger] lead_pawns_size@[k]@[f] == (if k == 0 {
                            0
                        } else {
                            lead_start(k, f, 7)
                        }),
            decreases 6 - c,
        {
            let (row, sizes) = IndexTables::build_lead(c, &map_pawns, &binomial);
            lead_pawn_idx.push(row);
            lead_pawns_size.push(sizes);
            c += 1;
        }
        IndexTables {
            map_pawns,
            map_b1h1h7,
            map_a1d1d4,
            map_kk,
            binomial,
            lead_pawn_idx,
            lead_pawns_size,
        }
    }

    /// Whether the pawn on `a` comes behind the one on `b`.
    pub fn pawn_less(&self, a: Square, b: Square) -> (r: bool)
        requires
            self.wf(),
        ensures
            r == (pawn_number(a.idx()) < pawn_number(b.idx())),
    {
        broadcast use Square::lemma_idx;

        self.map_pawns[a.index()] < self.map_pawns[b.index()]
    }
}

/// The first rank of file `f` that the first `n` squares do not hold, between the second and
/// the eighth.
spec fn seen_rank(n: int, f: int) -> int {
    if n <= 8 + f {
        1
    } else if n > 48 + f {
        7
    } else {
        (n - f - 1) / 8 + 1
    }
}

// ---------------------------------------------------------------------------
// The four parts of a table with pawns
// ---------------------------------------------------------------------------

/// Which of the four parts of a table with pawns a position belongs to.
#[derive(Clone, Copy, Debug, PartialEq, Eq, PartialOrd, Ord, Hash, Structural)]
pub struct TbFile(pub u8);

impl TbFile {
    /// The only part of a table without pawns.
    pub fn only() -> (r: TbFile)
        ensures
            r == TbFile(0),
    {
        TbFile(0)
    }

    /// The last part of a table with pawns.
    pub fn max_pawnful() -> (r: TbFile)
        ensures
            r == TbFile(3),
    {
        TbFile(3)
    }

    /// The part for a leading pawn on a file: how far the file is from the nearest edge.
    pub fn for_board_file(file: File) -> (r: TbFile)
        ensures
            r.0 == edge(file.idx()),
    {
        let f: u8 = file.index() as u8;
        if f < 4 {
            TbFile(f)
        } else {
            TbFile(7 - f)
        }
    }

    /// The part as an index.
    pub fn index(self) -> (r: usize)
        ensures
            r == self.0,
    {
        self.0 as usize
    }

    /// Every part up to this one.
    pub fn up_to(self) -> (r: Vec<TbFile>)
        ensures
            r@ == Seq::new((self.0 + 1) as nat, |i: int| TbFile(i as u8)),
    {
        let mut r: Vec<TbFile> = Vec::new();
        let mut i: u8 = 0;
        while i < self.0
            invariant
                i <= self.0,
                r@ == Seq::new(i as nat, |k: int| TbFile(k as u8)),
            decreases self.0 - i,
        {
            r.push(TbFile(i));
            i += 1;
            assert(r@ =~= Seq::new(i as nat, |k: int| TbFile(k as u8)));
        }
        r.push(self);
        assert(r@ =~= Seq::new((self.0 + 1) as nat, |k: int| TbFile(k as u8)));
        r
    }
}

} // verus!
