//! The first group of an index: three pieces, two kings, or the leading pawns, each placement with
//! a number of its own.

use vstd::prelude::*;
use crate::platform::syzygy::numbering;
use crate::platform::syzygy::probe;
use crate::platform::syzygy::probe::Man;
use crate::platform::syzygy::tables;

verus! {

/// A member of a set is counted below every greater number.
proof fn lemma_counted(p: spec_fn(int) -> bool, x: int, y: int)
    requires
        0 <= x < y,
        p(x),
    ensures
        0 <= numbering::count(p, x) < numbering::count(p, y),
{
    numbering::lemma_count(p, x + 1, y);
    numbering::lemma_count(p, x, x);
}

// ---------------------------------------------------------------------------
// Three pieces
// ---------------------------------------------------------------------------

/// Three squares as they are after folding: the first in the triangle from a1 over d1 to d4, and
/// the first of them off the diagonal below it.
pub open spec fn folded_three(s0: int, s1: int, s2: int) -> bool {
    &&& 0 <= s0 < 64 && 0 <= s1 < 64 && 0 <= s2 < 64
    &&& s0 != s1 && s0 != s2 && s1 != s2
    &&& s0 / 8 <= s0 % 8 <= 3
    &&& s0 / 8 == s0 % 8 ==> s1 / 8 <= s1 % 8
    &&& s0 / 8 == s0 % 8 && s1 / 8 == s1 % 8 ==> s2 / 8 <= s2 % 8
}

proof fn lemma_below_row(r: int, f: int)
    requires
        0 <= r < 8,
        0 <= f <= 8,
    ensures
        tables::below_upto(8 * r + f) == tables::below_upto(8 * r) + (if f > r + 1 {
            f - r - 1
        } else {
            0
        }),
    decreases f,
{
    if f > 0 {
        lemma_below_row(r, f - 1);
        assert((8 * r + f - 1) / 8 == r && (8 * r + f - 1) % 8 == f - 1);
    }
}

proof fn lemma_below_total()
    ensures
        tables::below_upto(64) == 28,
{
    assert(tables::below_upto(0) == 0);
    lemma_below_row(0, 8);
    lemma_below_row(1, 8);
    lemma_below_row(2, 8);
    lemma_below_row(3, 8);
    lemma_below_row(4, 8);
    lemma_below_row(5, 8);
    lemma_below_row(6, 8);
    lemma_below_row(7, 8);
}

proof fn lemma_below_count(n: int)
    ensures
        tables::below_upto(n) == numbering::count(|s: int| tables::off_diagonal(s) < 0, n),
    decreases n,
{
    if n > 0 {
        lemma_below_count(n - 1);
    }
}

/// The 28 squares below the diagonal are numbered from 0 on.
pub proof fn law_below_numbers_differ(s: int, t: int)
    requires
        0 <= s < 64,
        0 <= t < 64,
        s / 8 < s % 8,
        t / 8 < t % 8,
    ensures
        0 <= tables::below_number(s) < 28,
        tables::below_number(s) == tables::below_number(t) ==> s == t,
{
    let p = |s: int| tables::off_diagonal(s) < 0;
    lemma_below_count(s);
    lemma_below_count(t);
    lemma_below_count(64);
    lemma_below_total();
    lemma_counted(p, s, 64);
    if s < t {
        lemma_counted(p, s, t);
    }
    if t < s {
        lemma_counted(p, t, s);
    }
}

/// The ten squares of the triangle are numbered from 0 on, the six off the diagonal first.
pub proof fn law_triangle_numbers_differ(s: int, t: int)
    requires
        0 <= s / 8 <= s % 8 <= 3,
        0 <= t / 8 <= t % 8 <= 3,
    ensures
        s / 8 < s % 8 ==> 0 <= tables::triangle_number(s) < 6,
        s / 8 == s % 8 ==> tables::triangle_number(s) == 6 + s / 8,
        tables::triangle_number(s) == tables::triangle_number(t) ==> s == t,
        tables::triangle_square(tables::triangle_number(s)) == s,
{
    lemma_triangle(s);
    lemma_triangle(t);
}

#[verifier::spinoff_prover]
proof fn lemma_triangle(s: int)
    requires
        0 <= s / 8 <= s % 8 <= 3,
    ensures
        s / 8 < s % 8 ==> 0 <= tables::triangle_number(s) < 6,
        s / 8 == s % 8 ==> tables::triangle_number(s) == 6 + s / 8,
        tables::triangle_square(tables::triangle_number(s)) == s,
{
    assert(s == 0 || s == 1 || s == 2 || s == 3 || s == 9 || s == 10 || s == 11 || s == 18 || s == 19
        || s == 27);
    reveal_with_fuel(tables::triangle_upto, 21);
}

proof fn lemma_diagonal(s: int)
    requires
        0 <= s < 64,
        s / 8 == s % 8,
    ensures
        s == 9 * (s / 8),
{
}

proof fn lemma_ranks(s0: int, s1: int, s2: int)
    requires
        0 <= s0 < 64,
        0 <= s1 < 64,
        0 <= s2 < 64,
        s0 != s1,
        s0 != s2,
        s1 != s2,
    ensures
        0 <= s1 - probe::one_if(s1 > s0) < 63,
        0 <= s2 - probe::one_if(s2 > s0) - probe::one_if(s2 > s1) < 62,
{
}

/// The number's case, and its parts.
spec fn three_case(s0: int, s1: int, s2: int) -> int {
    if s0 / 8 != s0 % 8 {
        0
    } else if s1 / 8 != s1 % 8 {
        1
    } else if s2 / 8 != s2 % 8 {
        2
    } else {
        3
    }
}

#[verifier::spinoff_prover]
proof fn lemma_three_range(men: Seq<Man>)
    requires
        folded_three(men[0].sq as int, men[1].sq as int, men[2].sq as int),
    ensures
        ({
            let c = three_case(men[0].sq as int, men[1].sq as int, men[2].sq as int);
            let x = probe::three_number(men);
            &&& c == 0 ==> 0 <= x < 23436
            &&& c == 1 ==> 23436 <= x < 30380
            &&& c == 2 ==> 30380 <= x < 31164
            &&& c == 3 ==> 31164 <= x < 31332
        }),
{
    let (s0, s1, s2) = (men[0].sq as int, men[1].sq as int, men[2].sq as int);
    lemma_ranks(s0, s1, s2);
    lemma_triangle(s0);
    let c = three_case(s0, s1, s2);
    if c == 1 {
        law_below_numbers_differ(s1, s1);
    }
    if c == 2 {
        law_below_numbers_differ(s2, s2);
        lemma_diagonal(s0);
        lemma_diagonal(s1);
    }
    if c == 3 {
        lemma_diagonal(s0);
        lemma_diagonal(s1);
        lemma_diagonal(s2);
    }
}

/// Three pieces that can be told apart have 31332 placements after folding, each with a number of
/// its own.
#[verifier::spinoff_prover]
#[verifier::rlimit(60)]
pub proof fn law_three_pieces_are_told_apart(men: Seq<Man>, other: Seq<Man>)
    requires
        folded_three(men[0].sq as int, men[1].sq as int, men[2].sq as int),
        folded_three(other[0].sq as int, other[1].sq as int, other[2].sq as int),
    ensures
        0 <= probe::three_number(men) < 31332,
        probe::three_number(men) == probe::three_number(other) ==> men[0].sq == other[0].sq
            && men[1].sq == other[1].sq && men[2].sq == other[2].sq,
{
    let (s0, s1, s2) = (men[0].sq as int, men[1].sq as int, men[2].sq as int);
    let (t0, t1, t2) = (other[0].sq as int, other[1].sq as int, other[2].sq as int);
    lemma_three_range(men);
    lemma_three_range(other);
    if probe::three_number(men) == probe::three_number(other) {
        let c = three_case(s0, s1, s2);
        assert(c == three_case(t0, t1, t2));
        lemma_ranks(s0, s1, s2);
        lemma_ranks(t0, t1, t2);
        law_triangle_numbers_differ(s0, t0);
        if c == 0 {
            assert(s0 == t0);
            assert(s1 == t1);
        } else if c == 1 {
            law_below_numbers_differ(s1, t1);
            law_below_numbers_differ(t1, s1);
            assert(s0 / 8 == t0 / 8);
            lemma_diagonal(s0);
            lemma_diagonal(t0);
        } else if c == 2 {
            law_below_numbers_differ(s2, t2);
            law_below_numbers_differ(t2, s2);
            lemma_diagonal(s0);
            lemma_diagonal(t0);
            lemma_diagonal(s1);
            lemma_diagonal(t1);
            assert(s0 / 8 == t0 / 8);
        } else {
            lemma_diagonal(s0);
            lemma_diagonal(t0);
            lemma_diagonal(s1);
            lemma_diagonal(t1);
            lemma_diagonal(s2);
            lemma_diagonal(t2);
            assert(s0 / 8 == t0 / 8);
        }
    }
}

// ---------------------------------------------------------------------------
// Two kings
// ---------------------------------------------------------------------------

proof fn lemma_first_count(n: int)
    ensures
        tables::first_upto(n) == numbering::count(|m: int| tables::first_pass(m), n),
    decreases n,
{
    if n > 0 {
        lemma_first_count(n - 1);
    }
}

proof fn lemma_second_count(n: int)
    ensures
        tables::second_upto(n) == numbering::count(|m: int| tables::second_pass(m), n),
    decreases n,
{
    if n > 0 {
        lemma_second_count(n - 1);
    }
}

/// Two kings as they are after folding: the first on a square of the triangle, the second not on it
/// nor next to it, and not above the diagonal where the first is on it.
pub open spec fn folded_kings(s0: int, s1: int) -> bool {
    &&& 0 <= s0 < 64 && 0 <= s1 < 64
    &&& s0 / 8 <= s0 % 8 <= 3
    &&& s0 / 8 - s1 / 8 > 1 || s1 / 8 - s0 / 8 > 1 || s0 % 8 - s1 % 8 > 1 || s1 % 8 - s0 % 8 > 1
    &&& s0 / 8 == s0 % 8 ==> s1 / 8 <= s1 % 8
}

/// The numbers of two folded kings differ where the kings stand differently, and are below the
/// number of such placements.
#[verifier::spinoff_prover]
pub proof fn law_two_kings_are_told_apart(s0: int, s1: int, t0: int, t1: int)
    requires
        folded_kings(s0, s1),
        folded_kings(t0, t1),
    ensures
        ({
            let x = tables::kings_number(tables::triangle_number(s0), s1);
            let y = tables::kings_number(tables::triangle_number(t0), t1);
            &&& 0 <= x < tables::first_upto(640) + tables::second_upto(640)
            &&& x == y ==> s0 == t0 && s1 == t1
        }),
{
    law_triangle_numbers_differ(s0, t0);
    law_triangle_numbers_differ(t0, s0);
    let i = tables::triangle_number(s0);
    let j = tables::triangle_number(t0);
    let m = 64 * i + s1;
    let n = 64 * j + t1;
    assert(m / 64 == i && m % 64 == s1 && n / 64 == j && n % 64 == t1);
    assert(tables::kings_apart(i, s1) && tables::kings_apart(j, t1));
    lemma_king_order(m, n);
    lemma_king_order(n, m);
}

#[verifier::spinoff_prover]
proof fn lemma_king_order(m: int, n: int)
    requires
        0 <= m < 640,
        0 <= n < 640,
        tables::kings_apart(m / 64, m % 64),
        tables::kings_apart(n / 64, n % 64),
    ensures
        ({
            let x = tables::kings_number(m / 64, m % 64);
            let y = tables::kings_number(n / 64, n % 64);
            &&& 0 <= x < tables::first_upto(640) + tables::second_upto(640)
            &&& m < n ==> x != y
        }),
{
    let p = |k: int| tables::first_pass(k);
    let q = |k: int| tables::second_pass(k);
    lemma_first_count(m);
    lemma_first_count(n);
    lemma_first_count(640);
    lemma_second_count(m);
    lemma_second_count(n);
    lemma_second_count(640);
    numbering::lemma_count(p, 640, 640);
    numbering::lemma_count(q, 640, 640);
    numbering::lemma_count(p, m, m);
    numbering::lemma_count(q, m, m);
    numbering::lemma_count(q, n, n);
    assert(p(m) || q(m));
    assert(p(n) || q(n));
    if p(m) {
        lemma_counted(p, m, 640);
        if m < n {
            lemma_counted(p, m, n);
        }
    } else {
        lemma_counted(q, m, 640);
        if m < n {
            lemma_counted(q, m, n);
        }
    }
    if p(n) {
        lemma_counted(p, n, 640);
    }
}

/// How many of the first `f` files of rank `r` are open to the second king in the first pass, the
/// first on rank `kr` and file `kf`.
#[verifier::opaque]
spec fn open_files(kr: int, kf: int, r: int, f: int) -> int {
    let lo = if kr == kf {
        r + 1
    } else {
        0
    };
    let near = if kf - 1 > lo {
        kf - 1
    } else {
        lo
    };
    let all = if f > lo {
        f - lo
    } else {
        0
    };
    let shut = if f <= near || near >= kf + 2 {
        0
    } else if f >= kf + 2 {
        kf + 2 - near
    } else {
        f - near
    };
    if r - kr > 1 || kr - r > 1 {
        all
    } else {
        all - shut
    }
}

/// The file of rank `r` that is open to the second king in the second pass: its own diagonal.
#[verifier::opaque]
spec fn open_diagonal(kr: int, kf: int, r: int, f: int) -> int {
    if kr == kf && f > r && (r - kr > 1 || kr - r > 1) {
        1
    } else {
        0
    }
}

#[verifier::spinoff_prover]
proof fn lemma_king_files(i: int, kr: int, kf: int, r: int, f: int)
    requires
        0 <= i < 10,
        tables::triangle_square(i) == 8 * kr + kf,
        0 <= kr <= kf <= 3,
        0 <= r < 8,
        0 <= f <= 8,
    ensures
        tables::first_upto(64 * i + 8 * r + f) == tables::first_upto(64 * i + 8 * r) + open_files(
            kr,
            kf,
            r,
            f,
        ),
        tables::second_upto(64 * i + 8 * r + f) == tables::second_upto(64 * i + 8 * r)
            + open_diagonal(kr, kf, r, f),
    decreases f,
{
    if f > 0 {
        lemma_king_files(i, kr, kf, r, f - 1);
        lemma_king_file(i, kr, kf, r, f);
    } else {
        reveal(open_files);
        reveal(open_diagonal);
    }
}

#[verifier::spinoff_prover]
proof fn lemma_king_file(i: int, kr: int, kf: int, r: int, f: int)
    requires
        0 <= i < 10,
        tables::triangle_square(i) == 8 * kr + kf,
        0 <= kr <= kf <= 3,
        0 <= r < 8,
        1 <= f <= 8,
    ensures
        ({
            let n = 64 * i + 8 * r + f - 1;
            &&& open_files(kr, kf, r, f) == open_files(kr, kf, r, f - 1) + (if tables::first_pass(n) {
                1int
            } else {
                0int
            })
            &&& open_diagonal(kr, kf, r, f) == open_diagonal(kr, kf, r, f - 1) + (
            if tables::second_pass(n) {
                1int
            } else {
                0int
            })
        }),
{
    let t = 8 * r + f - 1;
    let n = 64 * i + t;
    assert(n / 64 == i && n % 64 == t);
    assert(t / 8 == r && t % 8 == f - 1);
    let s = 8 * kr + kf;
    assert(s / 8 == kr && s % 8 == kf);
    reveal(open_files);
    reveal(open_diagonal);
    let near = -1 <= r - kr <= 1 && -1 <= f - 1 - kf <= 1;
    assert(tables::kings_apart(i, t) == (!near && !(kr == kf && r > f - 1)));
    assert(tables::both_on_diagonal(i, t) == (kr == kf && r == f - 1));
}

#[verifier::spinoff_prover]
proof fn lemma_king_rows(i: int, kr: int, kf: int, r: int)
    requires
        0 <= i < 10,
        tables::triangle_square(i) == 8 * kr + kf,
        0 <= kr <= kf <= 3,
        0 <= r <= 8,
    ensures
        tables::first_upto(64 * i + 8 * r) == tables::first_upto(64 * i) + open_ranks(kr, kf, r),
        tables::second_upto(64 * i + 8 * r) == tables::second_upto(64 * i) + open_diagonals(
            kr,
            kf,
            r,
        ),
    decreases r,
{
    if r > 0 {
        lemma_king_rows(i, kr, kf, r - 1);
        lemma_king_files(i, kr, kf, r - 1, 8);
    }
}

/// The open files of the first `r` ranks.
spec fn open_ranks(kr: int, kf: int, r: int) -> int
    decreases r,
{
    if r <= 0 {
        0
    } else {
        open_ranks(kr, kf, r - 1) + open_files(kr, kf, r - 1, 8)
    }
}

/// The open squares of the diagonal on the first `r` ranks.
spec fn open_diagonals(kr: int, kf: int, r: int) -> int
    decreases r,
{
    if r <= 0 {
        0
    } else {
        open_diagonals(kr, kf, r - 1) + open_diagonal(kr, kf, r - 1, 8)
    }
}

/// Two folded kings have 462 placements.
#[verifier::spinoff_prover]
pub proof fn law_kings_have_462_placements()
    ensures
        tables::first_upto(640) == 441,
        tables::second_upto(640) == 21,
{
    reveal(open_files);
    reveal(open_diagonal);
    reveal_with_fuel(open_ranks, 9);
    reveal_with_fuel(open_diagonals, 9);
    assert(tables::first_upto(0) == 0 && tables::second_upto(0) == 0);
    lemma_king_rows(0, 0, 1, 8);
    lemma_king_rows(1, 0, 2, 8);
    lemma_king_rows(2, 0, 3, 8);
    lemma_king_rows(3, 1, 2, 8);
    lemma_king_rows(4, 1, 3, 8);
    lemma_king_rows(5, 2, 3, 8);
    lemma_king_rows(6, 0, 0, 8);
    lemma_king_rows(7, 1, 1, 8);
    lemma_king_rows(8, 2, 2, 8);
    lemma_king_rows(9, 3, 3, 8);
}

// ---------------------------------------------------------------------------
// Leading pawns
// ---------------------------------------------------------------------------

/// The leading pawns as they are after folding: the first on the a to d files, with the highest
/// number of them all.
pub open spec fn folded_pawns(men: Seq<Man>, count: int) -> bool {
    &&& probe::distinct(men)
    &&& 1 <= count <= 5
    &&& count <= men.len()
    &&& men[0].sq % 8 < 4
    &&& forall|i: int| 0 <= i < count ==> 8 <= (#[trigger] men[i]).sq < 56
    &&& forall|i: int|
        1 <= i < count ==> tables::pawn_number((#[trigger] men[i]).sq as int)
            < tables::pawn_number(men[0].sq as int)
}

/// The 48 squares of pawns are numbered from 0 on: the nearer to the edge the higher, on a file the
/// lower the higher.
#[verifier::spinoff_prover]
pub proof fn law_pawn_numbers_differ(s: int, t: int)
    requires
        8 <= s < 56,
        8 <= t < 56,
    ensures
        0 <= tables::pawn_number(s) < 48,
        tables::pawn_number(s) == tables::pawn_number(t) ==> s == t,
        s % 8 == t % 8 && s < t ==> tables::pawn_number(s) > tables::pawn_number(t),
        tables::edge(s % 8) < tables::edge(t % 8) ==> tables::pawn_number(s) > tables::pawn_number(
            t,
        ),
        tables::edge(s % 8) == tables::edge(t % 8) && s / 8 < t / 8 ==> tables::pawn_number(s)
            > tables::pawn_number(t),
{
}

/// The pawns behind the first, each on the square that its number names.
spec fn numbered(men: Seq<Man>, count: int) -> Seq<Man> {
    Seq::new(
        (count - 1) as nat,
        |i: int| Man { code: 0, sq: tables::pawn_number(men[i + 1].sq as int) as u8 },
    )
}

proof fn lemma_numbered(men: Seq<Man>, count: int)
    requires
        folded_pawns(men, count),
    ensures
        ({
            let e = numbered(men, count);
            &&& probe::distinct(e)
            &&& e.len() == count - 1
            &&& forall|i: int|
                0 <= i < count - 1 ==> (#[trigger] e[i]).sq == tables::pawn_number(
                    men[i + 1].sq as int,
                ) && e[i].sq < tables::pawn_number(men[0].sq as int)
        }),
{
    let e = numbered(men, count);
    law_pawn_numbers_differ(men[0].sq as int, men[0].sq as int);
    assert forall|i: int| 0 <= i < count - 1 implies (#[trigger] e[i]).sq == tables::pawn_number(
        men[i + 1].sq as int,
    ) && e[i].sq < tables::pawn_number(men[0].sq as int) by {
        assert(8 <= men[i + 1].sq < 56);
        law_pawn_numbers_differ(men[i + 1].sq as int, men[i + 1].sq as int);
    }
    assert forall|i: int, j: int| 0 <= i < j < e.len() implies (#[trigger] e[i]).sq != (
    #[trigger] e[j]).sq by {
        assert(8 <= men[i + 1].sq < 56 && 8 <= men[j + 1].sq < 56);
        assert(men[i + 1].sq != men[j + 1].sq);
        law_pawn_numbers_differ(men[i + 1].sq as int, men[j + 1].sq as int);
    }
}

proof fn lemma_fewer(men: Seq<Man>, count: int, to: int, x: int)
    requires
        folded_pawns(men, count),
        1 <= to <= count,
    ensures
        probe::fewer(men, 1, to, x) == probe::lower(numbered(men, count), 0, to - 1, x),
    decreases to,
{
    lemma_numbered(men, count);
    if to > 1 {
        lemma_fewer(men, count, to - 1, x);
        assert(numbered(men, count)[to - 2].sq == tables::pawn_number(men[to - 1].sq as int));
    }
}

proof fn lemma_lead(men: Seq<Man>, count: int, k: int)
    requires
        folded_pawns(men, count),
        1 <= k <= count,
    ensures
        probe::lead_combination(men, count, k) == probe::combination(
            numbered(men, count),
            0,
            count - 1,
            false,
            k - 1,
        ),
    decreases k,
{
    lemma_numbered(men, count);
    if k > 1 {
        lemma_lead(men, count, k - 1);
        let x = tables::pawn_number(men[k - 1].sq as int);
        assert(numbered(men, count)[k - 2].sq == x);
        lemma_fewer(men, count, count, x);
        assert(probe::lower(numbered(men, count), 0, 0, x) == 0);
    }
}

/// The numbers of the pawns behind the first.
spec fn lead_set(men: Seq<Man>, count: int) -> spec_fn(int) -> bool {
    numbering::stand(numbered(men, count), 0, count - 1)
}

/// Nobody is on any square.
spec fn nobody() -> spec_fn(int) -> bool {
    |x: int| false
}

proof fn lemma_lead_shares(men: Seq<Man>, count: int)
    requires
        folded_pawns(men, count),
    ensures
        ({
            let p = tables::pawn_number(men[0].sq as int);
            let set = lead_set(men, count);
            &&& 0 <= p < 48
            &&& numbering::fits(nobody(), set, 0, p)
            &&& numbering::count(set, p) == count - 1
            &&& probe::lead_combination(men, count, count) == numbering::shares(
                nobody(),
                set,
                set,
                0,
                p,
            )
            &&& numbering::free_below(nobody(), 0, p) == p
        }),
{
    let e = numbered(men, count);
    let p = tables::pawn_number(men[0].sq as int);
    let set = lead_set(men, count);
    lemma_numbered(men, count);
    lemma_lead(men, count, count);
    law_pawn_numbers_differ(men[0].sq as int, men[0].sq as int);
    numbering::lemma_group(e, 0, count - 1, false);
    assert(numbering::stand(e, 0, 0) =~= nobody()) by {
        assert forall|x: int| #[trigger] numbering::stand(e, 0, 0)(x) == nobody()(x) by {}
    }
    assert forall|x: int| #[trigger] set(x) implies 0 <= x < p by {
        let i = choose|i: int| 0 <= i < count - 1 && (#[trigger] e[i]).sq == x;
        assert(e[i].sq < p);
    }
    numbering::lemma_shares_none(nobody(), set, set, 0, p, 64);
    numbering::lemma_count_none(set, p, 64);
    numbering::lemma_count_none(nobody(), 0, p);
}

proof fn lemma_starts(c: int, f: int, r: int, q: int)
    requires
        1 <= r <= q,
    ensures
        tables::lead_start(c, f, r) <= tables::lead_start(c, f, q),
    decreases q,
{
    if q > r {
        lemma_starts(c, f, r, q - 1);
        numbering::lemma_combos(tables::pawn_number(8 * (q - 1) + f), c - 1);
    }
}

proof fn lemma_lead_range(men: Seq<Man>, count: int)
    requires
        folded_pawns(men, count),
    ensures
        ({
            let s = men[0].sq as int;
            let x = probe::first_number(men, true, false, count);
            let y = probe::first_number(men, true, true, count);
            &&& x == y
            &&& tables::lead_start(count, s % 8, s / 8) <= x < tables::lead_start(
                count,
                s % 8,
                s / 8 + 1,
            )
            &&& x == tables::lead_start(count, s % 8, s / 8) + probe::lead_combination(
                men,
                count,
                count,
            )
        }),
{
    let s = men[0].sq as int;
    let p = tables::pawn_number(s);
    lemma_lead_shares(men, count);
    numbering::lemma_range(nobody(), lead_set(men, count), 0, p, p);
    assert(8 <= men[0].sq < 56);
    assert(8 * (s / 8) + s % 8 == s);
    assert(tables::lead_start(count, s % 8, s / 8 + 1) == tables::lead_start(count, s % 8, s / 8)
        + tables::combos(p, count - 1));
}

/// The leading pawns of a file have as many numbers as the file's first ranks take together, and
/// other squares have another number: the first pawn by its square, the others by theirs, whichever
/// stands on which.
pub proof fn law_leading_pawns_are_told_apart(men: Seq<Man>, other: Seq<Man>, count: int, x: int)
    requires
        folded_pawns(men, count),
        folded_pawns(other, count),
        men[0].sq % 8 == other[0].sq % 8,
    ensures
        0 <= probe::first_number(men, true, false, count) < tables::lead_start(
            count,
            men[0].sq as int % 8,
            7,
        ),
        probe::first_number(men, true, true, count) == probe::first_number(men, true, false, count),
        probe::first_number(men, true, false, count) == probe::first_number(
            other,
            true,
            false,
            count,
        ) ==> men[0].sq == other[0].sq && numbering::holds(men, 1, count, x) == numbering::holds(
            other,
            1,
            count,
            x,
        ),
{
    let s = men[0].sq as int;
    let t = other[0].sq as int;
    let f = s % 8;
    lemma_lead_range(men, count);
    lemma_lead_range(other, count);
    assert(8 <= men[0].sq < 56 && 8 <= other[0].sq < 56);
    lemma_starts(count, f, s / 8 + 1, 7);
    lemma_starts(count, f, 1, s / 8);
    if probe::first_number(men, true, false, count) == probe::first_number(other, true, false, count) {
        if s / 8 < t / 8 {
            lemma_starts(count, f, s / 8 + 1, t / 8);
        }
        if t / 8 < s / 8 {
            lemma_starts(count, f, t / 8 + 1, s / 8);
        }
        assert(s == t);
        let p = tables::pawn_number(s);
        lemma_lead_shares(men, count);
        lemma_lead_shares(other, count);
        let a = lead_set(men, count);
        let b = lead_set(other, count);
        assert forall|y: int| #[trigger] a(y) == b(y) by {
            if 0 <= y < p {
                numbering::lemma_one_to_one(nobody(), a, b, 0, p, p, y);
            }
        }
        if numbering::holds(men, 1, count, x) {
            lemma_same_pawns(men, other, count, x);
        }
        if numbering::holds(other, 1, count, x) {
            lemma_same_pawns(other, men, count, x);
        }
    }
}

proof fn lemma_same_pawns(men: Seq<Man>, other: Seq<Man>, count: int, x: int)
    requires
        folded_pawns(men, count),
        folded_pawns(other, count),
        forall|y: int| #[trigger] lead_set(men, count)(y) == lead_set(other, count)(y),
        numbering::holds(men, 1, count, x),
    ensures
        numbering::holds(other, 1, count, x),
{
    let e = numbered(men, count);
    let d = numbered(other, count);
    lemma_numbered(men, count);
    lemma_numbered(other, count);
    let i = choose|i: int| 1 <= i < count && (#[trigger] men[i]).sq == x;
    let y = tables::pawn_number(x);
    assert(e[i - 1].sq == y);
    assert(lead_set(men, count)(y));
    assert(lead_set(other, count)(y));
    let j = choose|j: int| 0 <= j < count - 1 && (#[trigger] d[j]).sq == y;
    assert(8 <= men[i].sq < 56 && 8 <= other[j + 1].sq < 56);
    law_pawn_numbers_differ(x, other[j + 1].sq as int);
    assert(other[j + 1].sq == x);
}

} // verus!
