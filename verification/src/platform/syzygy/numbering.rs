//! An index numbers placements: every placement of a part's men has a number of its own, and no
//! number is out of the part's range.

use vstd::prelude::*;
use crate::platform::syzygy::pairs;
use crate::platform::syzygy::probe;
use crate::platform::syzygy::probe::Man;
use crate::platform::syzygy::tables;

verus! {

// ---------------------------------------------------------------------------
// Sets of squares
// ---------------------------------------------------------------------------

/// Some man from `from` below `to` stands on `x`.
pub open spec fn holds(men: Seq<Man>, from: int, to: int, x: int) -> bool {
    exists|i: int| from <= i < to && (#[trigger] men[i]).sq == x
}

/// The squares of those men.
pub open spec fn stand(men: Seq<Man>, from: int, to: int) -> spec_fn(int) -> bool {
    |x: int| holds(men, from, to, x)
}

/// How many of the numbers from 0 below `m` are in the set.
pub open spec fn count(p: spec_fn(int) -> bool, m: int) -> int
    decreases m,
{
    if m <= 0 {
        0
    } else {
        count(p, m - 1) + (if p(m - 1) {
            1int
        } else {
            0int
        })
    }
}

pub proof fn lemma_count(p: spec_fn(int) -> bool, m: int, n: int)
    requires
        0 <= m <= n,
    ensures
        0 <= count(p, m) <= m,
        count(p, m) <= count(p, n) <= count(p, m) + n - m,
    decreases n,
{
    if n > m {
        lemma_count(p, m, n - 1);
    } else if m > 0 {
        lemma_count(p, m - 1, m - 1);
    }
}

proof fn lemma_count_same(p: spec_fn(int) -> bool, q: spec_fn(int) -> bool, m: int)
    requires
        forall|x: int| 0 <= x < m ==> #[trigger] p(x) == q(x),
    ensures
        count(p, m) == count(q, m),
    decreases m,
{
    if m > 0 {
        lemma_count_same(p, q, m - 1);
        assert(p(m - 1) == q(m - 1));
    }
}

pub proof fn lemma_count_none(p: spec_fn(int) -> bool, m: int, n: int)
    requires
        m <= n,
        forall|x: int| m <= x < n ==> !#[trigger] p(x),
    ensures
        count(p, n) == count(p, m) || m < 0,
    decreases n - m,
{
    if n > m && n > 0 {
        lemma_count_none(p, m, n - 1);
    }
}

/// One number more in the set is one more below every greater one.
proof fn lemma_count_one(p: spec_fn(int) -> bool, q: spec_fn(int) -> bool, z: int, m: int)
    requires
        0 <= z,
        !p(z),
        forall|x: int| #[trigger] q(x) == (p(x) || x == z),
    ensures
        count(q, m) == count(p, m) + (if z < m {
            1int
        } else {
            0int
        }),
    decreases m,
{
    if m > 0 {
        lemma_count_one(p, q, z, m - 1);
        assert(q(m - 1) == (p(m - 1) || m - 1 == z));
    }
}

proof fn lemma_next_man(men: Seq<Man>, from: int, to: int)
    requires
        probe::distinct(men),
        0 <= from < to <= men.len(),
    ensures
        !holds(men, from, to - 1, men[to - 1].sq as int),
        forall|x: int| #[trigger]
            stand(men, from, to)(x) == (stand(men, from, to - 1)(x) || x == men[to - 1].sq),
{
    assert forall|x: int| #[trigger]
        stand(men, from, to)(x) == (stand(men, from, to - 1)(x) || x == men[to - 1].sq) by {
        if holds(men, from, to, x) {
            let i = choose|i: int| from <= i < to && (#[trigger] men[i]).sq == x;
            if i < to - 1 {
                assert(from <= i < to - 1 && men[i].sq == x);
            }
        }
        if holds(men, from, to - 1, x) {
            let i = choose|i: int| from <= i < to - 1 && (#[trigger] men[i]).sq == x;
            assert(from <= i < to && men[i].sq == x);
        }
        if x == men[to - 1].sq {
            assert(from <= to - 1 < to && men[to - 1].sq == x);
        }
    }
}

/// Men on different squares are as many as their squares.
proof fn lemma_lower_counts(men: Seq<Man>, from: int, to: int, x: int)
    requires
        probe::distinct(men),
        0 <= from <= to <= men.len(),
        0 <= x,
    ensures
        probe::lower(men, from, to, x) == count(stand(men, from, to), x),
    decreases to - from,
{
    let p = stand(men, from, to);
    if from < to {
        let q = stand(men, from, to - 1);
        lemma_lower_counts(men, from, to - 1, x);
        lemma_next_man(men, from, to);
        lemma_count_one(q, p, men[to - 1].sq as int, x);
    } else {
        assert forall|y: int| 0 <= y < x implies !#[trigger] p(y) by {}
        lemma_count_none(p, 0, x);
    }
}

proof fn lemma_all_lower(men: Seq<Man>, from: int, to: int, x: int)
    requires
        0 <= from <= to <= men.len(),
        forall|i: int| from <= i < to ==> (#[trigger] men[i]).sq < x,
    ensures
        probe::lower(men, from, to, x) == to - from,
    decreases to - from,
{
    if from < to {
        lemma_all_lower(men, from, to - 1, x);
        assert(men[to - 1].sq < x);
    }
}

// ---------------------------------------------------------------------------
// The number of a set
// ---------------------------------------------------------------------------

/// How many squares from `lo` below `m` are not used.
pub open spec fn free_below(used: spec_fn(int) -> bool, lo: int, m: int) -> int {
    m - lo - count(used, m)
}

/// What a square of a set adds to its number: the ways to place as many men as stand up to it on the
/// free squares below it.
pub open spec fn share(
    used: spec_fn(int) -> bool,
    set: spec_fn(int) -> bool,
    lo: int,
    x: int,
) -> int {
    tables::combos(free_below(used, lo, x), 1 + count(set, x))
}

/// The shares of the squares of `part` below `m`, a part of `set`.
pub open spec fn shares(
    used: spec_fn(int) -> bool,
    set: spec_fn(int) -> bool,
    part: spec_fn(int) -> bool,
    lo: int,
    m: int,
) -> int
    decreases m,
{
    if m <= 0 {
        0
    } else {
        shares(used, set, part, lo, m - 1) + (if part(m - 1) {
            share(used, set, lo, m - 1)
        } else {
            0int
        })
    }
}

proof fn lemma_shares_one(
    used: spec_fn(int) -> bool,
    set: spec_fn(int) -> bool,
    p: spec_fn(int) -> bool,
    q: spec_fn(int) -> bool,
    lo: int,
    z: int,
    m: int,
)
    requires
        0 <= z,
        !p(z),
        forall|x: int| #[trigger] q(x) == (p(x) || x == z),
    ensures
        shares(used, set, q, lo, m) == shares(used, set, p, lo, m) + (if z < m {
            share(used, set, lo, z)
        } else {
            0int
        }),
    decreases m,
{
    if m > 0 {
        lemma_shares_one(used, set, p, q, lo, z, m - 1);
        assert(q(m - 1) == (p(m - 1) || m - 1 == z));
    }
}

pub proof fn lemma_shares_none(
    used: spec_fn(int) -> bool,
    set: spec_fn(int) -> bool,
    p: spec_fn(int) -> bool,
    lo: int,
    m: int,
    n: int,
)
    requires
        0 <= m <= n,
        forall|x: int| m <= x < n ==> !#[trigger] p(x),
    ensures
        shares(used, set, p, lo, n) == shares(used, set, p, lo, m),
    decreases n - m,
{
    if n > m {
        lemma_shares_none(used, set, p, lo, m, n - 1);
    }
}

/// Which square the pawns of the second group are counted from.
pub open spec fn floor_of(pawns: bool) -> int {
    if pawns {
        8
    } else {
        0
    }
}

/// A group's combination goes square by square.
proof fn lemma_combination(men: Seq<Man>, start: int, len: int, pawns: bool, k: int)
    requires
        probe::distinct(men),
        0 <= start,
        0 <= k <= len,
        start + len <= men.len(),
    ensures
        probe::combination(men, start, len, pawns, k) == shares(
            stand(men, 0, start),
            stand(men, start, start + len),
            stand(men, start, start + k),
            floor_of(pawns),
            64,
        ),
    decreases k,
{
    let used = stand(men, 0, start);
    let set = stand(men, start, start + len);
    let lo = floor_of(pawns);
    let q = stand(men, start, start + k);
    if k > 0 {
        let p = stand(men, start, start + k - 1);
        let x = men[start + k - 1].sq as int;
        lemma_combination(men, start, len, pawns, k - 1);
        lemma_next_man(men, start, start + k);
        lemma_shares_one(used, set, p, q, lo, x, 64);
        lemma_lower_counts(men, 0, start, x);
        lemma_lower_counts(men, start, start + len, x);
    } else {
        assert forall|y: int| 0 <= y < 64 implies !#[trigger] q(y) by {}
        lemma_shares_none(used, set, q, lo, 0, 64);
    }
}

pub proof fn lemma_combos(n: int, k: int)
    ensures
        0 <= tables::combos(n, k),
        0 <= n ==> tables::combos(n, 0) == 1,
        0 <= n ==> tables::combos(n + 1, k) == tables::combos(n, k - 1) + tables::combos(n, k),
    decreases n,
{
    reveal_with_fuel(tables::combos, 2);
    if n > 0 {
        lemma_combos(n - 1, k - 1);
        lemma_combos(n - 1, k);
        lemma_combos(n - 1, 0);
    }
    if n >= 0 && k > n + 1 {
        assert(tables::combos(n + 1, k) == 0);
    }
}

/// The set is among the free squares from `lo` below `hi`.
pub open spec fn fits(
    used: spec_fn(int) -> bool,
    set: spec_fn(int) -> bool,
    lo: int,
    hi: int,
) -> bool {
    forall|x: int| #[trigger] set(x) ==> lo <= x < hi && !used(x)
}

pub proof fn lemma_range(
    used: spec_fn(int) -> bool,
    set: spec_fn(int) -> bool,
    lo: int,
    hi: int,
    m: int,
)
    requires
        0 <= lo <= m,
        fits(used, set, lo, hi),
        forall|x: int| #[trigger] used(x) ==> lo <= x,
    ensures
        0 <= free_below(used, lo, m),
        0 <= shares(used, set, set, lo, m) < tables::combos(
            free_below(used, lo, m),
            count(set, m),
        ),
        0 <= count(set, m),
    decreases m - lo,
{
    if m == lo {
        lemma_count_none(used, 0, lo);
        lemma_count_none(set, 0, lo);
        lemma_shares_none(used, set, set, lo, 0, lo);
        lemma_combos(0, 0);
    } else {
        lemma_range(used, set, lo, hi, m - 1);
        let f = free_below(used, lo, m - 1);
        let c = count(set, m);
        lemma_combos(f, c);
        lemma_combos(f, c - 1);
        if used(m - 1) {
            assert(!set(m - 1));
        }
    }
}

pub proof fn lemma_one_to_one(
    used: spec_fn(int) -> bool,
    a: spec_fn(int) -> bool,
    b: spec_fn(int) -> bool,
    lo: int,
    hi: int,
    m: int,
    x: int,
)
    requires
        0 <= lo <= m,
        fits(used, a, lo, hi),
        fits(used, b, lo, hi),
        forall|y: int| #[trigger] used(y) ==> lo <= y,
        count(a, m) == count(b, m),
        shares(used, a, a, lo, m) == shares(used, b, b, lo, m),
        lo <= x < m,
    ensures
        a(x) == b(x),
    decreases m - lo,
{
    lemma_range(used, a, lo, hi, m - 1);
    lemma_range(used, b, lo, hi, m - 1);
    let f = free_below(used, lo, m - 1);
    let c = count(a, m);
    lemma_combos(f, c);
    if a(m - 1) != b(m - 1) {
        assert(false);
    }
    if x < m - 1 {
        lemma_one_to_one(used, a, b, lo, hi, m - 1, x);
    }
}

// ---------------------------------------------------------------------------
// The groups
// ---------------------------------------------------------------------------

/// The men are as an index wants them: on different squares, and where the second group is one of
/// pawns, these and those before them between the first rank and the last.
pub open spec fn grouped(men: Seq<Man>, start: int, len: int, pawns: bool) -> bool {
    &&& probe::distinct(men)
    &&& 0 <= start
    &&& 0 <= len
    &&& start + len <= men.len()
    &&& pawns ==> forall|i: int| 0 <= i < start + len ==> 8 <= (#[trigger] men[i]).sq < 56
}

/// How many squares a group of men can choose from: the board, or the ranks of pawns, without the
/// squares of the men before the group.
pub open spec fn room(start: int, pawns: bool) -> int {
    if pawns {
        48 - start
    } else {
        64 - start
    }
}

pub proof fn lemma_group(men: Seq<Man>, start: int, len: int, pawns: bool)
    requires
        grouped(men, start, len, pawns),
    ensures
        ({
            let used = stand(men, 0, start);
            let set = stand(men, start, start + len);
            let lo = floor_of(pawns);
            let hi = 64 - lo;
            &&& fits(used, set, lo, hi)
            &&& forall|x: int| #[trigger] used(x) ==> lo <= x < hi
            &&& count(used, hi) == start
            &&& count(set, hi) == len
            &&& free_below(used, lo, hi) == room(start, pawns)
            &&& probe::combination(men, start, len, pawns, len) == shares(used, set, set, lo, hi)
        }),
{
    let used = stand(men, 0, start);
    let set = stand(men, start, start + len);
    let lo = floor_of(pawns);
    let hi = 64 - lo;
    assert forall|x: int| #[trigger] used(x) implies lo <= x < hi by {
        let i = choose|i: int| 0 <= i < start && (#[trigger] men[i]).sq == x;
        assert(men[i].sq < 64);
    }
    assert forall|x: int| #[trigger] set(x) implies lo <= x < hi && !used(x) by {
        let i = choose|i: int| start <= i < start + len && (#[trigger] men[i]).sq == x;
        assert(men[i].sq < 64);
        if used(x) {
            let j = choose|j: int| 0 <= j < start && (#[trigger] men[j]).sq == x;
            assert(men[j].sq != men[i].sq);
        }
    }
    lemma_lower_counts(men, 0, start, hi);
    lemma_lower_counts(men, start, start + len, hi);
    assert forall|i: int| 0 <= i < start implies (#[trigger] men[i]).sq < hi by {
        assert(used(men[i].sq as int));
    }
    assert forall|i: int| start <= i < start + len implies (#[trigger] men[i]).sq < hi by {
        assert(set(men[i].sq as int));
    }
    lemma_all_lower(men, 0, start, hi);
    lemma_all_lower(men, start, start + len, hi);
    lemma_combination(men, start, len, pawns, len);
    lemma_shares_none(used, set, set, lo, hi, 64);
}

/// A group's number is below the number of ways to place its men on the squares that the men before
/// it leave.
pub proof fn law_a_groups_number_is_in_range(men: Seq<Man>, start: int, len: int, pawns: bool)
    requires
        grouped(men, start, len, pawns),
    ensures
        0 <= probe::combination(men, start, len, pawns, len) < tables::combos(
            room(start, pawns),
            len,
        ),
{
    lemma_group(men, start, len, pawns);
    let lo = floor_of(pawns);
    lemma_range(stand(men, 0, start), stand(men, start, start + len), lo, 64 - lo, 64 - lo);
}

/// With the men before it on the same squares, a group that stands on other squares has another
/// number: it is told by the squares, not by which of the men stands on which.
pub proof fn law_a_groups_number_tells_its_squares(
    men: Seq<Man>,
    other: Seq<Man>,
    start: int,
    len: int,
    pawns: bool,
    x: int,
)
    requires
        grouped(men, start, len, pawns),
        grouped(other, start, len, pawns),
        forall|y: int| #[trigger] holds(men, 0, start, y) == holds(other, 0, start, y),
        probe::combination(men, start, len, pawns, len) == probe::combination(
            other,
            start,
            len,
            pawns,
            len,
        ),
    ensures
        holds(men, start, start + len, x) == holds(other, start, start + len, x),
{
    let lo = floor_of(pawns);
    let hi = 64 - lo;
    let used = stand(men, 0, start);
    let a = stand(men, start, start + len);
    let b = stand(other, start, start + len);
    lemma_group(men, start, len, pawns);
    lemma_group(other, start, len, pawns);
    assert(used =~= stand(other, 0, start)) by {
        assert forall|y: int| #[trigger] used(y) == stand(other, 0, start)(y) by {
            assert(holds(men, 0, start, y) == holds(other, 0, start, y));
        }
    }
    if lo <= x < hi {
        lemma_one_to_one(used, a, b, lo, hi, hi, x);
    }
    assert(a(x) == b(x));
}

/// Exchanging men within a group changes nothing.
pub proof fn law_equal_squares_have_equal_numbers(
    men: Seq<Man>,
    other: Seq<Man>,
    start: int,
    len: int,
    pawns: bool,
)
    requires
        grouped(men, start, len, pawns),
        grouped(other, start, len, pawns),
        forall|y: int| #[trigger] holds(men, 0, start, y) == holds(other, 0, start, y),
        forall|y: int| #[trigger]
            holds(men, start, start + len, y) == holds(other, start, start + len, y),
    ensures
        probe::combination(men, start, len, pawns, len) == probe::combination(
            other,
            start,
            len,
            pawns,
            len,
        ),
{
    lemma_group(men, start, len, pawns);
    lemma_group(other, start, len, pawns);
    assert(stand(men, 0, start) =~= stand(other, 0, start)) by {
        assert forall|y: int| #[trigger] stand(men, 0, start)(y) == stand(other, 0, start)(y) by {
            assert(holds(men, 0, start, y) == holds(other, 0, start, y));
        }
    }
    assert(stand(men, start, start + len) =~= stand(other, start, start + len)) by {
        assert forall|y: int| #[trigger]
            stand(men, start, start + len)(y) == stand(other, start, start + len)(y) by {
            assert(holds(men, start, start + len, y) == holds(other, start, start + len, y));
        }
    }
}

// ---------------------------------------------------------------------------
// No number is left out
// ---------------------------------------------------------------------------

proof fn lemma_shares_same(
    used: spec_fn(int) -> bool,
    a: spec_fn(int) -> bool,
    b: spec_fn(int) -> bool,
    lo: int,
    m: int,
)
    requires
        forall|x: int| 0 <= x < m ==> #[trigger] a(x) == b(x),
    ensures
        shares(used, a, a, lo, m) == shares(used, b, b, lo, m),
    decreases m,
{
    if m > 0 {
        lemma_shares_same(used, a, b, lo, m - 1);
        lemma_count_same(a, b, m - 1);
        assert(a(m - 1) == b(m - 1));
    }
}

/// The set with a number.
proof fn lemma_set_with(used: spec_fn(int) -> bool, lo: int, m: int, c: int, n: int) -> (set: spec_fn(
    int,
) -> bool)
    requires
        0 <= lo <= m,
        forall|x: int| #[trigger] used(x) ==> lo <= x,
        0 <= c,
        0 <= n < tables::combos(free_below(used, lo, m), c),
    ensures
        fits(used, set, lo, m),
        count(set, m) == c,
        shares(used, set, set, lo, m) == n,
    decreases m - lo,
{
    if m == lo {
        lemma_count_none(used, 0, lo);
        let set = |x: int| false;
        lemma_count_none(set, 0, lo);
        lemma_shares_none(used, set, set, lo, 0, lo);
        reveal_with_fuel(tables::combos, 2);
        assert(c == 0);
        set
    } else if used(m - 1) {
        lemma_set_with(used, lo, m - 1, c, n)
    } else {
        lemma_range(used, |x: int| false, lo, m, m - 1);
        let f = free_below(used, lo, m - 1);
        lemma_combos(f, c);
        if n < tables::combos(f, c) {
            lemma_set_with(used, lo, m - 1, c, n)
        } else {
            if c == 0 {
                lemma_combos(f, -1);
                reveal_with_fuel(tables::combos, 2);
            }
            let part = lemma_set_with(used, lo, m - 1, c - 1, n - tables::combos(f, c));
            let set = |x: int| part(x) || x == m - 1;
            assert forall|x: int| 0 <= x < m - 1 implies #[trigger] part(x) == set(x) by {}
            lemma_shares_same(used, part, set, lo, m - 1);
            lemma_count_same(part, set, m - 1);
            set
        }
    }
}

/// A list of the squares of a set, behind others.
#[verifier::spinoff_prover]
proof fn lemma_listed(front: Seq<Man>, set: spec_fn(int) -> bool, m: int) -> (men: Seq<Man>)
    requires
        probe::distinct(front),
        0 <= m <= 64,
        forall|x: int| 0 <= x < m && #[trigger] set(x) ==> !holds(front, 0, front.len() as int, x),
    ensures
        probe::distinct(men),
        men.len() == front.len() + count(set, m),
        men.subrange(0, front.len() as int) =~= front,
        forall|x: int| #[trigger]
            holds(men, front.len() as int, men.len() as int, x) == (0 <= x < m && set(x)),
    decreases m,
{
    if m == 0 {
        front
    } else {
        let part = lemma_listed(front, set, m - 1);
        lemma_count(set, m - 1, m - 1);
        if set(m - 1) {
            let k = front.len() as int;
            let men = part.push(Man { code: 0, sq: (m - 1) as u8 });
            assert forall|i: int, j: int| 0 <= i < j < men.len() implies (#[trigger] men[i]).sq != (
            #[trigger] men[j]).sq by {
                if j == part.len() {
                    assert(men[i] == part[i]);
                    if i < k {
                        assert(part[i] == part.subrange(0, k)[i]);
                        assert(front[i].sq == part[i].sq);
                        if part[i].sq == m - 1 {
                            assert(holds(front, 0, k, m - 1));
                        }
                    } else if part[i].sq == m - 1 {
                        assert(holds(part, k, part.len() as int, m - 1));
                    }
                } else {
                    assert(part[i].sq != part[j].sq);
                }
            }
            assert forall|i: int| 0 <= i < men.len() implies (#[trigger] men[i]).sq < 64
                && men[i].code < 16 by {
                if i < part.len() {
                    assert(men[i] == part[i]);
                }
            }
            assert forall|x: int| #[trigger]
                holds(men, k, men.len() as int, x) == (0 <= x < m && set(x)) by {
                if holds(men, k, men.len() as int, x) {
                    let i = choose|i: int| k <= i < men.len() && (#[trigger] men[i]).sq == x;
                    if i < part.len() {
                        assert(part[i].sq == x);
                        assert(holds(part, k, part.len() as int, x));
                    }
                }
                if 0 <= x < m && set(x) {
                    if x == m - 1 {
                        assert(men[part.len() as int].sq == x);
                    } else {
                        assert(holds(part, k, part.len() as int, x));
                        let i = choose|i: int| k <= i < part.len() && (#[trigger] part[i]).sq == x;
                        assert(men[i].sq == x);
                    }
                }
            }
            assert(men.subrange(0, k) =~= part.subrange(0, k));
            men
        } else {
            part
        }
    }
}

/// Every number below the number of ways is the number of some placement of the group, behind any
/// men before it.
#[verifier::spinoff_prover]
pub proof fn law_every_number_is_taken(front: Seq<Man>, len: int, pawns: bool, n: int) -> (men: Seq<
    Man,
>)
    requires
        grouped(front, front.len() as int, 0, pawns),
        0 <= len,
        0 <= n < tables::combos(room(front.len() as int, pawns), len),
    ensures
        men.len() == front.len() + len,
        men.subrange(0, front.len() as int) == front,
        grouped(men, front.len() as int, len, pawns),
        probe::combination(men, front.len() as int, len, pawns, len) == n,
{
    let k = front.len() as int;
    let lo = floor_of(pawns);
    let hi = 64 - lo;
    let used = stand(front, 0, k);
    lemma_group(front, k, 0, pawns);
    let set = lemma_set_with(used, lo, hi, len, n);
    assert forall|x: int| 0 <= x < 64 && #[trigger] set(x) implies !holds(front, 0, k, x) by {
        assert(!used(x));
    }
    let men = lemma_listed(front, set, 64);
    lemma_count_none(set, hi, 64);
    assert forall|i: int| 0 <= i < k implies #[trigger] men[i] == front[i] by {
        assert(men.subrange(0, k)[i] == men[i]);
    }
    if pawns {
        assert forall|i: int| 0 <= i < k + len implies 8 <= (#[trigger] men[i]).sq < 56 by {
            if i < k {
                assert(men[i] == front[i]);
                assert(front[i].sq >= 8);
            } else {
                assert(holds(men, k, men.len() as int, men[i].sq as int));
                assert(set(men[i].sq as int));
            }
        }
    }
    lemma_group(men, k, len, pawns);
    assert(stand(men, 0, k) =~= used) by {
        assert forall|x: int| #[trigger] stand(men, 0, k)(x) == used(x) by {
            if holds(men, 0, k, x) {
                let i = choose|i: int| 0 <= i < k && (#[trigger] men[i]).sq == x;
                assert(front[i].sq == x);
            }
            if holds(front, 0, k, x) {
                let i = choose|i: int| 0 <= i < k && (#[trigger] front[i]).sq == x;
                assert(men[i].sq == x);
            }
        }
    }
    assert(stand(men, k, k + len) =~= set) by {
        assert forall|x: int| #[trigger] stand(men, k, k + len)(x) == set(x) by {
            assert(holds(men, k, men.len() as int, x) == (0 <= x < 64 && set(x)));
        }
    }
    men
}

// ---------------------------------------------------------------------------
// The whole index
// ---------------------------------------------------------------------------

/// The order of the groups names each of them once: the first group, the second where it is one of
/// pawns too, and the others in their own order between them.
pub open spec fn ordered(order: (int, int), n: int, both: bool) -> bool {
    &&& 0 <= order.0 < n
    &&& both ==> n >= 2 && 0 <= order.1 < n && order.0 != order.1
    &&& !both ==> order.1 == 15
}

/// How many placements a group has: the first group `lead`, another as many as there are ways to
/// put it on the free squares.
pub open spec fn ways(lens: Seq<int>, lead: int, both: bool, g: int) -> int {
    if g == 0 {
        lead
    } else {
        tables::combos(room(pairs::members_upto(lens, g), both && g == 1), lens[g])
    }
}

/// The numbers of the groups, each times its weight.
pub open spec fn weighed(d: Seq<int>, w: Seq<int>, n: int) -> int
    decreases n,
{
    if n <= 0 {
        0
    } else {
        weighed(d, w, n - 1) + d[n - 1] * w[n - 1]
    }
}

proof fn lemma_weighed_update(d: Seq<int>, w: Seq<int>, n: int, g: int)
    requires
        0 <= g < d.len(),
        n <= d.len(),
    ensures
        weighed(d, w, n) == weighed(d.update(g, 0), w, n) + (if g < n {
            d[g] * w[g]
        } else {
            0int
        }),
    decreases n,
{
    if n > 0 {
        lemma_weighed_update(d, w, n - 1, g);
        assert(0 * w[n - 1] == 0);
    }
}

proof fn lemma_weighed_none(d: Seq<int>, w: Seq<int>, n: int)
    requires
        n <= d.len(),
        forall|g: int| 0 <= g < d.len() ==> #[trigger] d[g] == 0,
    ensures
        weighed(d, w, n) == 0,
    decreases n,
{
    if n > 0 {
        lemma_weighed_none(d, w, n - 1);
        assert(0 * w[n - 1] == 0);
    }
}

/// The groups that have their weight before step `k`.
spec fn settled(order: (int, int), both: bool, k: int, next: int, g: int) -> bool {
    if g == 0 {
        order.0 < k
    } else if g == 1 && both {
        order.1 < k
    } else {
        g < next
    }
}

/// The numbers are those of the groups that have no weight yet.
spec fn pending(
    lens: Seq<int>,
    lead: int,
    order: (int, int),
    both: bool,
    k: int,
    next: int,
    d: Seq<int>,
) -> bool {
    &&& d.len() == lens.len()
    &&& forall|g: int|
        0 <= g < lens.len() ==> if settled(order, both, k, next, g) {
            #[trigger] d[g] == 0
        } else {
            0 <= d[g] < ways(lens, lead, both, g)
        }
}

/// One digit more in front of two numbers.
proof fn lemma_digit(f: int, x: int, y: int, r: int, s: int, q: int, idx: int)
    requires
        0 <= x < f,
        0 <= y < f,
        0 <= r < q,
        0 <= s < q,
    ensures
        0 <= x + f * r < f * q,
        0 <= y + f * s < f * q,
        x + f * r == y + f * s ==> x == y && r == s,
        x * idx + idx * f * r == idx * (x + f * r),
        y * idx + idx * f * s == idx * (y + f * s),
        idx * f * q == idx * (f * q),
{
    assert(0 <= f * r && f * r + f <= f * q) by (nonlinear_arith)
        requires
            0 <= r < q,
            0 <= f,
    ;
    assert(0 <= f * s && f * s + f <= f * q) by (nonlinear_arith)
        requires
            0 <= s < q,
            0 <= f,
    ;
    if x + f * r == y + f * s {
        if r < s {
            assert(f * r + f <= f * s) by (nonlinear_arith)
                requires
                    r + 1 <= s,
                    0 <= f,
            ;
        } else if s < r {
            assert(f * s + f <= f * r) by (nonlinear_arith)
                requires
                    s + 1 <= r,
                    0 <= f,
            ;
        }
    }
    assert(x * idx + idx * f * r == idx * (x + f * r)) by (nonlinear_arith);
    assert(y * idx + idx * f * s == idx * (y + f * s)) by (nonlinear_arith);
    assert(idx * f * q == idx * (f * q)) by (nonlinear_arith);
}

/// From step `k` on the weights make a number of what is pending: digit by digit, each below its
/// group's ways.
#[verifier::spinoff_prover]
#[verifier::rlimit(80)]
proof fn lemma_radix(
    lens: Seq<int>,
    lead: int,
    order: (int, int),
    both: bool,
    k: int,
    next: int,
    free: int,
    idx: int,
    w: Seq<int>,
    d: Seq<int>,
    e: Seq<int>,
) -> (r: (int, int, int))
    requires
        1 <= lens.len() <= 7,
        w.len() == 8,
        ordered(order, lens.len() as int, both),
        (if both {
            2int
        } else {
            1int
        }) <= next <= lens.len(),
        k == next - (if both {
            2int
        } else {
            1int
        }) + (if order.0 < k {
            1int
        } else {
            0int
        }) + (if both && order.1 < k {
            1int
        } else {
            0int
        }),
        free == 64 - pairs::members_upto(lens, next),
        pending(lens, lead, order, both, k, next, d),
        pending(lens, lead, order, both, k, next, e),
    ensures
        ({
            let z = pairs::weights(lens, lead, order, k, next, free, idx, w);
            let n = lens.len() as int;
            &&& weighed(d, z, n) == idx * r.0
            &&& weighed(e, z, n) == idx * r.1
            &&& z[n] == idx * r.2
            &&& 0 <= r.0 < r.2
            &&& 0 <= r.1 < r.2
            &&& r.0 == r.1 ==> d =~= e
            &&& z.len() == 8
            &&& forall|g: int|
                0 <= g < n && settled(order, both, k, next, g) ==> #[trigger] z[g] == w[g]
        }),
    decreases
            lens.len() - next + (if k <= order.0 {
                1int
            } else {
                0int
            }) + (if both && k <= order.1 {
                1int
            } else {
                0int
            }),
{
    let n = lens.len() as int;
    let z = pairs::weights(lens, lead, order, k, next, free, idx, w);
    if next < n || k == order.0 || k == order.1 {
        let g: int = if k == order.0 {
            0
        } else if k == order.1 {
            1
        } else {
            next
        };
        let next2: int = if g == next {
            next + 1
        } else {
            next
        };
        let free2: int = if g == next {
            free - lens[next]
        } else {
            free
        };
        let f = ways(lens, lead, both, g);
        assert(!settled(order, both, k, next, g));
        assert(0 <= d[g] < f && 0 <= e[g] < f);
        if g == 1 && both {
            assert(pairs::members_upto(lens, 1) == lens[0]) by {
                reveal_with_fuel(pairs::members_upto, 3);
            }
        }
        let d2 = d.update(g, 0);
        let e2 = e.update(g, 0);
        assert forall|h: int| 0 <= h < n implies settled(order, both, k + 1, next2, h) == (settled(
            order,
            both,
            k,
            next,
            h,
        ) || h == g) by {}
        assert(pending(lens, lead, order, both, k + 1, next2, d2)) by {
            assert forall|h: int| 0 <= h < lens.len() implies if settled(
                order,
                both,
                k + 1,
                next2,
                h,
            ) {
                #[trigger] d2[h] == 0
            } else {
                0 <= d2[h] < ways(lens, lead, both, h)
            } by {
                assert(d[h] == d[h]);
            }
        }
        assert(pending(lens, lead, order, both, k + 1, next2, e2)) by {
            assert forall|h: int| 0 <= h < lens.len() implies if settled(
                order,
                both,
                k + 1,
                next2,
                h,
            ) {
                #[trigger] e2[h] == 0
            } else {
                0 <= e2[h] < ways(lens, lead, both, h)
            } by {
                assert(e[h] == e[h]);
            }
        }
        let w2 = w.update(g, idx);
        let (a, b, q) = lemma_radix(
            lens,
            lead,
            order,
            both,
            k + 1,
            next2,
            free2,
            idx * f,
            w2,
            d2,
            e2,
        );
        assert(z == pairs::weights(lens, lead, order, k + 1, next2, free2, idx * f, w2));
        assert(settled(order, both, k + 1, next2, g));
        assert(z[g] == idx);
        lemma_weighed_update(d, z, n, g);
        lemma_weighed_update(e, z, n, g);
        lemma_digit(f, d[g], e[g], a, b, q, idx);
        let r = (d[g] + f * a, e[g] + f * b, f * q);
        assert forall|h: int| 0 <= h < n && settled(order, both, k, next, h) implies #[trigger] z[h]
            == w[h] by {
            assert(settled(order, both, k + 1, next2, h));
            assert(h != g);
        }
        if r.0 == r.1 {
            assert forall|h: int| 0 <= h < n implies #[trigger] d[h] == e[h] by {
                if h != g {
                    assert(d2[h] == d[h] && e2[h] == e[h]);
                }
            }
        }
        r
    } else {
        assert forall|g: int| 0 <= g < n implies #[trigger] d[g] == 0 && e[g] == 0 by {
            assert(settled(order, both, k, next, g));
            assert(d[g] == 0);
            assert(e[g] == 0);
        }
        lemma_weighed_none(d, z, n);
        lemma_weighed_none(e, z, n);
        assert(idx * 0 == 0 && idx * 1 == idx);
        (0, 0, 1)
    }
}

/// The product of the ways of the groups below `n` that are not skipped.
pub open spec fn product(
    lens: Seq<int>,
    lead: int,
    both: bool,
    skip: spec_fn(int) -> bool,
    n: int,
) -> int
    decreases n,
{
    if n <= 0 {
        1
    } else {
        product(lens, lead, both, skip, n - 1) * (if skip(n - 1) {
            1int
        } else {
            ways(lens, lead, both, n - 1)
        })
    }
}

proof fn lemma_product_one(
    lens: Seq<int>,
    lead: int,
    both: bool,
    p: spec_fn(int) -> bool,
    q: spec_fn(int) -> bool,
    g: int,
    n: int,
)
    requires
        0 <= g,
        !p(g),
        forall|h: int| 0 <= h < n ==> #[trigger] q(h) == (p(h) || h == g),
    ensures
        product(lens, lead, both, p, n) == (if g < n {
            ways(lens, lead, both, g) * product(lens, lead, both, q, n)
        } else {
            product(lens, lead, both, q, n)
        }),
    decreases n,
{
    if n > 0 {
        lemma_product_one(lens, lead, both, p, q, g, n - 1);
        assert(q(n - 1) == (p(n - 1) || n - 1 == g));
        let a = product(lens, lead, both, q, n - 1);
        let x = ways(lens, lead, both, g);
        let y = if p(n - 1) {
            1int
        } else {
            ways(lens, lead, both, n - 1)
        };
        assert(x * a * y == x * (a * y)) by (nonlinear_arith);
        assert(a * 1 == a);
        assert(a * x == x * a) by (nonlinear_arith);
    }
}

proof fn lemma_product_none(
    lens: Seq<int>,
    lead: int,
    both: bool,
    p: spec_fn(int) -> bool,
    n: int,
)
    requires
        forall|h: int| 0 <= h < n ==> #[trigger] p(h),
    ensures
        product(lens, lead, both, p, n) == 1,
    decreases n,
{
    if n > 0 {
        lemma_product_none(lens, lead, both, p, n - 1);
        assert(p(n - 1));
    }
}

/// Behind the weights stands the product of all groups' ways.
#[verifier::spinoff_prover]
#[verifier::rlimit(60)]
proof fn lemma_size(
    lens: Seq<int>,
    lead: int,
    order: (int, int),
    both: bool,
    k: int,
    next: int,
    free: int,
    idx: int,
    w: Seq<int>,
)
    requires
        1 <= lens.len() <= 7,
        w.len() == 8,
        ordered(order, lens.len() as int, both),
        (if both {
            2int
        } else {
            1int
        }) <= next <= lens.len(),
        k == next - (if both {
            2int
        } else {
            1int
        }) + (if order.0 < k {
            1int
        } else {
            0int
        }) + (if both && order.1 < k {
            1int
        } else {
            0int
        }),
        free == 64 - pairs::members_upto(lens, next),
    ensures
        pairs::weights(lens, lead, order, k, next, free, idx, w)[lens.len() as int] == idx * product(
            lens,
            lead,
            both,
            |g: int| settled(order, both, k, next, g),
            lens.len() as int,
        ),
    decreases
            lens.len() - next + (if k <= order.0 {
                1int
            } else {
                0int
            }) + (if both && k <= order.1 {
                1int
            } else {
                0int
            }),
{
    let n = lens.len() as int;
    let p = |g: int| settled(order, both, k, next, g);
    if next < n || k == order.0 || k == order.1 {
        let g: int = if k == order.0 {
            0
        } else if k == order.1 {
            1
        } else {
            next
        };
        let next2: int = if g == next {
            next + 1
        } else {
            next
        };
        let free2: int = if g == next {
            free - lens[next]
        } else {
            free
        };
        let f = ways(lens, lead, both, g);
        let q = |h: int| settled(order, both, k + 1, next2, h);
        assert(!p(g));
        assert forall|h: int| 0 <= h < n implies #[trigger] q(h) == (p(h) || h == g) by {}
        if g == 1 && both {
            assert(pairs::members_upto(lens, 1) == lens[0]) by {
                reveal_with_fuel(pairs::members_upto, 3);
            }
        }
        lemma_size(lens, lead, order, both, k + 1, next2, free2, idx * f, w.update(g, idx));
        lemma_product_one(lens, lead, both, p, q, g, n);
        let x = product(lens, lead, both, q, n);
        assert(idx * f * x == idx * (f * x)) by (nonlinear_arith);
    } else {
        assert forall|h: int| 0 <= h < n implies #[trigger] p(h) by {}
        lemma_product_none(lens, lead, both, p, n);
        assert(idx * 1 == idx);
    }
}

/// The men of a part, group by group.
pub open spec fn placed(men: Seq<Man>, lens: Seq<int>, both: bool) -> bool {
    &&& probe::distinct(men)
    &&& 1 <= lens.len() <= 7
    &&& forall|g: int| 0 <= g < lens.len() ==> #[trigger] lens[g] >= 1
    &&& men.len() == pairs::members_upto(lens, lens.len() as int)
    &&& both ==> lens.len() >= 2 && forall|i: int|
        0 <= i < pairs::members_upto(lens, 2) ==> 8 <= (#[trigger] men[i]).sq < 56
}

/// The numbers of the groups.
pub open spec fn numbers(men: Seq<Man>, lens: Seq<int>, both: bool, first: int) -> Seq<int> {
    Seq::new(
        lens.len(),
        |g: int|
            if g == 0 {
                first
            } else {
                probe::combination(
                    men,
                    pairs::members_upto(lens, g),
                    lens[g],
                    both && g == 1,
                    lens[g],
                )
            },
    )
}

proof fn lemma_rest(men: Seq<Man>, lens: Seq<int>, w: Seq<int>, both: bool, first: int, g: int)
    requires
        1 <= g <= lens.len(),
    ensures
        weighed(numbers(men, lens, both, first), w, lens.len() as int) == weighed(
            numbers(men, lens, both, first),
            w,
            g,
        ) + probe::rest_index(men, lens, w, g, pairs::members_upto(lens, g), both && g == 1),
    decreases lens.len() - g,
{
    if g < lens.len() {
        lemma_rest(men, lens, w, both, first, g + 1);
    }
}

proof fn lemma_members(lens: Seq<int>, m: int, n: int)
    requires
        0 <= m <= n <= lens.len(),
        forall|g: int| 0 <= g < lens.len() ==> #[trigger] lens[g] >= 1,
    ensures
        m <= pairs::members_upto(lens, m),
        pairs::members_upto(lens, m) + n - m <= pairs::members_upto(lens, n),
    decreases n,
{
    if n > m {
        lemma_members(lens, m, n - 1);
    } else if m > 0 {
        lemma_members(lens, m - 1, m - 1);
        assert(lens[m - 1] >= 1);
    }
}

proof fn lemma_groups(men: Seq<Man>, lens: Seq<int>, both: bool, g: int)
    requires
        placed(men, lens, both),
        1 <= g < lens.len(),
    ensures
        grouped(men, pairs::members_upto(lens, g), lens[g], both && g == 1),
        pairs::members_upto(lens, g + 1) == pairs::members_upto(lens, g) + lens[g],
{
    lemma_members(lens, g, lens.len() as int);
    lemma_members(lens, g + 1, lens.len() as int);
    assert(lens[g] >= 1);
}

proof fn lemma_digits(men: Seq<Man>, lens: Seq<int>, lead: int, order: (int, int), both: bool, first: int)
    requires
        placed(men, lens, both),
        ordered(order, lens.len() as int, both),
        0 <= first < lead,
    ensures
        pending(
            lens,
            lead,
            order,
            both,
            0,
            if both {
                2
            } else {
                1
            },
            numbers(men, lens, both, first),
        ),
{
    let d = numbers(men, lens, both, first);
    assert forall|g: int| 0 <= g < lens.len() implies 0 <= #[trigger] d[g] < ways(
        lens,
        lead,
        both,
        g,
    ) by {
        if g > 0 {
            lemma_groups(men, lens, both, g);
            law_a_groups_number_is_in_range(
                men,
                pairs::members_upto(lens, g),
                lens[g],
                both && g == 1,
            );
        }
    }
}

/// The weights of a part's groups, and behind them its size.
pub open spec fn weights_of(lens: Seq<int>, lead: int, order: (int, int), both: bool) -> Seq<int> {
    pairs::weights(
        lens,
        lead,
        order,
        0,
        if both {
            2
        } else {
            1
        },
        64 - lens[0] - (if both {
            pairs::group_of(lens, 1)
        } else {
            0
        }),
        1,
        Seq::new(8, |k: int| 0),
    )
}

/// The size of a part is the product of its groups' placements.
pub proof fn law_the_size_is_the_product(lens: Seq<int>, lead: int, order: (int, int), both: bool)
    requires
        1 <= lens.len() <= 7,
        ordered(order, lens.len() as int, both),
    ensures
        weights_of(lens, lead, order, both)[lens.len() as int] == product(
            lens,
            lead,
            both,
            |g: int| false,
            lens.len() as int,
        ),
{
    let next: int = if both {
        2
    } else {
        1
    };
    reveal_with_fuel(pairs::members_upto, 3);
    let w: Seq<int> = Seq::new(8, |k: int| 0);
    lemma_size(lens, lead, order, both, 0, next, 64 - pairs::members_upto(lens, next), 1, w);
    let p = |g: int| settled(order, both, 0, next, g);
    lemma_product_same(lens, lead, both, p, |g: int| false, lens.len() as int);
    assert(1 * product(lens, lead, both, p, lens.len() as int) == product(
        lens,
        lead,
        both,
        p,
        lens.len() as int,
    ));
}

proof fn lemma_product_same(
    lens: Seq<int>,
    lead: int,
    both: bool,
    p: spec_fn(int) -> bool,
    q: spec_fn(int) -> bool,
    n: int,
)
    requires
        forall|h: int| 0 <= h < n ==> #[trigger] p(h) == q(h),
    ensures
        product(lens, lead, both, p, n) == product(lens, lead, both, q, n),
    decreases n,
{
    if n > 0 {
        lemma_product_same(lens, lead, both, p, q, n - 1);
        assert(p(n - 1) == q(n - 1));
    }
}

/// The index is a number in mixed radix: it is below the part's size, and two indices that are equal
/// have equal numbers in every group.
#[verifier::spinoff_prover]
proof fn lemma_index(
    men: Seq<Man>,
    other: Seq<Man>,
    lens: Seq<int>,
    lead: int,
    order: (int, int),
    has_pawns: bool,
    unique: bool,
    both: bool,
    count: int,
)
    requires
        placed(men, lens, both),
        placed(other, lens, both),
        ordered(order, lens.len() as int, both),
        0 <= probe::first_number(men, has_pawns, unique, count) < lead,
        0 <= probe::first_number(other, has_pawns, unique, count) < lead,
    ensures
        ({
            let w = weights_of(lens, lead, order, both);
            let i = probe::index_of(men, has_pawns, unique, both, count, lens, w);
            let j = probe::index_of(other, has_pawns, unique, both, count, lens, w);
            let x = probe::first_number(men, has_pawns, unique, count);
            let y = probe::first_number(other, has_pawns, unique, count);
            &&& 0 <= i < w[lens.len() as int]
            &&& i == j ==> numbers(men, lens, both, x) =~= numbers(other, lens, both, y)
        }),
{
    let next: int = if both {
        2
    } else {
        1
    };
    let n = lens.len() as int;
    let x = probe::first_number(men, has_pawns, unique, count);
    let y = probe::first_number(other, has_pawns, unique, count);
    let d = numbers(men, lens, both, x);
    let e = numbers(other, lens, both, y);
    let w = weights_of(lens, lead, order, both);
    lemma_digits(men, lens, lead, order, both, x);
    lemma_digits(other, lens, lead, order, both, y);
    reveal_with_fuel(pairs::members_upto, 3);
    let (a, b, q) = lemma_radix(
        lens,
        lead,
        order,
        both,
        0,
        next,
        64 - pairs::members_upto(lens, next),
        1,
        Seq::new(8, |k: int| 0),
        d,
        e,
    );
    lemma_rest(men, lens, w, both, x, 1);
    lemma_rest(other, lens, w, both, y, 1);
    assert(weighed(d, w, 1) == d[0] * w[0]) by {
        reveal_with_fuel(weighed, 3);
    }
    assert(weighed(e, w, 1) == e[0] * w[0]) by {
        reveal_with_fuel(weighed, 3);
    }
    assert(1 * a == a && 1 * b == b && 1 * q == q);
}

/// Group by group, equal numbers mean equal squares.
#[verifier::spinoff_prover]
proof fn lemma_same_groups(men: Seq<Man>, other: Seq<Man>, lens: Seq<int>, both: bool, x: int, g: int)
    requires
        placed(men, lens, both),
        placed(other, lens, both),
        numbers(men, lens, both, x) == numbers(other, lens, both, x),
        forall|s: int| #[trigger]
            holds(men, 0, lens[0], s) == holds(other, 0, lens[0], s),
        1 <= g <= lens.len(),
    ensures
        forall|s: int| #[trigger]
            holds(men, 0, pairs::members_upto(lens, g), s) == holds(
                other,
                0,
                pairs::members_upto(lens, g),
                s,
            ),
    decreases g,
{
    if g == 1 {
        reveal_with_fuel(pairs::members_upto, 3);
    } else {
        lemma_same_groups(men, other, lens, both, x, g - 1);
        let a = pairs::members_upto(lens, g - 1);
        let b = pairs::members_upto(lens, g);
        lemma_members(lens, g - 1, lens.len() as int);
        lemma_group_squares(men, other, lens, both, x, g - 1);
        assert(pairs::members_upto(lens, (g - 1) + 1) == b);
        assert forall|s: int| #[trigger] holds(men, 0, b, s) == holds(other, 0, b, s) by {
            lemma_joined(men, a, b, s);
            lemma_joined(other, a, b, s);
            assert(holds(men, 0, a, s) == holds(other, 0, a, s));
            assert(holds(men, a, b, s) == holds(other, a, b, s));
        }
    }
}

proof fn lemma_joined(men: Seq<Man>, a: int, b: int, s: int)
    requires
        0 <= a <= b,
    ensures
        holds(men, 0, b, s) == (holds(men, 0, a, s) || holds(men, a, b, s)),
{
    if holds(men, 0, b, s) {
        let i = choose|i: int| 0 <= i < b && (#[trigger] men[i]).sq == s;
        if i < a {
            assert(holds(men, 0, a, s));
        } else {
            assert(holds(men, a, b, s));
        }
    }
    if holds(men, 0, a, s) {
        let i = choose|i: int| 0 <= i < a && (#[trigger] men[i]).sq == s;
        assert(0 <= i < b && men[i].sq == s);
    }
    if holds(men, a, b, s) {
        let i = choose|i: int| a <= i < b && (#[trigger] men[i]).sq == s;
        assert(0 <= i < b && men[i].sq == s);
    }
}

proof fn lemma_group_squares(men: Seq<Man>, other: Seq<Man>, lens: Seq<int>, both: bool, x: int, g: int)
    requires
        placed(men, lens, both),
        placed(other, lens, both),
        numbers(men, lens, both, x) == numbers(other, lens, both, x),
        1 <= g < lens.len(),
        forall|s: int| #[trigger]
            holds(men, 0, pairs::members_upto(lens, g), s) == holds(
                other,
                0,
                pairs::members_upto(lens, g),
                s,
            ),
    ensures
        forall|s: int| #[trigger]
            holds(men, pairs::members_upto(lens, g), pairs::members_upto(lens, g + 1), s) == holds(
                other,
                pairs::members_upto(lens, g),
                pairs::members_upto(lens, g + 1),
                s,
            ),
{
    let a = pairs::members_upto(lens, g);
    lemma_groups(men, lens, both, g);
    lemma_groups(other, lens, both, g);
    let d = numbers(men, lens, both, x);
    let e = numbers(other, lens, both, x);
    let pawns = both && g == 1;
    assert(d[g] == probe::combination(men, a, lens[g], pawns, lens[g]));
    assert(e[g] == probe::combination(other, a, lens[g], pawns, lens[g]));
    assert(d == e);
    assert forall|s: int| #[trigger]
        holds(men, a, pairs::members_upto(lens, g + 1), s) == holds(
            other,
            a,
            pairs::members_upto(lens, g + 1),
            s,
        ) by {
        law_a_groups_number_tells_its_squares(men, other, a, lens[g], pawns, s);
    }
}

/// Every index is below the size of the part, and with the first group alike two placements of the
/// same men that differ in the squares of some group have different indices. Placements whose first
/// groups have different numbers have different indices too.
#[verifier::spinoff_prover]
pub proof fn law_the_index_tells_the_placement(
    men: Seq<Man>,
    other: Seq<Man>,
    lens: Seq<int>,
    lead: int,
    order: (int, int),
    has_pawns: bool,
    unique: bool,
    both: bool,
    count: int,
    g: int,
    s: int,
)
    requires
        placed(men, lens, both),
        placed(other, lens, both),
        ordered(order, lens.len() as int, both),
        0 <= probe::first_number(men, has_pawns, unique, count) < lead,
        0 <= probe::first_number(other, has_pawns, unique, count) < lead,
        0 <= g < lens.len(),
    ensures
        ({
            let w = weights_of(lens, lead, order, both);
            let i = probe::index_of(men, has_pawns, unique, both, count, lens, w);
            let j = probe::index_of(other, has_pawns, unique, both, count, lens, w);
            let a = pairs::members_upto(lens, g);
            let b = pairs::members_upto(lens, g + 1);
            &&& 0 <= i < w[lens.len() as int]
            &&& i == j ==> probe::first_number(men, has_pawns, unique, count)
                == probe::first_number(other, has_pawns, unique, count)
            &&& i == j && (forall|x: int| #[trigger]
                holds(men, 0, lens[0], x) == holds(other, 0, lens[0], x)) ==> holds(men, a, b, s)
                == holds(other, a, b, s)
        }),
{
    lemma_index(men, other, lens, lead, order, has_pawns, unique, both, count);
    let w = weights_of(lens, lead, order, both);
    let i = probe::index_of(men, has_pawns, unique, both, count, lens, w);
    let j = probe::index_of(other, has_pawns, unique, both, count, lens, w);
    let x = probe::first_number(men, has_pawns, unique, count);
    let y = probe::first_number(other, has_pawns, unique, count);
    if i == j {
        assert(numbers(men, lens, both, x)[0] == numbers(other, lens, both, y)[0]);
        if forall|x: int| #[trigger] holds(men, 0, lens[0], x) == holds(other, 0, lens[0], x) {
            let a = pairs::members_upto(lens, g);
            let b = pairs::members_upto(lens, g + 1);
            if g >= 1 {
                lemma_same_groups(men, other, lens, both, x, g);
                lemma_group_squares(men, other, lens, both, x, g);
            } else {
                reveal_with_fuel(pairs::members_upto, 2);
            }
            assert(holds(men, a, b, s) == holds(other, a, b, s));
        }
    }
}

} // verus!
