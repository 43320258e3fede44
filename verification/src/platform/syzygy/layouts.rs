//! How a table's file is divided: its groups of pieces, its halves of bytes and its regions.

use vstd::prelude::*;
use crate::platform::syzygy::pairs;
use crate::platform::syzygy::table;
use crate::platform::syzygy::table::TbTable;

verus! {

// ---------------------------------------------------------------------------
// Groups
// ---------------------------------------------------------------------------

/// A group ends before piece `i`, and another begins with it.
pub open spec fn parted(lens: Seq<int>, i: int) -> bool {
    exists|g: int| 1 <= g < lens.len() && #[trigger] pairs::members_upto(lens, g) == i
}

proof fn lemma_members_same(a: Seq<int>, b: Seq<int>, n: int)
    requires
        forall|g: int| 0 <= g < n ==> a[g] == b[g],
    ensures
        pairs::members_upto(a, n) == pairs::members_upto(b, n),
    decreases n,
{
    if n > 0 {
        lemma_members_same(a, b, n - 1);
    }
}

/// The groups are runs: they have a piece each at least and all the pieces together, and a new one
/// begins exactly where the kind changes, behind a first group of at least `first` pieces.
#[verifier::spinoff_prover]
pub proof fn law_groups_are_runs(pieces: Seq<u8>, first: int, count: int, i: int)
    requires
        1 <= count,
    ensures
        ({
            let lens = pairs::runs(pieces, first, count);
            &&& lens.len() >= 1
            &&& forall|g: int| 0 <= g < lens.len() ==> #[trigger] lens[g] >= 1
            &&& pairs::members_upto(lens, lens.len() as int) == count
            &&& 0 < i < count ==> parted(lens, i) == (first <= i && pieces[i] != pieces[i - 1])
            &&& parted(lens, i) ==> 0 < i < count
        }),
    decreases count,
{
    let lens = pairs::runs(pieces, first, count);
    if count == 1 {
        assert(lens =~= seq![1int]);
        assert(pairs::members_upto(lens, 1) == 1) by {
            reveal_with_fuel(pairs::members_upto, 3);
        }
    } else {
        law_groups_are_runs(pieces, first, count - 1, i);
        let p = pairs::runs(pieces, first, count - 1);
        let k = p.len() as int;
        let last = count - 1;
        if first - last > 0 || pieces[last] == pieces[last - 1] {
            assert(lens =~= p.drop_last().push(p.last() + 1));
            assert forall|g: int| 0 <= g <= k - 1 implies #[trigger] pairs::members_upto(lens, g)
                == pairs::members_upto(p, g) by {
                lemma_members_same(lens, p, g);
            }
            assert(pairs::members_upto(lens, k) == pairs::members_upto(lens, k - 1) + lens[k - 1]);
            assert(pairs::members_upto(p, k) == pairs::members_upto(p, k - 1) + p[k - 1]);
            assert(parted(lens, i) == parted(p, i)) by {
                if parted(lens, i) {
                    let g = choose|g: int|
                        1 <= g < lens.len() && #[trigger] pairs::members_upto(lens, g) == i;
                    assert(1 <= g < p.len() && pairs::members_upto(p, g) == i);
                }
                if parted(p, i) {
                    let g = choose|g: int|
                        1 <= g < p.len() && #[trigger] pairs::members_upto(p, g) == i;
                    assert(1 <= g < lens.len() && pairs::members_upto(lens, g) == i);
                }
            }
            assert forall|g: int| 0 <= g < lens.len() implies #[trigger] lens[g] >= 1 by {
                assert(p[g] >= 1);
            }
            if i == last {
                assert(!parted(p, i));
            }
        } else {
            assert(lens =~= p.push(1));
            assert forall|g: int| 0 <= g <= k implies #[trigger] pairs::members_upto(lens, g)
                == pairs::members_upto(p, g) by {
                lemma_members_same(lens, p, g);
            }
            assert(pairs::members_upto(lens, k + 1) == pairs::members_upto(lens, k) + lens[k]);
            assert(parted(lens, i) == (parted(p, i) || i == last)) by {
                if parted(lens, i) {
                    let g = choose|g: int|
                        1 <= g < lens.len() && #[trigger] pairs::members_upto(lens, g) == i;
                    if g < k {
                        assert(1 <= g < p.len() && pairs::members_upto(p, g) == i);
                    }
                }
                if parted(p, i) {
                    let g = choose|g: int|
                        1 <= g < p.len() && #[trigger] pairs::members_upto(p, g) == i;
                    assert(1 <= g < lens.len() && pairs::members_upto(lens, g) == i);
                }
                if i == last {
                    assert(1 <= k < lens.len() && pairs::members_upto(lens, k) == i);
                }
            }
            assert forall|g: int| 0 <= g < lens.len() implies #[trigger] lens[g] >= 1 by {
                if g < k {
                    assert(p[g] >= 1);
                }
            }
        }
    }
}

// ---------------------------------------------------------------------------
// Halves of bytes
// ---------------------------------------------------------------------------

/// Where a file has two sides to move, a byte of its front is the first side's number and sixteen
/// times the second's; where it has one, it is that side's with the high half left out.
pub proof fn law_a_byte_has_both_sides(t: &TbTable, f: int, byte: u8)
    requires
        0 <= f,
    ensures
        t.side_count() == 2 ==> byte == t.half(2 * f, byte) + 16 * t.half(2 * f + 1, byte) && 0
            <= t.half(2 * f, byte) < 16,
        t.side_count() == 1 ==> t.half(f, byte) == byte as int % 16,
        t.side_count() == 2 ==> t.front_off(2 * f) == t.front_off(2 * f + 1),
{
    assert((2 * f) / 2 == f && (2 * f + 1) / 2 == f);
    assert((2 * f) % 2 == 0 && (2 * f + 1) % 2 == 1);
}

// ---------------------------------------------------------------------------
// Regions
// ---------------------------------------------------------------------------

/// A rounded offset is the next one that the unit divides.
pub proof fn law_rounding_is_up_to_the_next(off: int, n: int)
    requires
        n > 0,
    ensures
        table::aligned(off, n) % n == 0,
        off <= table::aligned(off, n) < off + n,
{
    let q = (off + n - 1) / n;
    assert(q * n <= off + n - 1 < q * n + n) by (nonlinear_arith)
        requires
            q == (off + n - 1) / n,
            n > 0,
    ;
    vstd::arithmetic::div_mod::lemma_mod_multiples_basic(q, n);
}

/// The counts of a part are not negative.
pub open spec fn counted(t: &TbTable, b: Seq<u8>, n: int) -> bool {
    forall|i: int|
        0 <= i < n ==> #[trigger] t.sparse_count(b, i) >= 0 && t.block_count(b, i) >= 0 && t.payload(
            b,
            i,
        ) >= 0
}

proof fn lemma_regions(t: &TbTable, b: Seq<u8>, i: int, j: int)
    requires
        0 <= i < j <= t.part_count(),
        counted(t, b, t.part_count()),
    ensures
        t.sparse_off(b, i) + 6 * t.sparse_count(b, i) <= t.sparse_off(b, j),
        t.block_off(b, i) + 2 * t.block_count(b, i) <= t.block_off(b, j),
        table::aligned(t.data_end(b, i), 64) + t.payload(b, i) <= t.data_end(b, j),
        t.data_end(b, i) <= t.data_end(b, j),
    decreases j,
{
    law_rounding_is_up_to_the_next(t.data_end(b, j - 1), 64);
    assert(t.sparse_count(b, j - 1) >= 0);
    assert(t.sparse_count(b, i) >= 0);
    if j > i + 1 {
        lemma_regions(t, b, i, j - 1);
    }
}

/// The regions of a file do not overlap: the sparse indices of all parts come first, then their block
/// lengths, then their values, each part's behind those of the parts before it, the values at
/// multiples of 64.
#[verifier::spinoff_prover]
pub proof fn law_regions_do_not_overlap(t: &TbTable, b: Seq<u8>, i: int, j: int)
    requires
        0 <= i < j < t.part_count(),
        counted(t, b, t.part_count()),
    ensures
        t.sparse_off(b, i) + 6 * t.sparse_count(b, i) <= t.sparse_off(b, j),
        t.sparse_off(b, j) + 6 * t.sparse_count(b, j) <= t.block_off(b, i),
        t.block_off(b, i) + 2 * t.block_count(b, i) <= t.block_off(b, j),
        t.block_off(b, j) + 2 * t.block_count(b, j) <= table::aligned(t.data_end(b, i), 64),
        table::aligned(t.data_end(b, i), 64) + t.payload(b, i) <= table::aligned(
            t.data_end(b, j),
            64,
        ),
        table::aligned(t.data_end(b, i), 64) % 64 == 0,
        table::aligned(t.data_end(b, j), 64) + t.payload(b, j) <= t.data_end(b, t.part_count()),
{
    let n = t.part_count();
    lemma_regions(t, b, i, j);
    lemma_regions(t, b, j, n);
    lemma_regions(t, b, i, n);
    law_rounding_is_up_to_the_next(t.data_end(b, i), 64);
    law_rounding_is_up_to_the_next(t.data_end(b, j), 64);
    assert(t.sparse_count(b, i) >= 0);
    if i > 0 {
        lemma_regions(t, b, 0, i);
    }
    assert(t.sparse_count(b, 0) >= 0);
    assert(t.block_off(b, 0) == t.sparse_off(b, n));
    assert(t.data_end(b, 0) == t.block_off(b, n));
    lemma_regions(t, b, j, n);
}

} // verus!
