//! What the bytes of a file say of a position: the lists of distances, and the verdicts.

use vstd::prelude::*;
use crate::platform::syzygy::pairs;
use crate::platform::syzygy::pairs::PairsData;
use crate::platform::syzygy::probe::{ProbeState, Wdl};
use crate::platform::syzygy::table;
use crate::platform::syzygy::table::{Loaded, TbTable, TbType};

verus! {

/// Where the list after the one at `p` starts: past the byte that counts its numbers, and past as
/// many bytes.
pub open spec fn past(b: Seq<u8>, p: int) -> int {
    p + 1 + b[p]
}

/// The two bytes at `p`, the low one first.
pub open spec fn pair_at(b: Seq<u8>, p: int) -> int {
    b[p] + 256 * b[p + 1]
}

/// Where the list after the one at `p` starts, when every number has two bytes.
pub open spec fn past_wide(b: Seq<u8>, p: int) -> int {
    p + 2 + 2 * pair_at(b, p)
}

proof fn lemma_even_sizes(t: &TbTable, b: Seq<u8>, i: int)
    ensures
        t.size_off(b, i) % 2 == 0,
    decreases i,
{
    if i > 0 {
        lemma_even_sizes(t, b, i - 1);
        let off = t.size_off(b, i - 1);
        let n = pairs::symbols(b, off);
        assert((3 * n + n % 2) % 2 == 0);
    }
}

proof fn lemma_slots(b: Seq<u8>, p: int)
    ensures
        table::slot_off(b, p, false, 0) == p,
        table::slot_off(b, p, false, 1) == past(b, p),
        table::slot_off(b, p, false, 2) == past(b, past(b, p)),
        table::slot_off(b, p, false, 3) == past(b, past(b, past(b, p))),
        table::slot_off(b, p, false, 4) == past(b, past(b, past(b, past(b, p)))),
{
    reveal_with_fuel(table::slot_off, 6);
}

proof fn lemma_part(t: &TbTable, l: &Loaded, file: int)
    requires
        t.kind == TbType::Dtz,
        t.laid_out(l),
        0 <= file < t.file_count(),
    ensures
        t.part_of(0, file) == file,
        0 <= file < l.items@.len(),
        l.items@[file].flags == t.flags_of(l.bytes@, file),
        t.mapped(&l.items@[file], l.bytes@, file),
        l.map == t.map_base(l.bytes@),
        t.map_base(l.bytes@) % 2 == 0,
{
    assert(t.side_count() == 1);
    assert(t.part_count() == t.file_count());
    assert(t.is_part(&l.items@[file], l.bytes@, file));
    lemma_even_sizes(t, l.bytes@, t.part_count());
}

/// In a table of distances the lists of a part stand one behind the other, first that of the wins,
/// then those of the losses, of the cursed wins and of the blessed losses, each a count and its
/// numbers. A stored value says which number of the verdict's list is meant, from 1 on. A win or a
/// loss counts plies where the part's flags say so, else moves; the other two count moves. The
/// answer is one ply more.
#[verifier::spinoff_prover]
pub proof fn law_each_verdict_has_its_list(t: &TbTable, l: &Loaded, file: int, v: int)
    requires
        t.kind == TbType::Dtz,
        t.laid_out(l),
        0 <= file < t.file_count(),
        (t.flags_of(l.bytes@, file) / 2) % 2 == 1,
        (t.flags_of(l.bytes@, file) / 16) % 2 == 0,
        0 <= v,
    ensures
        ({
            let b = l.bytes@;
            let flags = t.flags_of(b, file);
            let win = t.map_start(b, file);
            let loss = past(b, win);
            let cursed = past(b, loss);
            let blessed = past(b, cursed);
            &&& 0 <= win + v < b.len() ==> t.score(l, file, v, Wdl::Win) == Ok::<int, ProbeState>(
                (if (flags / 4) % 2 == 1 {
                    b[win + v] as int
                } else {
                    2 * b[win + v]
                }) + 1,
            )
            &&& 0 <= loss + v < b.len() ==> t.score(l, file, v, Wdl::Loss) == Ok::<int, ProbeState>(
                (if (flags / 8) % 2 == 1 {
                    b[loss + v] as int
                } else {
                    2 * b[loss + v]
                }) + 1,
            )
            &&& 0 <= cursed + v < b.len() ==> t.score(l, file, v, Wdl::CursedWin) == Ok::<
                int,
                ProbeState,
            >(2 * b[cursed + v] + 1)
            &&& 0 <= blessed + v < b.len() ==> t.score(l, file, v, Wdl::BlessedLoss) == Ok::<
                int,
                ProbeState,
            >(2 * b[blessed + v] + 1)
            &&& win + v >= b.len() ==> t.score(l, file, v, Wdl::Win) == Err::<int, ProbeState>(
                ProbeState::Fail,
            )
            &&& loss + v >= b.len() ==> t.score(l, file, v, Wdl::Loss) == Err::<int, ProbeState>(
                ProbeState::Fail,
            )
        }),
{
    let b = l.bytes@;
    let d = l.items@[file];
    lemma_part(t, l, file);
    lemma_slots(b, t.map_start(b, file));
    let base = t.map_base(b);
    assert(!t.wide_at(b, file));
    assert forall|j: int| 0 <= j < 4 implies #[trigger] d.map_idx@[j] == table::slot_off(
        b,
        t.map_start(b, file),
        false,
        j,
    ) - base + 1 by {}
    assert(d.map_idx@[0] >= 0 && d.map_idx@[1] >= 0 && d.map_idx@[2] >= 0 && d.map_idx@[3] >= 0);
}

/// Where the lists of two-byte numbers stand.
#[verifier::spinoff_prover]
proof fn lemma_wide_places(t: &TbTable, l: &Loaded, file: int)
    requires
        t.kind == TbType::Dtz,
        t.laid_out(l),
        0 <= file < t.file_count(),
        pairs::is_set(t.flags_of(l.bytes@, file), pairs::FLAG_MAPPED),
        t.wide_at(l.bytes@, file),
        0 <= t.map_start(l.bytes@, file),
    ensures
        ({
            let b = l.bytes@;
            let p = t.map_start(b, file);
            &&& table::slot_off(b, p, true, 0) == p
            &&& table::slot_off(b, p, true, 1) == past_wide(b, p)
            &&& table::slot_off(b, p, true, 2) == past_wide(b, past_wide(b, p))
            &&& table::slot_off(b, p, true, 3) == past_wide(b, past_wide(b, past_wide(b, p)))
            &&& p % 2 == 0
        }),
{
    let b = l.bytes@;
    let p = t.map_start(b, file);
    let base = t.map_base(b);
    assert(t.maps_ok_upto(b, t.file_count()));
    assert(table::slot_ok(b, base, table::slot_off(b, p, t.wide_at(b, file), 0), true));
    assert(table::slot_ok(b, base, table::slot_off(b, p, t.wide_at(b, file), 1), true));
    assert(table::slot_ok(b, base, table::slot_off(b, p, t.wide_at(b, file), 2), true));
    assert(table::slot_off(b, p, true, 0) == p);
    assert(table::slot_off(b, p, true, 1) == past_wide(b, p));
    assert(table::slot_off(b, p, true, 2) == past_wide(b, past_wide(b, p)));
    assert(table::slot_off(b, p, true, 3) == past_wide(b, past_wide(b, past_wide(b, p))));
}

/// What is read of a list of two-byte numbers.
#[verifier::spinoff_prover]
proof fn lemma_wide_read(t: &TbTable, l: &Loaded, file: int, v: int, w: Wdl)
    requires
        t.kind == TbType::Dtz,
        t.laid_out(l),
        0 <= file < t.file_count(),
        pairs::is_set(t.flags_of(l.bytes@, file), pairs::FLAG_MAPPED),
        t.wide_at(l.bytes@, file),
        0 <= v,
        0 <= t.map_start(l.bytes@, file),
    ensures
        ({
            let b = l.bytes@;
            let at = table::slot_off(b, t.map_start(b, file), true, TbTable::map_for(w)) + 2 * v;
            0 <= at && at + 2 <= b.len() ==> t.distance(l, &l.items@[file], v, w) == Some(
                pair_at(b, at),
            )
        }),
{
    let b = l.bytes@;
    let d = l.items@[file];
    let p = t.map_start(b, file);
    let j = TbTable::map_for(w);
    lemma_part(t, l, file);
    lemma_wide_places(t, l, file);
    let at = table::slot_off(b, p, true, j);
    lemma_even_slots(b, p, j);
    lemma_map_index(t, &d, b, file, j);
    lemma_wide_distance(t, l, &d, v, w, at);
}

proof fn lemma_map_index(t: &TbTable, d: &PairsData, b: Seq<u8>, file: int, j: int)
    requires
        t.kind == TbType::Dtz,
        t.mapped(d, b, file),
        pairs::is_set(t.flags_of(b, file), pairs::FLAG_MAPPED),
        t.wide_at(b, file),
        0 <= j < 4,
    ensures
        d.map_idx@[j] == (table::slot_off(b, t.map_start(b, file), true, j) - t.map_base(b)) / 2 + 1,
{
}

#[verifier::spinoff_prover]
proof fn lemma_wide_distance(t: &TbTable, l: &Loaded, d: &PairsData, v: int, w: Wdl, at: int)
    requires
        pairs::is_set(d.flags, pairs::FLAG_MAPPED),
        pairs::is_set(d.flags, pairs::FLAG_WIDE),
        at % 2 == 0,
        l.map as int % 2 == 0,
        d.map_idx@[TbTable::map_for(w)] == (at - l.map) / 2 + 1,
    ensures
        0 <= at + 2 * v && at + 2 * v + 2 <= l.bytes@.len() ==> t.distance(l, d, v, w) == Some(
            pair_at(l.bytes@, at + 2 * v),
        ),
{
}

proof fn lemma_even_slots(b: Seq<u8>, p: int, j: int)
    requires
        p % 2 == 0,
    ensures
        table::slot_off(b, p, true, j) % 2 == 0,
    decreases j,
{
    if j > 0 {
        lemma_even_slots(b, p, j - 1);
    }
}

/// The same where every number of the lists has two bytes.
#[verifier::spinoff_prover]
pub proof fn law_each_verdict_has_its_wide_list(t: &TbTable, l: &Loaded, file: int, v: int)
    requires
        t.kind == TbType::Dtz,
        t.laid_out(l),
        0 <= file < t.file_count(),
        (t.flags_of(l.bytes@, file) / 2) % 2 == 1,
        (t.flags_of(l.bytes@, file) / 16) % 2 == 1,
        0 <= v,
        0 <= t.map_start(l.bytes@, file),
    ensures
        ({
            let b = l.bytes@;
            let flags = t.flags_of(b, file);
            let win = t.map_start(b, file);
            let loss = past_wide(b, win);
            let cursed = past_wide(b, loss);
            let blessed = past_wide(b, cursed);
            &&& 0 <= win + 2 * v && win + 2 * v + 2 <= b.len() ==> t.score(l, file, v, Wdl::Win)
                == Ok::<int, ProbeState>(
                (if (flags / 4) % 2 == 1 {
                    pair_at(b, win + 2 * v)
                } else {
                    2 * pair_at(b, win + 2 * v)
                }) + 1,
            )
            &&& 0 <= loss + 2 * v && loss + 2 * v + 2 <= b.len() ==> t.score(l, file, v, Wdl::Loss)
                == Ok::<int, ProbeState>(
                (if (flags / 8) % 2 == 1 {
                    pair_at(b, loss + 2 * v)
                } else {
                    2 * pair_at(b, loss + 2 * v)
                }) + 1,
            )
            &&& 0 <= cursed + 2 * v && cursed + 2 * v + 2 <= b.len() ==> t.score(
                l,
                file,
                v,
                Wdl::CursedWin,
            ) == Ok::<int, ProbeState>(2 * pair_at(b, cursed + 2 * v) + 1)
            &&& 0 <= blessed + 2 * v && blessed + 2 * v + 2 <= b.len() ==> t.score(
                l,
                file,
                v,
                Wdl::BlessedLoss,
            ) == Ok::<int, ProbeState>(2 * pair_at(b, blessed + 2 * v) + 1)
        }),
{
    lemma_part(t, l, file);
    lemma_wide_places(t, l, file);
    lemma_wide_read(t, l, file, v, Wdl::Win);
    lemma_wide_read(t, l, file, v, Wdl::Loss);
    lemma_wide_read(t, l, file, v, Wdl::CursedWin);
    lemma_wide_read(t, l, file, v, Wdl::BlessedLoss);
}

/// A part without lists stores the distances themselves.
pub proof fn law_unmapped_parts_store_distances(t: &TbTable, l: &Loaded, file: int, v: int)
    requires
        t.kind == TbType::Dtz,
        t.laid_out(l),
        0 <= file < t.file_count(),
        (t.flags_of(l.bytes@, file) / 2) % 2 == 0,
    ensures
        ({
            let flags = t.flags_of(l.bytes@, file);
            &&& t.score(l, file, v, Wdl::Win) == Ok::<int, ProbeState>(
                (if (flags / 4) % 2 == 1 {
                    v
                } else {
                    2 * v
                }) + 1,
            )
            &&& t.score(l, file, v, Wdl::Loss) == Ok::<int, ProbeState>(
                (if (flags / 8) % 2 == 1 {
                    v
                } else {
                    2 * v
                }) + 1,
            )
            &&& t.score(l, file, v, Wdl::CursedWin) == Ok::<int, ProbeState>(2 * v + 1)
            &&& t.score(l, file, v, Wdl::BlessedLoss) == Ok::<int, ProbeState>(2 * v + 1)
        }),
{
    lemma_part(t, l, file);
}

/// The lists of the parts follow one another from where the sizes end, and a part without lists
/// takes no room.
pub proof fn law_lists_follow_one_another(t: &TbTable, b: Seq<u8>, file: int)
    requires
        0 <= file,
    ensures
        (t.flags_of(b, 0) / 16) % 2 == 0 ==> t.map_start(b, 0) == t.size_off(b, t.part_count()),
        (t.flags_of(b, file) / 2) % 2 == 0 ==> t.map_off(b, file + 1) == t.map_off(b, file),
        (t.flags_of(b, file) / 2) % 2 == 1 && (t.flags_of(b, file) / 16) % 2 == 0 ==> t.map_off(
            b,
            file + 1,
        ) == past(b, past(b, past(b, past(b, t.map_off(b, file))))),
        (t.flags_of(b, file) / 16) % 2 == 0 ==> t.map_start(b, file) == t.map_off(b, file),
        (t.flags_of(b, file) / 16) % 2 == 1 ==> t.map_start(b, file) == t.map_off(b, file) + t.map_off(
            b,
            file,
        ) % 2,
{
    lemma_slots(b, t.map_off(b, file));
}

/// A table of verdicts stores a loss as 0, a blessed loss as 1, a draw as 2, a cursed win as 3 and a
/// win as 4.
pub proof fn law_stored_verdicts(t: &TbTable, l: &Loaded, file: int, v: int, w: Wdl)
    requires
        t.kind == TbType::Wdl,
    ensures
        v == 0 ==> t.score(l, file, v, w) == Ok::<int, ProbeState>(Wdl::Loss.num()),
        v == 1 ==> t.score(l, file, v, w) == Ok::<int, ProbeState>(Wdl::BlessedLoss.num()),
        v == 2 ==> t.score(l, file, v, w) == Ok::<int, ProbeState>(Wdl::Draw.num()),
        v == 3 ==> t.score(l, file, v, w) == Ok::<int, ProbeState>(Wdl::CursedWin.num()),
        v == 4 ==> t.score(l, file, v, w) == Ok::<int, ProbeState>(Wdl::Win.num()),
        0 <= v <= 4 ==> Wdl::stored(t.score(l, file, v, w)->Ok_0) is Some,
{
}

/// A better verdict has a higher number, and the other side's verdict is as bad as this one is good.
pub proof fn law_verdicts_are_ordered()
    ensures
        Wdl::Loss.num() < Wdl::BlessedLoss.num() < Wdl::Draw.num() < Wdl::CursedWin.num()
            < Wdl::Win.num(),
        Wdl::Win.opposite() == Wdl::Loss,
        Wdl::CursedWin.opposite() == Wdl::BlessedLoss,
        Wdl::Draw.opposite() == Wdl::Draw,
{
}

} // verus!
