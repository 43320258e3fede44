//! Folding the symmetries of the board, and what an index says of folded men.

use vstd::prelude::*;
use crate::board::types::Square;
use crate::platform::syzygy::leaders;
use crate::platform::syzygy::numbering;
use crate::platform::syzygy::pairs;
use crate::platform::syzygy::probe;
use crate::platform::syzygy::probe::Man;
use crate::platform::syzygy::table::TbTable;
use crate::platform::syzygy::tables;

verus! {

/// How far two numbers are apart.
pub open spec fn apart(a: int, b: int) -> int {
    if a < b {
        b - a
    } else {
        a - b
    }
}

/// Two pairs of squares are as far apart, in ranks and in files, or with the two exchanged.
pub open spec fn as_far(s: int, t: int, u: int, v: int) -> bool {
    ||| apart(s / 8, t / 8) == apart(u / 8, v / 8) && apart(s % 8, t % 8) == apart(u % 8, v % 8)
    ||| apart(s / 8, t / 8) == apart(u % 8, v % 8) && apart(s % 8, t % 8) == apart(u / 8, v / 8)
}

proof fn lemma_across(s: int)
    requires
        0 <= s < 64,
    ensures
        0 <= probe::across(s) < 64,
        probe::across(s) / 8 == s / 8,
        probe::across(s) % 8 == 7 - s % 8,
{
}

proof fn lemma_mirrored(s: int)
    requires
        0 <= s < 64,
    ensures
        0 <= Square::mirrored(s) < 64,
        Square::mirrored(s) / 8 == 7 - s / 8,
        Square::mirrored(s) % 8 == s % 8,
{
}

proof fn lemma_transposed(s: int)
    requires
        0 <= s < 64,
    ensures
        0 <= probe::transposed(s) < 64,
        probe::transposed(s) / 8 == s % 8,
        probe::transposed(s) % 8 == s / 8,
{
}

/// The men stand on the board.
pub open spec fn on_board(men: Seq<Man>) -> bool {
    forall|i: int| 0 <= i < men.len() ==> (#[trigger] men[i]).sq < 64
}

/// The halves that the first man is folded into.
#[verifier::spinoff_prover]
proof fn lemma_halves(men: Seq<Man>)
    requires
        on_board(men),
        men.len() > 0,
    ensures
        ({
            let a = probe::left_half(men);
            let b = probe::lower_half(a);
            &&& a.len() == men.len()
            &&& on_board(a)
            &&& a[0].sq % 8 <= 3
            &&& b.len() == men.len()
            &&& on_board(b)
            &&& b[0].sq % 8 <= 3
            &&& b[0].sq / 8 <= 3
            &&& forall|i: int|
                0 <= i < men.len() ==> (#[trigger] a[i]).sq == if men[0].sq % 8 > 3 {
                    probe::across(men[i].sq as int)
                } else {
                    men[i].sq as int
                } && a[i].code == men[i].code
            &&& forall|i: int|
                0 <= i < men.len() ==> (#[trigger] b[i]).sq == if a[0].sq / 8 > 3 {
                    Square::mirrored(a[i].sq as int)
                } else {
                    a[i].sq as int
                } && b[i].code == men[i].code
        }),
{
    let a = probe::left_half(men);
    let b = probe::lower_half(a);
    assert(men[0].sq < 64);
    assert forall|i: int| 0 <= i < men.len() implies (#[trigger] a[i]).sq == if men[0].sq % 8 > 3 {
        probe::across(men[i].sq as int)
    } else {
        men[i].sq as int
    } && a[i].code == men[i].code && a[i].sq < 64 by {
        assert(men[i].sq < 64);
        lemma_across(men[i].sq as int);
    }
    assert(a[0].sq < 64);
    lemma_across(men[0].sq as int);
    assert forall|i: int| 0 <= i < men.len() implies (#[trigger] b[i]).sq == if a[0].sq / 8 > 3 {
        Square::mirrored(a[i].sq as int)
    } else {
        a[i].sq as int
    } && b[i].code == men[i].code && b[i].sq < 64 by {
        assert(a[i].sq < 64);
        lemma_mirrored(a[i].sq as int);
    }
    assert(b[0].sq < 64);
    lemma_mirrored(a[0].sq as int);
}

/// What folding below the diagonal does.
proof fn lemma_diagonal(men: Seq<Man>, len: int)
    requires
        on_board(men),
    ensures
        ({
            let e = probe::below_diagonal(men, len);
            &&& e.len() == men.len()
            &&& on_board(e)
            &&& forall|i: int| 0 <= i < men.len() ==> (#[trigger] e[i]).code == men[i].code
            &&& (forall|i: int| 0 <= i < men.len() ==> (#[trigger] e[i]).sq == men[i].sq) || (forall|
                i: int,
            |
                0 <= i < men.len() ==> (#[trigger] e[i]).sq == probe::transposed(men[i].sq as int))
        }),
{
    let e = probe::below_diagonal(men, len);
    assert forall|i: int| 0 <= i < men.len() implies (#[trigger] e[i]).code == men[i].code
        && e[i].sq < 64 by {
        assert(men[i].sq < 64);
        lemma_transposed(men[i].sq as int);
    }
    let t = probe::off_from(men, 0, len);
    if t < len && tables::off_diagonal(men[t].sq as int) > 0 {
        assert forall|i: int| 0 <= i < men.len() implies (#[trigger] e[i]).sq == probe::transposed(
            men[i].sq as int,
        ) by {
            assert(men[i].sq < 64);
            lemma_transposed(men[i].sq as int);
        }
    }
}

/// Folding turns the board as a whole: the men keep their kinds and the distances between them, and
/// with pawns their ranks.
#[verifier::spinoff_prover]
pub proof fn law_folding_turns_the_board(men: Seq<Man>, has_pawns: bool, len: int, i: int, j: int)
    requires
        on_board(men),
        0 <= i < men.len(),
        0 <= j < men.len(),
    ensures
        ({
            let e = probe::folded(men, has_pawns, len);
            &&& e.len() == men.len()
            &&& e[i].code == men[i].code
            &&& e[i].sq < 64
            &&& as_far(e[i].sq as int, e[j].sq as int, men[i].sq as int, men[j].sq as int)
            &&& has_pawns ==> e[i].sq / 8 == men[i].sq / 8
            &&& (e[i].sq == e[j].sq) == (men[i].sq == men[j].sq)
        }),
{
    let a = probe::left_half(men);
    let b = probe::lower_half(a);
    let e = probe::below_diagonal(b, len);
    lemma_halves(men);
    lemma_diagonal(b, len);
    assert(men[i].sq < 64 && men[j].sq < 64);
    assert(a[i].sq < 64 && a[j].sq < 64);
    assert(b[i].sq < 64 && b[j].sq < 64);
    assert(e[i].code == b[i].code && e[j].code == b[j].code);
    lemma_across(men[i].sq as int);
    lemma_across(men[j].sq as int);
    lemma_mirrored(a[i].sq as int);
    lemma_mirrored(a[j].sq as int);
    lemma_transposed(b[i].sq as int);
    lemma_transposed(b[j].sq as int);
    assert(as_far(a[i].sq as int, a[j].sq as int, men[i].sq as int, men[j].sq as int));
    assert(as_far(b[i].sq as int, b[j].sq as int, men[i].sq as int, men[j].sq as int));
}

/// After folding without pawns the first man is in the triangle from a1 over d1 to d4, and the first
/// man of the group that is off the diagonal is below it.
#[verifier::spinoff_prover]
pub proof fn law_folding_leads_into_the_triangle(men: Seq<Man>, len: int, i: int)
    requires
        on_board(men),
        1 <= len <= men.len(),
        0 <= i < len,
        forall|k: int|
            0 <= k < i ==> (#[trigger] probe::folded(men, false, len)[k]).sq / 8 == probe::folded(
                men,
                false,
                len,
            )[k].sq % 8,
    ensures
        ({
            let e = probe::folded(men, false, len);
            &&& e[0].sq % 8 <= 3
            &&& e[0].sq / 8 <= e[0].sq % 8
            &&& e[i].sq / 8 <= e[i].sq % 8
        }),
{
    let a = probe::left_half(men);
    let b = probe::lower_half(a);
    let e = probe::folded(men, false, len);
    lemma_halves(men);
    lemma_diagonal(b, len);
    let t = probe::off_from(b, 0, len);
    lemma_off_from(b, 0, len);
    assert(b[i].sq < 64 && b[0].sq < 64);
    assert(e[i].code == b[i].code && e[0].code == b[0].code);
    lemma_transposed(b[i].sq as int);
    lemma_transposed(b[0].sq as int);
    if t < i {
        assert(b[t].sq < 64);
        assert(e[t].code == b[t].code);
        lemma_transposed(b[t].sq as int);
        assert(e[t].sq / 8 == e[t].sq % 8);
    }
}

proof fn lemma_off_from(men: Seq<Man>, i: int, n: int)
    requires
        i <= n,
    ensures
        ({
            let t = probe::off_from(men, i, n);
            &&& i <= t <= n
            &&& forall|k: int| i <= k < t ==> tables::off_diagonal((#[trigger] men[k]).sq as int) == 0
            &&& t < n ==> tables::off_diagonal(men[t].sq as int) != 0
        }),
    decreases n - i,
{
    if i < n && tables::off_diagonal(men[i].sq as int) == 0 {
        lemma_off_from(men, i + 1, n);
    }
}

/// Three men on different squares are folded as the numbers of three pieces want them.
pub proof fn law_three_pieces_fold(men: Seq<Man>)
    requires
        probe::distinct(men),
        3 <= men.len(),
    ensures
        ({
            let e = probe::folded(men, false, 3);
            leaders::folded_three(e[0].sq as int, e[1].sq as int, e[2].sq as int)
        }),
{
    let e = probe::folded(men, false, 3);
    law_folding_turns_the_board(men, false, 3, 0, 1);
    law_folding_turns_the_board(men, false, 3, 0, 2);
    law_folding_turns_the_board(men, false, 3, 1, 2);
    law_folding_turns_the_board(men, false, 3, 2, 0);
    assert(men[0].sq != men[1].sq && men[0].sq != men[2].sq && men[1].sq != men[2].sq);
    law_folding_leads_into_the_triangle(men, 3, 0);
    if e[0].sq / 8 == e[0].sq % 8 {
        law_folding_leads_into_the_triangle(men, 3, 1);
        if e[1].sq / 8 == e[1].sq % 8 {
            law_folding_leads_into_the_triangle(men, 3, 2);
        }
    }
}

/// Two kings that do not touch are folded as the numbers of two kings want them.
pub proof fn law_two_kings_fold(men: Seq<Man>)
    requires
        on_board(men),
        2 <= men.len(),
        apart(men[0].sq as int / 8, men[1].sq as int / 8) > 1 || apart(
            men[0].sq as int % 8,
            men[1].sq as int % 8,
        ) > 1,
    ensures
        ({
            let e = probe::folded(men, false, 2);
            leaders::folded_kings(e[0].sq as int, e[1].sq as int)
        }),
{
    let e = probe::folded(men, false, 2);
    law_folding_turns_the_board(men, false, 2, 0, 1);
    law_folding_turns_the_board(men, false, 2, 1, 0);
    law_folding_leads_into_the_triangle(men, 2, 0);
    if e[0].sq / 8 == e[0].sq % 8 {
        law_folding_leads_into_the_triangle(men, 2, 1);
    }
}

#[verifier::spinoff_prover]
proof fn lemma_across_order(s: int, t: int)
    requires
        8 <= s < 56,
        8 <= t < 56,
        s % 8 > 3,
        tables::pawn_number(t) < tables::pawn_number(s),
    ensures
        tables::pawn_number(probe::across(t)) < tables::pawn_number(probe::across(s)),
{
    lemma_across(s);
    lemma_across(t);
}

/// Leading pawns with the foremost first are folded as their numbers want them.
#[verifier::spinoff_prover]
pub proof fn law_leading_pawns_fold(men: Seq<Man>, count: int)
    requires
        probe::distinct(men),
        1 <= count <= 5,
        count <= men.len(),
        forall|i: int| 0 <= i < count ==> 8 <= (#[trigger] men[i]).sq < 56,
        forall|i: int|
            1 <= i < count ==> tables::pawn_number((#[trigger] men[i]).sq as int)
                <= tables::pawn_number(men[0].sq as int),
    ensures
        leaders::folded_pawns(probe::folded(men, true, count), count),
{
    let e = probe::folded(men, true, count);
    lemma_halves(men);
    assert forall|i: int, j: int| 0 <= i < j < e.len() implies (#[trigger] e[i]).sq != (
    #[trigger] e[j]).sq by {
        assert(men[i].sq != men[j].sq);
        law_folding_turns_the_board(men, true, count, i, j);
    }
    assert forall|i: int| 0 <= i < e.len() implies (#[trigger] e[i]).sq < 64 && e[i].code < 16 by {
        assert(men[i].code < 16);
    }
    assert forall|i: int| 0 <= i < count implies 8 <= (#[trigger] e[i]).sq < 56 by {
        assert(8 <= men[i].sq < 56);
        law_folding_turns_the_board(men, true, count, i, i);
    }
    let s = men[0].sq as int;
    assert(8 <= men[0].sq < 56);
    assert forall|i: int| 1 <= i < count implies tables::pawn_number((#[trigger] e[i]).sq as int)
        < tables::pawn_number(e[0].sq as int) by {
        assert(8 <= men[i].sq < 56);
        assert(men[0].sq != men[i].sq);
        leaders::law_pawn_numbers_differ(men[i].sq as int, s);
        if s % 8 > 3 {
            lemma_across_order(s, men[i].sq as int);
        }
    }
}

/// The men of a part are folded, group by group.
pub open spec fn ready(
    men: Seq<Man>,
    lens: Seq<int>,
    has_pawns: bool,
    unique: bool,
    both: bool,
    file: int,
) -> bool {
    &&& numbering::placed(men, lens, both)
    &&& if has_pawns {
        leaders::folded_pawns(men, lens[0]) && men[0].sq % 8 == file
    } else if unique {
        !both && lens[0] == 3 && leaders::folded_three(
            men[0].sq as int,
            men[1].sq as int,
            men[2].sq as int,
        )
    } else {
        !both && lens[0] == 2 && leaders::folded_kings(men[0].sq as int, men[1].sq as int)
    }
}

proof fn lemma_first(
    men: Seq<Man>,
    other: Seq<Man>,
    lens: Seq<int>,
    has_pawns: bool,
    unique: bool,
    both: bool,
    file: int,
    x: int,
)
    requires
        ready(men, lens, has_pawns, unique, both, file),
        ready(other, lens, has_pawns, unique, both, file),
    ensures
        0 <= probe::first_number(men, has_pawns, unique, lens[0]) < pairs::lead_factor(
            lens[0],
            has_pawns,
            unique,
            file,
        ),
        probe::first_number(men, has_pawns, unique, lens[0]) == probe::first_number(
            other,
            has_pawns,
            unique,
            lens[0],
        ) ==> numbering::holds(men, 0, lens[0], x) == numbering::holds(other, 0, lens[0], x)
            && men[0].sq == other[0].sq && (!has_pawns ==> men[1].sq == other[1].sq) && (!has_pawns
            && unique ==> men[2].sq == other[2].sq),
{
    if has_pawns {
        leaders::law_leading_pawns_are_told_apart(men, other, lens[0], x);
        leaders::law_leading_pawns_are_told_apart(other, men, lens[0], x);
        lemma_first_and_rest(men, lens[0], x);
        lemma_first_and_rest(other, lens[0], x);
    } else if unique {
        leaders::law_three_pieces_are_told_apart(men, other);
        lemma_three_squares(men, x);
        lemma_three_squares(other, x);
    } else {
        leaders::law_two_kings_are_told_apart(
            men[0].sq as int,
            men[1].sq as int,
            other[0].sq as int,
            other[1].sq as int,
        );
        leaders::law_kings_have_462_placements();
        lemma_two_squares(men, x);
        lemma_two_squares(other, x);
    }
}

proof fn lemma_first_and_rest(men: Seq<Man>, n: int, x: int)
    requires
        1 <= n,
    ensures
        numbering::holds(men, 0, n, x) == (men[0].sq == x || numbering::holds(men, 1, n, x)),
{
    if numbering::holds(men, 0, n, x) {
        let i = choose|i: int| 0 <= i < n && (#[trigger] men[i]).sq == x;
        if i > 0 {
            assert(1 <= i < n && men[i].sq == x);
        }
    }
    if men[0].sq == x {
        assert(0 <= 0 < n && men[0].sq == x);
    }
    if numbering::holds(men, 1, n, x) {
        let i = choose|i: int| 1 <= i < n && (#[trigger] men[i]).sq == x;
        assert(0 <= i < n && men[i].sq == x);
    }
}

proof fn lemma_two_squares(men: Seq<Man>, x: int)
    ensures
        numbering::holds(men, 0, 2, x) == (men[0].sq == x || men[1].sq == x),
{
    if men[0].sq == x {
        assert(0 <= 0 < 2 && men[0].sq == x);
    }
    if men[1].sq == x {
        assert(0 <= 1 < 2 && men[1].sq == x);
    }
}

proof fn lemma_three_squares(men: Seq<Man>, x: int)
    ensures
        numbering::holds(men, 0, 3, x) == (men[0].sq == x || men[1].sq == x || men[2].sq == x),
{
    if men[0].sq == x {
        assert(0 <= 0 < 3 && men[0].sq == x);
    }
    if men[1].sq == x {
        assert(0 <= 1 < 3 && men[1].sq == x);
    }
    if men[2].sq == x {
        assert(0 <= 2 < 3 && men[2].sq == x);
    }
}

/// Two folded placements of a part's men with the same index are the same placement, up to
/// exchanging the men of a group, and every index is below the part's size.
pub proof fn law_no_two_placements_share_an_index(
    men: Seq<Man>,
    other: Seq<Man>,
    lens: Seq<int>,
    order: (int, int),
    has_pawns: bool,
    unique: bool,
    both: bool,
    file: int,
    g: int,
    s: int,
)
    requires
        ready(men, lens, has_pawns, unique, both, file),
        ready(other, lens, has_pawns, unique, both, file),
        numbering::ordered(order, lens.len() as int, both),
        0 <= g < lens.len(),
    ensures
        ({
            let lead = pairs::lead_factor(lens[0], has_pawns, unique, file);
            let w = numbering::weights_of(lens, lead, order, both);
            let i = probe::index_of(men, has_pawns, unique, both, lens[0], lens, w);
            let j = probe::index_of(other, has_pawns, unique, both, lens[0], lens, w);
            let a = pairs::members_upto(lens, g);
            let b = pairs::members_upto(lens, g + 1);
            &&& 0 <= i < w[lens.len() as int]
            &&& i == j ==> {
                &&& men[0].sq == other[0].sq
                &&& !has_pawns ==> men[1].sq == other[1].sq
                &&& !has_pawns && unique ==> men[2].sq == other[2].sq
                &&& numbering::holds(men, 0, lens[0], s) == numbering::holds(other, 0, lens[0], s)
                &&& numbering::holds(men, a, b, s) == numbering::holds(other, a, b, s)
            }
        }),
{
    let lead = pairs::lead_factor(lens[0], has_pawns, unique, file);
    lemma_first(men, other, lens, has_pawns, unique, both, file, s);
    lemma_first(other, men, lens, has_pawns, unique, both, file, s);
    numbering::law_the_index_tells_the_placement(
        men,
        other,
        lens,
        lead,
        order,
        has_pawns,
        unique,
        both,
        lens[0],
        g,
        s,
    );
    if probe::first_number(men, has_pawns, unique, lens[0]) == probe::first_number(
        other,
        has_pawns,
        unique,
        lens[0],
    ) {
        assert forall|x: int| #[trigger]
            numbering::holds(men, 0, lens[0], x) == numbering::holds(other, 0, lens[0], x) by {
            lemma_first(men, other, lens, has_pawns, unique, both, file, x);
        }
    }
}

/// The weights of a file's part are those of its groups, in the order that the file gives, with as
/// many placements of the first group as its kind has.
pub proof fn law_parts_have_these_weights(t: &TbTable, b: Seq<u8>, i: int)
    ensures
        ({
            let lens = t.lens(b, i);
            let lead = if t.has_pawns {
                tables::lead_start(lens[0], i / t.side_count(), 7)
            } else if t.has_unique_pieces {
                31332
            } else {
                462
            };
            t.multipliers(b, i) == numbering::weights_of(
                lens,
                lead,
                t.order_of(b, i),
                t.both_pawns(),
            )
        }),
{
}

} // verus!
