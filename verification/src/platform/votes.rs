//! What an election among searches promises.

use vstd::prelude::*;
use crate::board::types::Move;
use crate::platform::threads;
use crate::platform::threads::SearchResult;

verus! {

/// The candidates are the results with a move, all of them and no others.
pub proof fn law_candidates_have_moves(v: Seq<SearchResult>, n: int, r: SearchResult)
    requires
        0 <= n <= v.len(),
    ensures
        threads::candidates(v, n).contains(r) == (exists|i: int|
            0 <= i < n && #[trigger] v[i] == r && r.best_move != Move(0) && r.best_move != Move(65)),
        threads::candidates(v, n).len() <= n,
    decreases n,
{
    if n > 0 {
        law_candidates_have_moves(v, n - 1, r);
        let c = threads::candidates(v, n - 1);
        let d = threads::candidates(v, n);
        if c.contains(r) {
            let k = c.index_of(r);
            assert(d[k] == r);
            let i = choose|i: int|
                0 <= i < n - 1 && #[trigger] v[i] == r && r.best_move != Move(0) && r.best_move
                    != Move(65);
            assert(0 <= i < n && v[i] == r);
        }
        if v[n - 1] == r && r.best_move != Move(0) && r.best_move != Move(65) {
            assert(d[d.len() - 1] == r);
            assert(0 <= n - 1 < n && v[n - 1] == r);
        }
        if d.contains(r) && !c.contains(r) {
            let k = d.index_of(r);
            if k < c.len() {
                assert(c[k] == r);
            }
        }
        if exists|i: int|
            0 <= i < n && #[trigger] v[i] == r && r.best_move != Move(0) && r.best_move != Move(65) {
            let i = choose|i: int|
                0 <= i < n && #[trigger] v[i] == r && r.best_move != Move(0) && r.best_move != Move(
                    65,
                );
            if i < n - 1 {
                assert(0 <= i < n - 1 && v[i] == r);
            }
        }
    }
}

/// An election has one winner at most.
pub proof fn law_elections_have_one_winner(c: Seq<SearchResult>, j: int, k: int)
    requires
        threads::elected(c, j),
        threads::elected(c, k),
    ensures
        j == k,
{
    if j < k {
        assert(threads::preferred(c, k, j));
    }
    if k < j {
        assert(threads::preferred(c, j, k));
    }
}

/// How many of the first `n` candidates are for a move.
pub open spec fn backers(c: Seq<SearchResult>, m: Move, n: int) -> int
    decreases n,
{
    if n <= 0 {
        0
    } else {
        backers(c, m, n - 1) + (if c[n - 1].best_move == m {
            1int
        } else {
            0int
        })
    }
}

proof fn lemma_worst(c: Seq<SearchResult>, n: int, i: int)
    requires
        0 <= i < n <= c.len(),
    ensures
        threads::worst(c, n) <= c[i].score.0,
        exists|j: int| 0 <= j < n && threads::worst(c, n) == (#[trigger] c[j]).score.0,
    decreases n,
{
    if n > 1 {
        lemma_worst(c, n - 1, if i < n - 1 {
            i
        } else {
            0
        });
        let j = choose|j: int| 0 <= j < n - 1 && threads::worst(c, n - 1) == (#[trigger] c[j]).score.0;
        if c[n - 1].score.0 < threads::worst(c, n - 1) {
            assert(threads::worst(c, n) == c[n - 1].score.0);
        } else {
            assert(threads::worst(c, n) == c[j].score.0);
        }
    } else {
        assert(threads::worst(c, n) == c[0].score.0);
    }
}

/// Every candidate weighs something, and more with a higher score or a greater depth.
pub proof fn law_weights_follow_score_and_depth(a: SearchResult, b: SearchResult, low: int)
    requires
        low <= a.score.0 <= b.score.0,
        a.depth <= b.depth,
    ensures
        0 < threads::weight(a, low) <= threads::weight(b, low),
        a.score.0 < b.score.0 ==> threads::weight(a, low) < threads::weight(b, low),
        1 <= a.depth < b.depth ==> threads::weight(a, low) < threads::weight(b, low),
        a.depth <= 1 ==> threads::weight(a, low) == a.score.0 - low + 14,
{
    let x = a.score.0 - low + 14;
    let y = b.score.0 - low + 14;
    let d: int = if a.depth < 1 {
        1
    } else {
        a.depth as int
    };
    let e: int = if b.depth < 1 {
        1
    } else {
        b.depth as int
    };
    assert(0 < x * d <= y * e && (x < y ==> x * d < y * e) && (d < e ==> x * d < y * e))
        by (nonlinear_arith)
        requires
            14 <= x <= y,
            1 <= d <= e,
    ;
    assert(x * 1 == x);
}

proof fn lemma_vote_bounds(c: Seq<SearchResult>, m: Move, low: int, d: int, n: int)
    requires
        0 <= n <= c.len(),
        1 <= d,
        forall|i: int|
            0 <= i < c.len() ==> (#[trigger] c[i]).depth == d && low <= c[i].score.0 <= low + 13,
    ensures
        14 * d * backers(c, m, n) <= threads::vote(c, m, low, n) <= 27 * d * backers(c, m, n),
        0 <= backers(c, m, n),
    decreases n,
{
    if n > 0 {
        lemma_vote_bounds(c, m, low, d, n - 1);
        let k = backers(c, m, n - 1);
        assert(c[n - 1].depth == d);
        let s = c[n - 1].score.0 - low + 14;
        assert(14 * d * (k + 1) == 14 * d * k + 14 * d && 27 * d * (k + 1) == 27 * d * k + 27 * d)
            by (nonlinear_arith);
        assert(14 * d <= s * d <= 27 * d) by (nonlinear_arith)
            requires
                14 <= s <= 27,
                1 <= d,
        ;
    } else {
        assert(14 * d * 0 == 0 && 27 * d * 0 == 0) by (nonlinear_arith);
    }
}

/// Agreement counts for more than a score that is a little higher: among searches of one depth whose
/// scores are within 13 of each other, no move with a single backer is chosen over one with two.
pub proof fn law_agreement_beats_a_little_more_score(c: Seq<SearchResult>, d: int, k: int, j: int)
    requires
        threads::elected(c, k),
        0 <= j < c.len(),
        1 <= d,
        forall|i: int| 0 <= i < c.len() ==> (#[trigger] c[i]).depth == d,
        forall|i: int, l: int|
            0 <= i < c.len() && 0 <= l < c.len() ==> (#[trigger] c[i]).score.0 - (
            #[trigger] c[l]).score.0 <= 13,
        backers(c, c[j].best_move, c.len() as int) >= 2,
    ensures
        backers(c, c[k].best_move, c.len() as int) >= 2,
{
    let n = c.len() as int;
    let low = threads::worst(c, n);
    lemma_worst(c, n, 0);
    let w = choose|w: int| 0 <= w < n && low == (#[trigger] c[w]).score.0;
    assert forall|i: int| 0 <= i < c.len() implies (#[trigger] c[i]).depth == d && low <= c[i].score.0
        <= low + 13 by {
        lemma_worst(c, n, i);
        assert(c[i].score.0 - c[w].score.0 <= 13);
    }
    let a = backers(c, c[k].best_move, n);
    let b = backers(c, c[j].best_move, n);
    lemma_vote_bounds(c, c[k].best_move, low, d, n);
    lemma_vote_bounds(c, c[j].best_move, low, d, n);
    assert(!threads::preferred(c, j, k));
    if a <= 1 {
        assert(27 * d * a <= 27 * d && 14 * d * b >= 28 * d) by (nonlinear_arith)
            requires
                a <= 1,
                b >= 2,
                1 <= d,
        ;
    }
}

proof fn lemma_vote_even(c: Seq<SearchResult>, m: Move, low: int, d: int, n: int)
    requires
        0 <= n <= c.len(),
        1 <= d,
        forall|i: int| 0 <= i < c.len() ==> (#[trigger] c[i]).depth == d && c[i].score.0 == low,
    ensures
        threads::vote(c, m, low, n) == 14 * d * backers(c, m, n),
    decreases n,
{
    if n > 0 {
        lemma_vote_even(c, m, low, d, n - 1);
        let k = backers(c, m, n - 1);
        assert(c[n - 1].depth == d);
        assert(14 * d * (k + 1) == 14 * d * k + 14 * d) by (nonlinear_arith);
    } else {
        assert(14 * d * 0 == 0) by (nonlinear_arith);
    }
}

/// Among searches of one depth and one score the majority decides: no move has more backers than the
/// chosen one.
pub proof fn law_the_majority_decides(c: Seq<SearchResult>, d: int, k: int, j: int)
    requires
        threads::elected(c, k),
        0 <= j < c.len(),
        1 <= d,
        forall|i: int|
            0 <= i < c.len() ==> (#[trigger] c[i]).depth == d && c[i].score == c[0].score,
    ensures
        backers(c, c[j].best_move, c.len() as int) <= backers(c, c[k].best_move, c.len() as int),
{
    let n = c.len() as int;
    let low = threads::worst(c, n);
    lemma_worst(c, n, 0);
    let w = choose|w: int| 0 <= w < n && low == (#[trigger] c[w]).score.0;
    assert(c[w].score == c[0].score);
    lemma_vote_even(c, c[k].best_move, low, d, n);
    lemma_vote_even(c, c[j].best_move, low, d, n);
    assert(!threads::preferred(c, j, k));
    let a = backers(c, c[k].best_move, n);
    let b = backers(c, c[j].best_move, n);
    assert(14 * d * b <= 14 * d * a ==> b <= a) by (nonlinear_arith)
        requires
            1 <= d,
    ;
}

proof fn lemma_vote_alone(c: Seq<SearchResult>, j: int, m: Move, low: int, n: int)
    requires
        0 <= n <= c.len(),
        forall|i: int| 0 <= i < n && i != j ==> (#[trigger] c[i]).best_move != m,
        0 <= j < c.len(),
        c[j].best_move == m,
    ensures
        threads::vote(c, m, low, n) == (if j < n {
            threads::weight(c[j], low)
        } else {
            0
        }),
    decreases n,
{
    if n > 0 {
        lemma_vote_alone(c, j, m, low, n - 1);
    }
}

/// Where all searches disagree, none that is at once deeper and no lower in score is passed over,
/// nor one that is as deep and higher.
pub proof fn law_the_deeper_search_wins_alone(c: Seq<SearchResult>, k: int, j: int)
    requires
        threads::elected(c, k),
        0 <= j < c.len(),
        forall|i: int, l: int|
            0 <= i < l < c.len() ==> (#[trigger] c[i]).best_move != (#[trigger] c[l]).best_move,
    ensures
        !(c[j].depth > c[k].depth && c[j].score.0 >= c[k].score.0),
        !(c[j].depth == c[k].depth && c[j].score.0 > c[k].score.0),
{
    let n = c.len() as int;
    let low = threads::worst(c, n);
    assert(!threads::preferred(c, j, k));
    lemma_worst(c, n, j);
    lemma_worst(c, n, k);
    lemma_vote_alone(c, j, c[j].best_move, low, n);
    lemma_vote_alone(c, k, c[k].best_move, low, n);
    if c[j].depth >= c[k].depth && c[j].score.0 >= c[k].score.0 {
        law_weights_follow_score_and_depth(c[k], c[j], low);
    }
}

} // verus!
