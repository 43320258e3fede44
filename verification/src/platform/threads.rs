//! Choosing the move that several searches of one position agree on.

use vstd::prelude::*;
use crate::board::types::{Move, Value};

verus! {

/// What one search of a position found.
#[derive(Clone, Copy, Debug, PartialEq, Eq)]
pub struct SearchResult {
    pub best_move: Move,
    pub ponder_move: Option<Move>,
    pub score: Value,
    pub depth: i32,
    pub nodes: u64,
}

/// The results that found a move.
pub open spec fn candidates(v: Seq<SearchResult>, n: int) -> Seq<SearchResult>
    decreases n,
{
    if n <= 0 {
        Seq::empty()
    } else if v[n - 1].best_move != Move(0) && v[n - 1].best_move != Move(65) {
        candidates(v, n - 1).push(v[n - 1])
    } else {
        candidates(v, n - 1)
    }
}

/// The lowest score of the first `n` candidates; there is at least one.
pub open spec fn worst(c: Seq<SearchResult>, n: int) -> int
    decreases n,
{
    if n <= 1 {
        c[0].score.0 as int
    } else if c[n - 1].score.0 < worst(c, n - 1) {
        c[n - 1].score.0 as int
    } else {
        worst(c, n - 1)
    }
}

/// What one candidate adds to the vote for its move. Every weight is positive, so that two
/// searches that agree count for more than one whose score is a little higher.
pub open spec fn weight(r: SearchResult, low: int) -> int {
    (r.score.0 - low + 14) * (if r.depth < 1 {
        1
    } else {
        r.depth as int
    })
}

/// The vote for a move among the first `n` candidates.
pub open spec fn vote(c: Seq<SearchResult>, m: Move, low: int, n: int) -> int
    decreases n,
{
    if n <= 0 {
        0
    } else {
        vote(c, m, low, n - 1) + (if c[n - 1].best_move == m {
            weight(c[n - 1], low)
        } else {
            0
        })
    }
}

/// The whole vote for a candidate's move.
pub open spec fn support(c: Seq<SearchResult>, k: int) -> int {
    vote(c, c[k].best_move, worst(c, c.len() as int), c.len() as int)
}

/// Candidate `j` is preferred to candidate `k`: by its vote, then by its depth, then by its
/// score.
pub open spec fn preferred(c: Seq<SearchResult>, j: int, k: int) -> bool {
    ||| support(c, j) > support(c, k)
    ||| support(c, j) == support(c, k) && c[j].depth > c[k].depth
    ||| support(c, j) == support(c, k) && c[j].depth == c[k].depth && c[j].score.0 > c[k].score.0
}

/// Candidate `k` is the first that no other is preferred to.
pub open spec fn elected(c: Seq<SearchResult>, k: int) -> bool {
    &&& 0 <= k < c.len()
    &&& forall|j: int| 0 <= j < c.len() ==> !#[trigger] preferred(c, j, k)
    &&& forall|j: int| 0 <= j < k ==> #[trigger] preferred(c, k, j)
}

/// The lowest score.
fn lowest(c: &Vec<SearchResult>) -> (r: i32)
    requires
        c@.len() > 0,
    ensures
        r == worst(c@, c@.len() as int),
{
    let mut low: i32 = c[0].score.0;
    let mut i: usize = 1;
    while i < c.len()
        invariant
            1 <= i <= c@.len(),
            low == worst(c@, i as int),
        decreases c@.len() - i,
    {
        if c[i].score.0 < low {
            low = c[i].score.0;
        }
        i += 1;
    }
    low
}

proof fn lemma_worst(c: Seq<SearchResult>, n: int, i: int)
    requires
        0 <= i < n <= c.len(),
    ensures
        worst(c, n) <= c[i].score.0,
        i32::MIN <= worst(c, n) <= i32::MAX,
    decreases n,
{
    if n > 1 {
        if i < n - 1 {
            lemma_worst(c, n - 1, i);
        } else {
            lemma_worst(c, n - 1, 0);
        }
    }
}

/// The vote for a move.
fn count_vote(c: &Vec<SearchResult>, m: Move, low: i32) -> (r: i128)
    requires
        c@.len() <= 0xffff_ffff,
        c@.len() > 0,
        low == worst(c@, c@.len() as int),
    ensures
        r == vote(c@, m, low as int, c@.len() as int),
        0 <= r,
{
    let mut sum: i128 = 0;
    let mut i: usize = 0;
    while i < c.len()
        invariant
            i <= c@.len() <= 0xffff_ffff,
            low == worst(c@, c@.len() as int),
            sum == vote(c@, m, low as int, i as int),
            0 <= sum <= i * 0x1_0000_0000_0000_0000,
        decreases c@.len() - i,
    {
        let r = c[i];
        if r.best_move == m {
            proof {
                lemma_worst(c@, c@.len() as int, i as int);
            }
            let over: i128 = r.score.0 as i128 - low as i128 + 14;
            let depth: i128 = if r.depth < 1 {
                1
            } else {
                r.depth as i128
            };
            assert(0 <= over * depth <= 0x1_0000_0000_0000_0000) by (nonlinear_arith)
                requires
                    0 <= over <= 0x1_0000_000e,
                    1 <= depth <= 0x7fff_ffff,
            ;
            sum = sum + over * depth;
        }
        i += 1;
    }
    sum
}

/// Choose the move that a set of finished searches agrees on. With no candidate there is no
/// move.
pub fn elect(results: &Vec<SearchResult>) -> (r: SearchResult)
    requires
        results@.len() <= 0xffff_ffff,
    ensures
        ({
            let c = candidates(results@, results@.len() as int);
            if c.len() == 0 {
                r.best_move == Move(0) && r.ponder_move is None && r.score == Value(0) && r.depth == 0
                    && r.nodes == 0
            } else {
                exists|k: int| #[trigger] elected(c, k) && r == c[k]
            }
        }),
{
    let mut c: Vec<SearchResult> = Vec::new();
    let mut i: usize = 0;
    while i < results.len()
        invariant
            i <= results@.len(),
            c@ == candidates(results@, i as int),
            c@.len() <= i,
        decreases results@.len() - i,
    {
        if results[i].best_move.is_ok() {
            c.push(results[i]);
        }
        i += 1;
    }
    if c.len() == 0 {
        return SearchResult {
            best_move: Move(0),
            ponder_move: None,
            score: Value(0),
            depth: 0,
            nodes: 0,
        };
    }
    let low = lowest(&c);
    let mut best: usize = 0;
    let mut most: i128 = count_vote(&c, c[0].best_move, low);
    let mut k: usize = 1;
    assert(!preferred(c@, 0, 0));
    while k < c.len()
        invariant
            1 <= k <= c@.len() <= 0xffff_ffff,
            best < k,
            low == worst(c@, c@.len() as int),
            most == support(c@, best as int),
            forall|j: int| 0 <= j < k ==> !#[trigger] preferred(c@, j, best as int),
            forall|j: int| 0 <= j < best ==> #[trigger] preferred(c@, best as int, j),
        decreases c@.len() - k,
    {
        let total = count_vote(&c, c[k].best_move, low);
        let better = total > most || (total == most && (c[k].depth > c[best].depth || (c[k].depth
            == c[best].depth && c[k].score.0 > c[best].score.0)));
        assert(better == preferred(c@, k as int, best as int));
        if better {
            proof {
                assert forall|j: int| 0 <= j < k implies #[trigger] preferred(c@, k as int, j) by {
                    assert(!preferred(c@, j, best as int));
                }
                assert forall|j: int| 0 <= j < k + 1 implies !#[trigger] preferred(
                    c@,
                    j,
                    k as int,
                ) by {
                    if j < k {
                        assert(preferred(c@, k as int, j));
                    }
                }
            }
            best = k;
            most = total;
        }
        k += 1;
    }
    assert(elected(c@, best as int));
    c[best]
}

/// Which of several finished searches may overrule the first: the others count only for a
/// plain search, one that asks for a single line, has no depth limit and no handicap.
pub open spec fn votes_count(
    others: Seq<SearchResult>,
    multi_pv: usize,
    depth_limited: bool,
    handicapped: bool,
) -> bool {
    others.len() > 0 && multi_pv == 1 && !depth_limited && !handicapped
}

/// What a search by several workers answers: the first worker's result, or the one that all of
/// them elect, with all the nodes that were searched.
pub fn settle(
    first: SearchResult,
    others: &Vec<SearchResult>,
    multi_pv: usize,
    depth_limited: bool,
    handicapped: bool,
    node_count: u64,
) -> (r: SearchResult)
    requires
        others@.len() < 0xffff_ffff,
    ensures
        exists|chosen: SearchResult|
            {
                &&& if votes_count(others@, multi_pv, depth_limited, handicapped) {
                    let all = seq![first] + others@;
                    let c = candidates(all, all.len() as int);
                    if c.len() == 0 {
                        chosen.best_move == Move(0) && chosen.ponder_move is None && chosen.score
                            == Value(0) && chosen.depth == 0 && chosen.nodes == 0
                    } else {
                        exists|k: int| #[trigger] elected(c, k) && chosen == c[k]
                    }
                } else {
                    chosen == first
                }
                &&& #[trigger] counted(chosen, node_count) == r
            },
{
    let mut r = first;
    if others.len() > 0 && multi_pv == 1 && !depth_limited && !handicapped {
        let mut all: Vec<SearchResult> = Vec::new();
        all.push(first);
        let mut i: usize = 0;
        while i < others.len()
            invariant
                i <= others@.len(),
                all@ == seq![first] + others@.subrange(0, i as int),
            decreases others@.len() - i,
        {
            all.push(others[i]);
            i += 1;
            assert(all@ =~= seq![first] + others@.subrange(0, i as int));
        }
        assert(others@.subrange(0, i as int) =~= others@);
        r = elect(&all);
    }
    let ghost chosen = r;
    if node_count > r.nodes {
        r.nodes = node_count;
    }
    assert(counted(chosen, node_count) == r);
    r
}

/// The result with the larger of two node counts.
pub open spec fn counted(r: SearchResult, node_count: u64) -> SearchResult {
    SearchResult {
        nodes: if node_count > r.nodes {
            node_count
        } else {
            r.nodes
        },
        ..r
    }
}

/// How many workers a pool of `n` has: at least one.
pub fn pool_size(n: usize) -> (r: usize)
    ensures
        r == (if n == 0 {
            1
        } else {
            n
        }),
{
    if n == 0 {
        1
    } else {
        n
    }
}

} // verus!
