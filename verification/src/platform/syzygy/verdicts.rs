//! What verdicts, distances and ranks say of each other.

use vstd::prelude::*;
use crate::board::movegen::Node;
use crate::board::position::Position;
use crate::board::tally;
use crate::board::types::{Color, Move, Piece};
use crate::platform::syzygy::probe;
use crate::platform::syzygy::probe::{ProbeState, Wdl};
use crate::platform::syzygy::registry;
use crate::platform::syzygy::registry::{TableRegistry, Tried};
use crate::platform::syzygy::table::{Loaded, TbTable, TbType};

verus! {

// ---------------------------------------------------------------------------
// The verdict is the best that can be had
// ---------------------------------------------------------------------------

/// The move is searched and its verdict, for the side that makes it, is `w`.
pub open spec fn leads_to(r: &TableRegistry, n: Node, all: bool, m: Move, w: Wdl) -> bool {
    &&& registry::searched(n, m, all)
    &&& r.verdict(n.next(m), false) matches Ok(found) && found.0.num() == -w.num()
}

/// One more move.
proof fn lemma_step(r: &TableRegistry, n: Node, all: bool, s: Seq<Move>, i: int)
    requires
        r.tried(n, all, s, i) is Ok,
        0 <= i,
    ensures
        i == 0 ==> r.tried(n, all, s, i)->Ok_0 == (Tried { best: Wdl::Loss, count: 0, won: false }),
        i > 0 ==> {
            let p = r.tried(n, all, s, i - 1)->Ok_0;
            let t = r.tried(n, all, s, i)->Ok_0;
            let m = s[i - 1];
            &&& r.tried(n, all, s, i - 1) is Ok
            &&& p.won || !registry::searched(n, m, all) ==> t == p
            &&& !p.won && registry::searched(n, m, all) ==> {
                let v = (r.verdict(n.next(m), false)->Ok_0).0.opposite();
                &&& r.verdict(n.next(m), false) is Ok
                &&& t.count == p.count + 1
                &&& t.best == if v.num() > p.best.num() {
                    v
                } else {
                    p.best
                }
                &&& t.won == (v.num() > p.best.num() && v == Wdl::Win)
            }
        },
{
    reveal(TableRegistry::tried);
}

#[verifier::spinoff_prover]
proof fn lemma_tried(r: &TableRegistry, n: Node, all: bool, s: Seq<Move>, i: int, j: int)
    requires
        r.tried(n, all, s, i) is Ok,
        0 <= i,
    ensures
        ({
            let t = r.tried(n, all, s, i)->Ok_0;
            &&& 0 <= t.count <= i
            &&& t.won ==> t.best == Wdl::Win
            &&& 0 <= j < i && registry::searched(n, s[j], all) ==> t.won || (t.count > 0 && r.verdict(
                n.next(s[j]),
                false,
            ) is Ok && -(r.verdict(n.next(s[j]), false)->Ok_0).0.num() <= t.best.num())
            &&& t.count > 0 ==> exists|k: int|
                0 <= k < i && #[trigger] leads_to(r, n, all, s[k], t.best)
            &&& t.count == 0 ==> t.best == Wdl::Loss && !t.won
            &&& t.count == i && !t.won ==> (0 <= j < i ==> registry::searched(n, s[j], all))
        }),
    decreases i,
{
    lemma_step(r, n, all, s, i);
    if i > 0 {
        lemma_tried(r, n, all, s, i - 1, j);
        let p = r.tried(n, all, s, i - 1)->Ok_0;
        let t = r.tried(n, all, s, i)->Ok_0;
        let m = s[i - 1];
        if p.count > 0 {
            let k = choose|k: int| 0 <= k < i - 1 && #[trigger] leads_to(r, n, all, s[k], p.best);
            assert(0 <= k < i && leads_to(r, n, all, s[k], p.best));
        }
        if !p.won && registry::searched(n, m, all) {
            let w = (r.verdict(n.next(m), false)->Ok_0).0;
            if -w.num() > p.best.num() || p.count == 0 {
                assert(leads_to(r, n, all, s[i - 1], t.best));
            }
        }
    }
}

/// No searched move has a better verdict than the position: what a move leaves the other side with
/// is never worse for it than the position is good.
#[verifier::spinoff_prover]
pub proof fn law_no_searched_move_is_better(r: &TableRegistry, n: Node, all: bool, m: Move)
    requires
        r.verdict(n, all) is Ok,
        n.legal_moves().contains(m),
        registry::searched(n, m, all),
        r.verdict(n.next(m), false) is Ok,
    ensures
        (r.verdict(n, all)->Ok_0).0.num() >= -(r.verdict(n.next(m), false)->Ok_0).0.num(),
{
    r.lemma_verdict(n, all);
    let s = n.legal_moves();
    let j = s.index_of(m);
    assert(s[j] == m && 0 <= j < s.len());
    lemma_tried(r, n, all, s, s.len() as int, j);
}

/// A table's verdict counts too, where some move is not searched: the position is never worse than
/// the table says.
#[verifier::spinoff_prover]
pub proof fn law_the_verdict_is_no_worse_than_the_tables(
    r: &TableRegistry,
    n: Node,
    all: bool,
    m: Move,
    v: int,
)
    requires
        r.verdict(n, all) is Ok,
        n.legal_moves().contains(m),
        !registry::searched(n, m, all),
        r.table_answer(n.b, n.stm, TbType::Wdl, Wdl::Draw) == Ok::<int, ProbeState>(v),
        -2 <= v <= 2,
    ensures
        (r.verdict(n, all)->Ok_0).0.num() >= v,
{
    r.lemma_verdict(n, all);
    let s = n.legal_moves();
    let j = s.index_of(m);
    assert(s[j] == m && 0 <= j < s.len());
    lemma_tried(r, n, all, s, s.len() as int, j);
}

/// The verdict is that of a searched move or of the table; where the best move is said to reset the
/// clock, it is that of a searched move.
#[verifier::spinoff_prover]
pub proof fn law_the_verdict_is_reached(r: &TableRegistry, n: Node, all: bool)
    requires
        r.verdict(n, all) is Ok,
    ensures
        ({
            let found = r.verdict(n, all)->Ok_0;
            let moved = exists|m: Move|
                n.legal_moves().contains(m) && #[trigger] leads_to(r, n, all, m, found.0);
            let stored = r.table_answer(n.b, n.stm, TbType::Wdl, Wdl::Draw) == Ok::<int, ProbeState>(
                found.0.num(),
            );
            &&& moved || stored
            &&& found.1 == ProbeState::ZeroingBestMove ==> moved
            &&& found.1 == ProbeState::ZeroingBestMove || found.1 == ProbeState::Found
        }),
{
    r.lemma_verdict(n, all);
    let s = n.legal_moves();
    let t = r.tried(n, all, s, s.len() as int)->Ok_0;
    lemma_tried(r, n, all, s, s.len() as int, 0);
    if t.count > 0 {
        let k = choose|k: int|
            0 <= k < s.len() && #[trigger] leads_to(r, n, all, s[k], t.best);
        assert(s.contains(s[k]));
        assert(leads_to(r, n, all, s[k], t.best));
    }
}

// ---------------------------------------------------------------------------
// Distances
// ---------------------------------------------------------------------------

proof fn lemma_signed(d: int, w: Wdl)
    ensures
        registry::signed_distance(d, w) == match w {
            Wdl::Win => d,
            Wdl::CursedWin => d + 100,
            Wdl::Draw => 0,
            Wdl::BlessedLoss => -d - 100,
            Wdl::Loss => -d,
        },
{
    let s = registry::sign(w.num());
    let x = d + (if w == Wdl::BlessedLoss || w == Wdl::CursedWin {
        100int
    } else {
        0int
    });
    assert(s == 1 || s == 0 || s == -1);
    assert(x * s == (if s == 1 {
        x
    } else if s == 0 {
        0
    } else {
        -x
    })) by (nonlinear_arith)
        requires
            s == 1 || s == 0 || s == -1,
    ;
}

/// A stored distance gets the sign of its verdict, and the other side sees it with the other sign.
/// What the fifty-move rule makes a draw is a hundred plies further.
pub proof fn law_distances_have_the_verdicts_sign(d: int, w: Wdl)
    requires
        d > 0,
    ensures
        w == Wdl::Win || w == Wdl::CursedWin ==> registry::signed_distance(d, w) > 0,
        w == Wdl::Loss || w == Wdl::BlessedLoss ==> registry::signed_distance(d, w) < 0,
        w == Wdl::Draw ==> registry::signed_distance(d, w) == 0,
        registry::signed_distance(d, w.opposite()) == -registry::signed_distance(d, w),
        registry::signed_distance(d, Wdl::Win) == d,
        registry::signed_distance(d, Wdl::CursedWin) == d + 100,
        registry::zeroing_distance(Wdl::Win) == registry::signed_distance(1, Wdl::Win),
        registry::zeroing_distance(Wdl::CursedWin) == registry::signed_distance(1, Wdl::CursedWin),
        registry::zeroing_distance(Wdl::Loss) == registry::signed_distance(1, Wdl::Loss),
        registry::zeroing_distance(Wdl::BlessedLoss) == registry::signed_distance(
            1,
            Wdl::BlessedLoss,
        ),
{
    lemma_signed(d, w);
    lemma_signed(d, w.opposite());
    lemma_signed(d, Wdl::Win);
    lemma_signed(d, Wdl::CursedWin);
    lemma_signed(1, Wdl::Win);
    lemma_signed(1, Wdl::CursedWin);
    lemma_signed(1, Wdl::Loss);
    lemma_signed(1, Wdl::BlessedLoss);
}

/// How far a move is that leaves a distance of `d` behind it: a ply more unless it resets the clock.
pub open spec fn through(n: Node, m: Move, d: int) -> int {
    if registry::resets(n, m) {
        d
    } else if d > 0 {
        d + 1
    } else if d < 0 {
        d - 1
    } else {
        d
    }
}

#[verifier::spinoff_prover]
proof fn lemma_least(r: &TableRegistry, n: Node, w: Wdl, s: Seq<Move>, i: int, j: int)
    requires
        0 <= i <= s.len(),
        r.least_distance(n, w, s, i) is Ok,
        w.num() > 0,
    ensures
        ({
            let least = r.least_distance(n, w, s, i)->Ok_0;
            &&& 1 <= least <= 0xFFFF
            &&& 0 <= j < i ==> r.distance_after(n, s[j]) is Ok && (through(
                n,
                s[j],
                r.distance_after(n, s[j])->Ok_0,
            ) > 0 ==> least <= through(n, s[j], r.distance_after(n, s[j])->Ok_0))
            &&& 0 <= j < i && r.distance_after(n, s[j]) == Ok::<int, ProbeState>(1)
                && registry::mated(n.next(s[j])) ==> least == 1
            &&& least == 0xFFFF || exists|k: int|
                0 <= k < i && #[trigger] reaches(r, n, s[k], least)
        }),
    decreases i,
{
    reveal(TableRegistry::least_distance);
    if i > 0 {
        lemma_least(r, n, w, s, i - 1, j);
        let before = r.least_distance(n, w, s, i - 1)->Ok_0;
        let least = r.least_distance(n, w, s, i)->Ok_0;
        if before != 0xFFFF {
            let k = choose|k: int| 0 <= k < i - 1 && #[trigger] reaches(r, n, s[k], before);
            assert(0 <= k < i && reaches(r, n, s[k], before));
        }
        if least != before {
            assert(reaches(r, n, s[i - 1], least));
        }
    }
}

/// The move is at this distance, or it mates at once.
pub open spec fn reaches(r: &TableRegistry, n: Node, m: Move, d: int) -> bool {
    r.distance_after(n, m) matches Ok(e) && (through(n, m, e) == d || (e == 1 && d == 1
        && registry::mated(n.next(m))))
}

/// Where the moves of a won position are tried, the distance is the least of those that win: no
/// winning move is shorter, and some move has it.
pub proof fn law_the_shortest_win_counts(r: &TableRegistry, n: Node, w: Wdl, m: Move)
    requires
        w.num() > 0,
        n.legal_moves().contains(m),
        r.plain(n) == Ok::<Result<int, Wdl>, ProbeState>(Err(w)),
        r.distance(n, false) is Ok,
        r.distance(n, false)->Ok_0 > 0,
    ensures
        ({
            let d = r.distance(n, false)->Ok_0;
            &&& r.distance_after(n, m) is Ok
            &&& through(n, m, r.distance_after(n, m)->Ok_0) > 0 ==> d <= through(
                n,
                m,
                r.distance_after(n, m)->Ok_0,
            )
            &&& exists|best: Move|
                n.legal_moves().contains(best) && #[trigger] reaches(r, n, best, d)
        }),
{
    r.lemma_distance(n, false);
    let s = n.legal_moves();
    let j = s.index_of(m);
    assert(s[j] == m && 0 <= j < s.len());
    lemma_least(r, n, w, s, s.len() as int, j);
    let d = r.distance(n, false)->Ok_0;
    let k = choose|k: int| 0 <= k < s.len() && #[trigger] reaches(r, n, s[k], d);
    assert(s.contains(s[k]));
}

/// A move's distance is what the position after it is for the other side: a move that leaves it
/// lost is at a positive distance, one that leaves it won at a negative one.
pub proof fn law_root_distances_are_the_movers(r: &TableRegistry, mid: &Position, rule50: bool)
    requires
        r.root_distance(mid, rule50) is Ok,
    ensures
        ({
            let d = r.root_distance(mid, rule50)->Ok_0;
            &&& mid.top().rule50 == 0 ==> ({
                let w = (r.verdict(mid.node(), false)->Ok_0).0;
                &&& (w == Wdl::Loss || w == Wdl::BlessedLoss) == (d > 0)
                &&& (w == Wdl::Win || w == Wdl::CursedWin) == (d < 0)
            })
            &&& mid.top().rule50 != 0 && !registry::drawn(mid, 1) ==> ({
                let e = r.distance(mid.node(), false)->Ok_0;
                &&& (e < 0) == (d > 0)
                &&& (e > 0) == (d < 0)
                &&& e > 0 ==> d == -e - 1
                &&& e < 0 ==> d == -e + 1 || d == 1
            })
            &&& mid.top().rule50 != 0 && registry::drawn(mid, 1) && rule50 ==> d == 0
        }),
{
}

// ---------------------------------------------------------------------------
// Ranks and scores
// ---------------------------------------------------------------------------

/// A win that the clock allows ranks above one that it does not, that above a draw, and a draw above
/// every loss; a loss that the clock may save ranks above one that it cannot. Where distances count,
/// the shorter win ranks higher and the longer loss does.
#[verifier::spinoff_prover]
pub proof fn law_ranks_order_the_moves(a: int, b: int, clock: int, rank_dtz: bool)
    requires
        0 <= clock,
        -100_000 <= a <= 100_000,
        -100_000 <= b <= 100_000,
        clock <= 1000,
    ensures
        ({
            let x = registry::root_rank(a, clock, false, rank_dtz);
            let y = registry::root_rank(b, clock, false, rank_dtz);
            &&& 0 < a && a + clock <= 99 && b + clock > 99 ==> x > y
            &&& 0 < a && b <= 0 ==> x > y
            &&& a == 0 && b < 0 ==> x > y
            &&& a < 0 && b < 0 && -2 * a + clock >= 100 && -2 * b + clock < 100 ==> x > y
            &&& 0 < a < b && a + clock > 99 ==> x > y
            &&& rank_dtz && 0 < a < b && b + clock <= 99 ==> x > y
            &&& rank_dtz && a < b < 0 && -2 * a + clock < 100 ==> x > y
            &&& !rank_dtz && 0 < a && a + clock <= 99 && 0 < b && b + clock <= 99 ==> x == y
            &&& registry::root_rank(a, clock, true, rank_dtz) <= x || a <= 0
        }),
{
}

/// A higher rank never has a lower score, the score has the rank's sign, and the same rank for the
/// other side has the opposite score.
#[verifier::spinoff_prover]
pub proof fn law_scores_follow_the_ranks(x: int, y: int, rule50: bool)
    requires
        x <= y,
    ensures
        ({
            let b = registry::root_bound(rule50);
            &&& registry::root_score(x, b) <= registry::root_score(y, b)
            &&& registry::root_score(-x, b) == -registry::root_score(x, b)
            &&& x > 0 ==> registry::root_score(x, b) > 0
            &&& x == 0 ==> registry::root_score(x, b) == 0
        }),
{
}

/// Without the fifty-move rule every won move scores as a win. With it only one that ranks within a
/// hundred of the certain ones does, and what the rule takes away scores less than a pawn.
pub proof fn law_only_certain_wins_score_as_wins(x: int)
    requires
        x > 0,
    ensures
        registry::root_score(x, registry::root_bound(false)) == 31753,
        x >= 130972 ==> registry::root_score(x, registry::root_bound(true)) == 31753,
        x < 130972 ==> 0 < registry::root_score(x, registry::root_bound(true)) < 208,
{
}

/// A better verdict has a higher rank and never a lower score, and the other side's is the opposite.
/// A cursed win and a blessed loss are all but draws under the fifty-move rule, a win and a loss
/// without it.
pub proof fn law_verdicts_are_ranked(v: Wdl, w: Wdl, rule50: bool)
    ensures
        v.num() < w.num() ==> registry::verdict_rank(v) < registry::verdict_rank(w),
        v.num() < w.num() ==> registry::verdict_score(v, rule50) <= registry::verdict_score(
            w,
            rule50,
        ),
        registry::verdict_rank(v.opposite()) == -registry::verdict_rank(v),
        registry::verdict_score(v.opposite(), rule50) == -registry::verdict_score(v, rule50),
        registry::verdict_score(Wdl::CursedWin, false) == registry::verdict_score(
            Wdl::Win,
            rule50,
        ),
        registry::verdict_score(Wdl::CursedWin, true) == 2,
        registry::verdict_score(Wdl::Win, rule50) == registry::root_score(
            registry::verdict_rank(Wdl::Win),
            registry::root_bound(rule50),
        ),
{
}

// ---------------------------------------------------------------------------
// Whose table it is
// ---------------------------------------------------------------------------

/// A position with the material that a table is named after is seen as it stands, one with the
/// colours exchanged is seen with the colours exchanged, and a table for the same material on both
/// sides is always seen from the side to move.
pub proof fn law_tables_see_their_own_side(t: &TbTable, b: Seq<Piece>, stm: Color)
    ensures
        t.key != t.key2 && tally::material_of(b) == t.key ==> t.seen_side(b, stm) == stm.idx(),
        t.key != t.key2 && tally::material_of(b) == t.key2 ==> t.seen_side(b, stm)
            == stm.opp().idx(),
        t.key == t.key2 && tally::material_of(b) == t.key ==> t.seen_side(b, stm) == 0,
{
}

/// A table of distances for different sides stores one side to move: where its first flag is not
/// set, the side that the table is named after first is answered and the other is asked for; where
/// it is set, the other way round.
pub proof fn law_distances_are_stored_for_one_side(
    t: &TbTable,
    l: &Loaded,
    b: Seq<Piece>,
    stm: Color,
    w: Wdl,
)
    requires
        t.kind == TbType::Dtz,
        t.key != t.key2,
        tally::material_of(b) == t.key,
        probe::company(b, false, t.lead_piece(l, false)).len() == t.piece_count,
    ensures
        ({
            let front = probe::leads(b, false, t.lead_piece(l, false));
            let d = l.items@[t.part_of(0, t.lead_file(front))];
            (t.answer(l, b, stm, w) == Err::<int, ProbeState>(ProbeState::ChangeStm)) == ((
            d.flags as int % 2 == 1) != (stm == Color::Black))
        }),
{
    assert(t.side_count() == 1);
    assert(!t.mirrors(b, stm));
    let front = probe::leads(b, false, t.lead_piece(l, false));
    assert(t.part_of(stm.idx(), t.lead_file(front)) == t.part_of(0, t.lead_file(front)));
}

} // verus!
