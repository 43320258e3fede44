//! A position's place in a table, and the value there.
//!
//! A position becomes one number by folding every symmetry that it has: the reflections of the
//! board, the likeness of equal pieces, and that a file stores the colours one way round only.

use vstd::prelude::*;
use crate::board::placement;
use crate::board::position::Position;
use crate::board::tally;
use crate::board::types::{Color, Piece, Square};
use crate::platform::syzygy::pairs;
use crate::platform::syzygy::pairs::{
    decompress, has_flag, PairsData, FLAG_LOSS_PLIES, FLAG_MAPPED, FLAG_STM, FLAG_WIDE,
    FLAG_WIN_PLIES,
};
use crate::platform::syzygy::table::{Loaded, TbTable, TbType};
use crate::platform::syzygy::tables;
use crate::platform::syzygy::tables::IndexTables;

verus! {

/// Win, draw or loss, for the side to move. The two in the middle are a loss and a win that
/// the fifty-move rule makes draws.
#[derive(Clone, Copy, PartialEq, Eq, Structural, PartialOrd, Ord, Debug)]
pub enum Wdl {
    Loss,
    BlessedLoss,
    Draw,
    CursedWin,
    Win,
}

impl Wdl {
    /// The verdict as a number from -2 to 2.
    pub open spec fn num(self) -> int {
        match self {
            Wdl::Loss => -2,
            Wdl::BlessedLoss => -1,
            Wdl::Draw => 0,
            Wdl::CursedWin => 1,
            Wdl::Win => 2,
        }
    }

    /// The verdict with a number, a draw where there is none.
    pub open spec fn numbered(v: int) -> Wdl {
        if v == -2 {
            Wdl::Loss
        } else if v == -1 {
            Wdl::BlessedLoss
        } else if v == 1 {
            Wdl::CursedWin
        } else if v == 2 {
            Wdl::Win
        } else {
            Wdl::Draw
        }
    }

    /// The verdict for the other side.
    pub open spec fn opposite(self) -> Wdl {
        Wdl::numbered(-self.num())
    }

    /// The verdict that a file stores, if it is one.
    pub open spec fn stored(v: int) -> Option<Wdl> {
        if -2 <= v <= 2 {
            Some(Wdl::numbered(v))
        } else {
            None
        }
    }

    /// The verdict as a number.
    pub fn value(self) -> (r: i32)
        ensures
            r == self.num(),
    {
        match self {
            Wdl::Loss => -2,
            Wdl::BlessedLoss => -1,
            Wdl::Draw => 0,
            Wdl::CursedWin => 1,
            Wdl::Win => 2,
        }
    }

    /// The verdict with a number; any other number reads as a draw.
    pub fn from_i32(v: i32) -> (r: Wdl)
        ensures
            r == Wdl::numbered(v as int),
    {
        match v {
            -2 => Wdl::Loss,
            -1 => Wdl::BlessedLoss,
            1 => Wdl::CursedWin,
            2 => Wdl::Win,
            _ => Wdl::Draw,
        }
    }

    /// The verdict that a file stores. A number that no file should hold is refused.
    pub fn from_stored(v: i32) -> (r: Option<Wdl>)
        ensures
            r == Wdl::stored(v as int),
    {
        if v < -2 || v > 2 {
            None
        } else {
            Some(Wdl::from_i32(v))
        }
    }

    /// The verdict for the other side.
    pub fn negate(self) -> (r: Wdl)
        ensures
            r == self.opposite(),
    {
        Wdl::from_i32(-self.value())
    }
}

/// The other side's verdict of the other side's verdict is the verdict.
pub proof fn law_negation_undoes_itself(w: Wdl)
    ensures
        w.opposite().opposite() == w,
        w.opposite().num() == -w.num(),
        Wdl::stored(w.num()) == Some(w),
{
}

/// How a probe went.
#[derive(Clone, Copy, PartialEq, Eq, Structural, Debug)]
pub enum ProbeState {
    /// No table answered.
    Fail,
    /// The probe succeeded.
    Found,
    /// The best move resets the clock.
    ZeroingBestMove,
    /// The table has the other side to move only.
    ChangeStm,
}

// ---------------------------------------------------------------------------
// The pieces, seen from the table's side
// ---------------------------------------------------------------------------

/// A piece and its square, by their numbers.
#[derive(Clone, Copy, Debug, PartialEq, Eq, Structural)]
pub struct Man {
    pub code: u8,
    pub sq: u8,
}

/// A piece code with the colour exchanged, where `m` says so.
pub open spec fn turned_code(c: int, m: bool) -> int {
    if !m {
        c
    } else if c < 8 {
        c + 8
    } else {
        c - 8
    }
}

/// A square with the ranks turned round, where `m` says so.
pub open spec fn turned_square(s: int, m: bool) -> int {
    if m {
        Square::mirrored(s)
    } else {
        s
    }
}

/// What stands on square `s`, seen from the table's side.
#[verifier::opaque]
pub open spec fn man_at(b: Seq<Piece>, m: bool, s: int) -> Man {
    Man { code: turned_code(b[s].code(), m) as u8, sq: turned_square(s, m) as u8 }
}

/// The pieces on the first `n` squares that are `lead`, or those that are not.
pub open spec fn men_upto(b: Seq<Piece>, m: bool, lead: Piece, are: bool, n: int) -> Seq<Man>
    decreases n,
{
    if n <= 0 {
        Seq::empty()
    } else {
        let rest = men_upto(b, m, lead, are, n - 1);
        if b[n - 1] != Piece::NONE && (b[n - 1] == lead) == are {
            rest.push(man_at(b, m, n - 1))
        } else {
            rest
        }
    }
}

/// The first of the first `n` men with the highest pawn number.
pub open spec fn foremost(men: Seq<Man>, n: int) -> int
    decreases n,
{
    if n <= 1 {
        0
    } else {
        let p = foremost(men, n - 1);
        if tables::pawn_number(men[p].sq as int) < tables::pawn_number(men[n - 1].sq as int) {
            n - 1
        } else {
            p
        }
    }
}

/// Two men exchanged.
pub open spec fn exchanged(men: Seq<Man>, i: int, j: int) -> Seq<Man> {
    men.update(i, men[j]).update(j, men[i])
}

/// The leading pawns, the foremost first.
pub open spec fn leads(b: Seq<Piece>, m: bool, lead: Piece) -> Seq<Man> {
    let men = men_upto(b, m, lead, true, 64);
    if men.len() == 0 {
        men
    } else {
        exchanged(men, 0, foremost(men, men.len() as int))
    }
}

/// The first man from `j` on with a code, or the number of men.
pub open spec fn match_from(men: Seq<Man>, code: u8, j: int) -> int
    decreases men.len() - j,
{
    if j >= men.len() || men[j].code == code {
        j
    } else {
        match_from(men, code, j + 1)
    }
}

/// The men brought into the order `want`, from place `i` on.
pub open spec fn arranged(men: Seq<Man>, want: Seq<u8>, i: int) -> Seq<Man>
    decreases men.len() - i,
{
    if i < 0 || i >= men.len() - 1 {
        men
    } else {
        let j = match_from(men, want[i], i + 1);
        if i < j < men.len() {
            arranged(exchanged(men, i, j), want, i + 1)
        } else {
            arranged(men, want, i + 1)
        }
    }
}

/// The men are those that the part is for, in its order.
pub open spec fn in_order(men: Seq<Man>, want: Seq<u8>) -> bool {
    forall|i: int| 0 <= i < men.len() ==> (#[trigger] men[i]).code == want[i]
}

/// No pawn stands on the first or the last rank.
pub open spec fn pawns_inside(men: Seq<Man>) -> bool {
    forall|i: int|
        0 <= i < men.len() && (#[trigger] men[i]).code % 8 == 1 ==> 8 <= men[i].sq < 56
}

/// A square with the files turned round.
pub open spec fn across(s: int) -> int {
    8 * (s / 8) + (7 - s % 8)
}

/// A square with rank and file exchanged.
pub open spec fn transposed(s: int) -> int {
    8 * (s % 8) + s / 8
}

/// Every man moved by `f`.
pub open spec fn moved(men: Seq<Man>, f: spec_fn(int) -> int) -> Seq<Man> {
    Seq::new(men.len(), |i: int| Man { code: men[i].code, sq: f(men[i].sq as int) as u8 })
}

/// The first of the men from `i` below `n` that is off the diagonal, or `n`.
pub open spec fn off_from(men: Seq<Man>, i: int, n: int) -> int
    decreases n - i,
{
    if i >= n || tables::off_diagonal(men[i].sq as int) != 0 {
        i
    } else {
        off_from(men, i + 1, n)
    }
}

/// The first man in the left half.
pub open spec fn left_half(men: Seq<Man>) -> Seq<Man> {
    if men[0].sq % 8 > 3 {
        moved(men, |s: int| across(s))
    } else {
        men
    }
}

/// The first man in the lower half.
pub open spec fn lower_half(men: Seq<Man>) -> Seq<Man> {
    if men[0].sq / 8 > 3 {
        moved(men, |s: int| Square::mirrored(s))
    } else {
        men
    }
}

/// The first man of the first group that is off the diagonal is below it.
pub open spec fn below_diagonal(men: Seq<Man>, len: int) -> Seq<Man> {
    let i = off_from(men, 0, len);
    if i < len && tables::off_diagonal(men[i].sq as int) > 0 {
        moved(men, |s: int| transposed(s))
    } else {
        men
    }
}

/// The men with the symmetries of the board folded.
pub open spec fn folded(men: Seq<Man>, has_pawns: bool, len: int) -> Seq<Man> {
    if has_pawns {
        left_half(men)
    } else {
        below_diagonal(lower_half(left_half(men)), len)
    }
}

// ---------------------------------------------------------------------------
// The index
// ---------------------------------------------------------------------------

/// How many of the men from `from` below `to` are on a square below `x`.
pub open spec fn lower(men: Seq<Man>, from: int, to: int, x: int) -> int
    decreases to - from,
{
    if from >= to {
        0
    } else {
        lower(men, from, to - 1, x) + (if men[to - 1].sq < x {
            1int
        } else {
            0int
        })
    }
}

/// How many of the pawns from `from` below `to` have a number below `x`.
pub open spec fn fewer(men: Seq<Man>, from: int, to: int, x: int) -> int
    decreases to - from,
{
    if from >= to {
        0
    } else {
        fewer(men, from, to - 1, x) + (if tables::pawn_number(men[to - 1].sq as int) < x {
            1int
        } else {
            0int
        })
    }
}

/// The combination that the leading pawns behind the first make: each by its pawn number and
/// by how many of them have a lower one, `k` of them counted.
pub open spec fn lead_combination(men: Seq<Man>, count: int, k: int) -> int
    decreases k,
{
    if k <= 1 {
        0
    } else {
        let x = tables::pawn_number(men[k - 1].sq as int);
        lead_combination(men, count, k - 1) + tables::combos(x, 1 + fewer(men, 1, count, x))
    }
}

/// The combination that a group makes: each by its square less the squares that the men before
/// the group take below it, and by how many of the group are below it. The pawns of the second
/// group are numbered from a2.
pub open spec fn combination(men: Seq<Man>, start: int, len: int, pawns: bool, k: int) -> int
    decreases k,
{
    if k <= 0 {
        0
    } else {
        let x = men[start + k - 1].sq as int;
        let v = x - lower(men, 0, start, x) - (if pawns {
            8int
        } else {
            0int
        });
        combination(men, start, len, pawns, k - 1) + tables::combos(
            v,
            1 + lower(men, start, start + len, x),
        )
    }
}

/// What the groups from `g` on add to the index.
pub open spec fn rest_index(
    men: Seq<Man>,
    lens: Seq<int>,
    w: Seq<int>,
    g: int,
    start: int,
    pawns: bool,
) -> int
    decreases lens.len() - g,
{
    if g >= lens.len() {
        0
    } else {
        combination(men, start, lens[g], pawns, lens[g]) * w[g] + rest_index(
            men,
            lens,
            w,
            g + 1,
            start + lens[g],
            false,
        )
    }
}

/// One where a condition holds.
pub open spec fn one_if(c: bool) -> int {
    if c {
        1
    } else {
        0
    }
}

/// The number of the placement of three pieces that can be told apart: in four cases, by how
/// many of them are on the diagonal.
pub open spec fn three_number(men: Seq<Man>) -> int {
    let s0 = men[0].sq as int;
    let s1 = men[1].sq as int;
    let s2 = men[2].sq as int;
    let a1 = one_if(s1 > s0);
    let a2 = one_if(s2 > s0) + one_if(s2 > s1);
    if tables::off_diagonal(s0) != 0 {
        (tables::triangle_number(s0) * 63 + (s1 - a1)) * 62 + s2 - a2
    } else if tables::off_diagonal(s1) != 0 {
        (6 * 63 + s0 / 8 * 28 + tables::below_number(s1)) * 62 + s2 - a2
    } else if tables::off_diagonal(s2) != 0 {
        6 * 63 * 62 + 4 * 28 * 62 + s0 / 8 * 7 * 28 + (s1 / 8 - a1) * 28 + tables::below_number(s2)
    } else {
        6 * 63 * 62 + 4 * 28 * 62 + 4 * 7 * 28 + s0 / 8 * 7 * 6 + (s1 / 8 - a1) * 6 + (s2 / 8 - a2)
    }
}

/// The number of the first group's placement.
pub open spec fn first_number(men: Seq<Man>, has_pawns: bool, unique: bool, count: int) -> int {
    if has_pawns {
        tables::lead_number(count, men[0].sq as int) + lead_combination(men, count, count)
    } else if unique {
        three_number(men)
    } else {
        tables::kings_number(tables::triangle_number(men[0].sq as int), men[1].sq as int)
    }
}

// ---------------------------------------------------------------------------
// Distinct squares
// ---------------------------------------------------------------------------

/// Every man is on the board, and no two share a square.
pub open spec fn distinct(men: Seq<Man>) -> bool {
    &&& forall|i: int| 0 <= i < men.len() ==> (#[trigger] men[i]).sq < 64 && men[i].code < 16
    &&& forall|i: int, j: int|
        0 <= i < j < men.len() ==> (#[trigger] men[i]).sq != (#[trigger] men[j]).sq
}

/// A man is on the board, and his square leads back.
proof fn lemma_man(b: Seq<Piece>, m: bool, s: int)
    requires
        0 <= s < 64,
    ensures
        man_at(b, m, s).sq < 64,
        man_at(b, m, s).sq == turned_square(s, m),
        man_at(b, m, s).code < 16,
        man_at(b, m, s).code == turned_code(b[s].code(), m),
        turned_square(man_at(b, m, s).sq as int, m) == s,
{
    reveal(man_at);
    assert(0 <= b[s].code() < 16);
    assert(0 <= turned_square(s, m) < 64);
}

/// The men of the first `n` squares come from those squares.
proof fn lemma_men(b: Seq<Piece>, m: bool, lead: Piece, are: bool, n: int)
    requires
        0 <= n <= 64,
    ensures
        men_upto(b, m, lead, are, n).len() <= n,
        distinct(men_upto(b, m, lead, are, n)),
        forall|i: int|
            0 <= i < men_upto(b, m, lead, are, n).len() ==> turned_square(
                (#[trigger] men_upto(b, m, lead, are, n)[i]).sq as int,
                m,
            ) < n,
    decreases n,
{
    if n > 0 {
        lemma_men(b, m, lead, are, n - 1);
        lemma_man(b, m, n - 1);
        let rest = men_upto(b, m, lead, are, n - 1);
        let all = men_upto(b, m, lead, are, n);
        if all.len() > rest.len() {
            assert forall|i: int, j: int| 0 <= i < j < all.len() implies (#[trigger] all[i]).sq
                != (#[trigger] all[j]).sq by {
                if j == rest.len() {
                    assert(all[i] == rest[i]);
                    assert(turned_square(rest[i].sq as int, m) < n - 1);
                } else {
                    assert(all[i] == rest[i] && all[j] == rest[j]);
                }
            }
            assert forall|i: int| 0 <= i < all.len() implies (#[trigger] all[i]).sq < 64
                && all[i].code < 16 && turned_square(all[i].sq as int, m) < n by {
                if i < rest.len() {
                    assert(all[i] == rest[i]);
                }
            }
        }
    }
}

/// A leading pawn and another man come from different squares.
proof fn lemma_men_apart(b: Seq<Piece>, m: bool, lead: Piece, n: int, i: int, k: int, j: int)
    requires
        0 <= n <= 64,
        0 <= k <= 64,
        0 <= i < men_upto(b, m, lead, true, n).len(),
        0 <= j < men_upto(b, m, lead, false, k).len(),
    ensures
        men_upto(b, m, lead, true, n)[i].sq != men_upto(b, m, lead, false, k)[j].sq,
    decreases n + k,
{
    let a = men_upto(b, m, lead, true, n);
    let c = men_upto(b, m, lead, false, k);
    let a1 = men_upto(b, m, lead, true, n - 1);
    let c1 = men_upto(b, m, lead, false, k - 1);
    if i < a1.len() {
        assert(a[i] == a1[i]);
        lemma_men_apart(b, m, lead, n - 1, i, k, j);
    } else if j < c1.len() {
        assert(c[j] == c1[j]);
        lemma_men_apart(b, m, lead, n, i, k - 1, j);
    } else {
        assert(b[n - 1] == lead && b[k - 1] != lead);
        lemma_man(b, m, n - 1);
        lemma_man(b, m, k - 1);
    }
}

proof fn lemma_exchanged(men: Seq<Man>, i: int, j: int)
    requires
        distinct(men),
        0 <= i < men.len(),
        0 <= j < men.len(),
    ensures
        distinct(exchanged(men, i, j)),
        exchanged(men, i, j).len() == men.len(),
{
    let e = exchanged(men, i, j);
    assert forall|x: int, y: int| 0 <= x < y < e.len() implies (#[trigger] e[x]).sq
        != (#[trigger] e[y]).sq by {
        let p = if x == i {
            j
        } else if x == j {
            i
        } else {
            x
        };
        let q = if y == i {
            j
        } else if y == j {
            i
        } else {
            y
        };
        assert(e[x] == men[p] && e[y] == men[q]);
        if p < q {
            assert(men[p].sq != men[q].sq);
        } else {
            assert(men[q].sq != men[p].sq);
        }
    }
}

proof fn lemma_foremost(men: Seq<Man>, n: int)
    requires
        1 <= n <= men.len(),
    ensures
        0 <= foremost(men, n) < n,
    decreases n,
{
    if n > 1 {
        lemma_foremost(men, n - 1);
    }
}

/// Moving every man by a one-to-one map keeps them apart.
proof fn lemma_moved(men: Seq<Man>, f: spec_fn(int) -> int)
    requires
        distinct(men),
        forall|s: int| 0 <= s < 64 ==> 0 <= #[trigger] f(s) < 64,
        forall|s: int, t: int|
            0 <= s < 64 && 0 <= t < 64 && #[trigger] f(s) == #[trigger] f(t) ==> s == t,
    ensures
        distinct(moved(men, f)),
        moved(men, f).len() == men.len(),
{
    let e = moved(men, f);
    assert forall|x: int, y: int| 0 <= x < y < e.len() implies (#[trigger] e[x]).sq
        != (#[trigger] e[y]).sq by {
        assert(men[x].sq != men[y].sq);
        assert(f(men[x].sq as int) != f(men[y].sq as int));
    }
}

/// Distinct squares from `low` on leave room: no more of them are below a square than there are
/// squares from `low` to it.
proof fn lemma_lower(men: Seq<Man>, to: int, x: int, low: int)
    requires
        distinct(men),
        0 <= to <= men.len(),
        0 <= low <= x,
        forall|i: int| 0 <= i < to ==> (#[trigger] men[i]).sq >= low,
    ensures
        0 <= lower(men, 0, to, x) <= x - low,
    decreases x,
{
    if x == low {
        lemma_none_lower(men, to, x);
    } else {
        lemma_lower(men, to, x - 1, low);
        lemma_one_lower(men, to, x - 1);
    }
}

proof fn lemma_none_lower(men: Seq<Man>, to: int, x: int)
    requires
        0 <= to <= men.len(),
        forall|i: int| 0 <= i < to ==> (#[trigger] men[i]).sq >= x,
    ensures
        lower(men, 0, to, x) == 0,
    decreases to,
{
    if to > 0 {
        lemma_none_lower(men, to - 1, x);
        assert(men[to - 1].sq >= x);
    }
}

/// At most one man is on a square.
proof fn lemma_one_lower(men: Seq<Man>, to: int, x: int)
    requires
        distinct(men),
        0 <= to <= men.len(),
    ensures
        lower(men, 0, to, x) <= lower(men, 0, to, x + 1) <= lower(men, 0, to, x) + 1,
        (forall|i: int| 0 <= i < to ==> (#[trigger] men[i]).sq != x) ==> lower(men, 0, to, x + 1)
            == lower(men, 0, to, x),
    decreases to,
{
    if to > 0 {
        lemma_one_lower(men, to - 1, x);
        if men[to - 1].sq == x {
            assert forall|i: int| 0 <= i < to - 1 implies (#[trigger] men[i]).sq != x by {
                assert(men[i].sq != men[to - 1].sq);
            }
        }
    }
}

/// Not all men of a group are below one of them.
proof fn lemma_rank(men: Seq<Man>, from: int, to: int, k: int, x: int)
    requires
        0 <= from <= to <= men.len(),
    ensures
        0 <= lower(men, from, to, x) <= to - from,
        from <= k < to && men[k].sq >= x ==> lower(men, from, to, x) <= to - from - 1,
    decreases to - from,
{
    if from < to {
        lemma_rank(men, from, to - 1, k, x);
    }
}

proof fn lemma_pawn_rank(men: Seq<Man>, from: int, to: int, k: int, x: int)
    requires
        0 <= from <= to <= men.len(),
    ensures
        0 <= fewer(men, from, to, x) <= to - from,
        from <= k < to && tables::pawn_number(men[k].sq as int) >= x ==> fewer(men, from, to, x) <= to
            - from - 1,
    decreases to - from,
{
    if from < to {
        lemma_pawn_rank(men, from, to - 1, k, x);
    }
}

// ---------------------------------------------------------------------------
// Gathering and folding
// ---------------------------------------------------------------------------

/// All men: the leading pawns, then the others.
pub open spec fn company(b: Seq<Piece>, m: bool, lead: Piece) -> Seq<Man> {
    leads(b, m, lead) + men_upto(b, m, lead, false, 64)
}

/// The men of the board that are `lead`, or those that are not.
fn gather(pos: &Position, m: bool, lead: Piece, are: bool) -> (r: Vec<Man>)
    requires
        pos.sound(),
    ensures
        r@ == men_upto(pos.board@, m, lead, are, 64),
        r@.len() <= 64,
        distinct(r@),
{
    broadcast use Square::lemma_at;

    let mut men: Vec<Man> = Vec::new();
    let mut s: usize = 0;
    while s < 64
        invariant
            s <= 64,
            pos.sound(),
            men@ == men_upto(pos.board@, m, lead, are, s as int),
        decreases 64 - s,
    {
        let sq = Square::new(s);
        let pc = pos.piece_on(sq);
        if pc != Piece::NONE && (pc == lead) == are {
            proof {
                lemma_man(pos.board@, m, s as int);
            }
            let code = pc.raw();
            let turned: u8 = if !m {
                code
            } else if code < 8 {
                code + 8
            } else {
                code - 8
            };
            let at = if m {
                sq.flip_rank().raw()
            } else {
                sq.raw()
            };
            men.push(Man { code: turned, sq: at });
        }
        s += 1;
    }
    proof {
        lemma_men(pos.board@, m, lead, are, 64);
    }
    men
}

/// All men, the leading pawns first, and how many of those there are.
fn gather_all(t: &IndexTables, pos: &Position, m: bool, lead: Piece) -> (r: (Vec<Man>, usize))
    requires
        pos.sound(),
        t.wf(),
    ensures
        r.0@ == company(pos.board@, m, lead),
        r.1 == leads(pos.board@, m, lead).len(),
        r.1 <= r.0@.len() <= 128,
        distinct(r.0@),
{
    let mut men = gather(pos, m, lead, true);
    let count = men.len();
    let ghost first = men@;
    if count > 0 {
        let mut best: usize = 0;
        let mut i: usize = 1;
        while i < count
            invariant
                1 <= i <= count,
                count == men@.len(),
                first == men@,
                distinct(men@),
                t.wf(),
                best < i,
                best == foremost(men@, i as int),
            decreases count - i,
        {
            if t.map_pawns[men[best].sq as usize] < t.map_pawns[men[i].sq as usize] {
                best = i;
            }
            i += 1;
        }
        let a = men[0];
        let b = men[best];
        men.set(0, b);
        men.set(best, a);
        proof {
            lemma_exchanged(first, 0, best as int);
            assert(men@ =~= exchanged(first, 0, best as int));
        }
    }
    let ghost front = men@;
    let mut others = gather(pos, m, lead, false);
    let ghost back = others@;
    men.append(&mut others);
    proof {
        assert(men@ =~= front + back);
        assert forall|i: int, j: int| 0 <= i < j < men@.len() implies (#[trigger] men@[i]).sq
            != (#[trigger] men@[j]).sq by {
            if i < count && j >= count {
                let k = if count > 0 && i == 0 {
                    foremost(first, count as int)
                } else if count > 0 && i == foremost(first, count as int) {
                    0
                } else {
                    i
                };
                lemma_foremost(first, count as int);
                assert(front[i] == first[k]);
                lemma_men_apart(pos.board@, m, lead, 64, k, 64, j - count);
            } else if j < count {
                assert(front[i].sq != front[j].sq);
            } else {
                assert(back[i - count].sq != back[j - count].sq);
            }
        }
        assert forall|i: int| 0 <= i < men@.len() implies (#[trigger] men@[i]).sq < 64
            && men@[i].code < 16 by {
            if i < count {
                assert(men@[i] == front[i]);
            } else {
                assert(men@[i] == back[i - count]);
            }
        }
    }
    (men, count)
}

/// Bring the men into the order of a part, from place `start` on.
fn arrange(men: &mut Vec<Man>, want: &[u8; 7], start: usize)
    requires
        distinct(old(men)@),
        old(men)@.len() <= 7,
        start <= old(men)@.len(),
    ensures
        final(men)@ == arranged(old(men)@, want@, start as int),
        final(men)@.len() == old(men)@.len(),
        distinct(final(men)@),
{
    let n = men.len();
    let mut i: usize = start;
    let ghost goal = arranged(men@, want@, start as int);
    while i + 1 < n
        invariant
            n == men@.len(),
            n <= 7,
            i <= n,
            distinct(men@),
            goal == arranged(men@, want@, i as int),
        decreases n - i,
    {
        let mut j: usize = i + 1;
        while j < n && men[j].code != want[i]
            invariant
                i < j <= n,
                n == men@.len(),
                i + 1 < n <= 7,
                match_from(men@, want@[i as int], i + 1) == match_from(
                    men@,
                    want@[i as int],
                    j as int,
                ),
            decreases n - j,
        {
            j += 1;
        }
        if j < n {
            let ghost before = men@;
            let a = men[i];
            let b = men[j];
            men.set(i, b);
            men.set(j, a);
            proof {
                lemma_exchanged(before, i as int, j as int);
                assert(men@ =~= exchanged(before, i as int, j as int));
            }
        }
        i += 1;
    }
}

/// How a man is moved.
#[derive(Clone, Copy, Debug, PartialEq, Eq, Structural)]
enum Turn {
    Files,
    Ranks,
    Diagonal,
}

/// What a turn does to a square.
spec fn turn_of(turn: Turn, s: int) -> int {
    match turn {
        Turn::Files => across(s),
        Turn::Ranks => Square::mirrored(s),
        Turn::Diagonal => transposed(s),
    }
}

/// Move every man by a turn of the board.
fn turn_all(men: &mut Vec<Man>, turn: Turn)
    requires
        distinct(old(men)@),
    ensures
        final(men)@ == moved(old(men)@, |s: int| turn_of(turn, s)),
        final(men)@.len() == old(men)@.len(),
        distinct(final(men)@),
{
    let n = men.len();
    let ghost before = men@;
    let ghost f = |s: int| turn_of(turn, s);
    let mut i: usize = 0;
    while i < n
        invariant
            i <= n,
            n == men@.len(),
            n == before.len(),
            distinct(before),
            f == (|s: int| turn_of(turn, s)),
            forall|k: int| 0 <= k < i ==> #[trigger] men@[k] == moved(before, f)[k],
            forall|k: int| i <= k < n ==> #[trigger] men@[k] == before[k],
        decreases n - i,
    {
        let man = men[i];
        assert(man == before[i as int]);
        let s = man.sq;
        let to: u8 = match turn {
            Turn::Files => 8 * (s / 8) + (7 - s % 8),
            Turn::Ranks => 8 * (7 - s / 8) + s % 8,
            Turn::Diagonal => 8 * (s % 8) + s / 8,
        };
        assert(to == turn_of(turn, s as int));
        men.set(i, Man { code: man.code, sq: to });
        i += 1;
    }
    proof {
        assert(men@ =~= moved(before, f));
        lemma_moved(before, f);
    }
}

/// Fold the symmetries of the board.
fn fold(men: &mut Vec<Man>, has_pawns: bool, len: usize)
    requires
        distinct(old(men)@),
        old(men)@.len() > 0,
        len <= old(men)@.len(),
    ensures
        final(men)@ == folded(old(men)@, has_pawns, len as int),
        final(men)@.len() == old(men)@.len(),
        distinct(final(men)@),
{
    if men[0].sq % 8 > 3 {
        turn_all(men, Turn::Files);
        assert((|s: int| turn_of(Turn::Files, s)) =~= (|s: int| across(s)));
    }
    if has_pawns {
        return;
    }
    if men[0].sq / 8 > 3 {
        turn_all(men, Turn::Ranks);
        assert((|s: int| turn_of(Turn::Ranks, s)) =~= (|s: int| Square::mirrored(s)));
    }
    let ghost here = men@;
    let mut i: usize = 0;
    while i < len && men[i].sq / 8 == men[i].sq % 8
        invariant
            i <= len <= men@.len(),
            off_from(men@, 0, len as int) == off_from(men@, i as int, len as int),
        decreases len - i,
    {
        i += 1;
    }
    if i < len && men[i].sq / 8 > men[i].sq % 8 {
        turn_all(men, Turn::Diagonal);
        assert((|s: int| turn_of(Turn::Diagonal, s)) =~= (|s: int| transposed(s)));
    }
}

// ---------------------------------------------------------------------------
// Computing the index
// ---------------------------------------------------------------------------

/// Count the men below a square.
fn count_lower(men: &Vec<Man>, from: usize, to: usize, x: u8) -> (r: usize)
    requires
        from <= to <= men@.len(),
    ensures
        r == lower(men@, from as int, to as int, x as int),
        r <= to - from,
{
    let mut n: usize = 0;
    let mut i: usize = from;
    while i < to
        invariant
            from <= i <= to <= men@.len(),
            n == lower(men@, from as int, i as int, x as int),
            n <= i - from,
        decreases to - i,
    {
        if men[i].sq < x {
            n += 1;
        }
        i += 1;
    }
    n
}

/// Count the pawns with a lower number.
fn count_fewer(t: &IndexTables, men: &Vec<Man>, from: usize, to: usize, x: i32) -> (r: usize)
    requires
        t.wf(),
        distinct(men@),
        from <= to <= men@.len(),
    ensures
        r == fewer(men@, from as int, to as int, x as int),
        r <= to - from,
{
    let mut n: usize = 0;
    let mut i: usize = from;
    while i < to
        invariant
            t.wf(),
            distinct(men@),
            from <= i <= to <= men@.len(),
            n == fewer(men@, from as int, i as int, x as int),
            n <= i - from,
        decreases to - i,
    {
        if t.map_pawns[men[i].sq as usize] < x {
            n += 1;
        }
        i += 1;
    }
    n
}

proof fn lemma_pawn_number(s: int)
    requires
        0 <= s < 64,
    ensures
        0 <= tables::pawn_number(s) <= 47,
{
}

/// The number of the leading pawns' placement.
fn lead_index(t: &IndexTables, men: &Vec<Man>, count: usize) -> (r: u64)
    requires
        t.wf(),
        distinct(men@),
        1 <= count <= 5,
        count <= men@.len(),
        8 <= men@[0].sq < 56,
        men@[0].sq % 8 < 4,
    ensures
        r == first_number(men@, true, false, count as int),
        r <= pairs::p64(count as int),
{
    proof {
        let s = men@[0].sq as int;
        tables::lemma_lead_start(count as int, s % 8, s / 8);
    }
    let mut idx: u64 = t.lead_pawn_idx[count][men[0].sq as usize] as u64;
    let ghost base = idx as int;
    let ghost unit = pairs::p64(count - 1);
    proof {
        lemma_small_power(count as int);
        let c = tables::cap(count - 1);
        let r = men@[0].sq as int / 8;
        assert((r - 1) * c <= 6 * c) by (nonlinear_arith)
            requires
                r <= 6,
                c >= 0,
        ;
    }
    let mut k: usize = 1;
    while k < count
        invariant
            t.wf(),
            distinct(men@),
            1 <= k <= count <= 5,
            count <= men@.len(),
            base == tables::lead_number(count as int, men@[0].sq as int),
            0 <= base <= 6 * unit,
            1 <= unit <= 0x100_0000,
            unit == pairs::p64(count - 1),
            idx == base + lead_combination(men@, count as int, k as int),
            idx <= base + k * unit,
        decreases count - k,
    {
        let x = t.map_pawns[men[k].sq as usize];
        let rank = count_fewer(t, men, 1, count, x);
        proof {
            lemma_pawn_number(men@[k as int].sq as int);
            lemma_pawn_rank(men@, 1, count as int, k as int, x as int);
            pairs::lemma_small(x as int, 1 + rank);
            pairs::lemma_p64_up(1 + rank, count - 1);
            assert(k * unit <= 5 * unit) by (nonlinear_arith)
                requires
                    k <= 5,
                    unit >= 1,
            ;
        }
        idx = idx + t.binomial[1 + rank][x as usize] as u64;
        k += 1;
        assert((k - 1) * unit + unit == k * unit) by (nonlinear_arith);
    }
    assert(base + count * unit <= 64 * unit) by (nonlinear_arith)
        requires
            base <= 6 * unit,
            count <= 5,
            unit >= 1,
    ;
    idx
}

proof fn lemma_small_power(c: int)
    requires
        1 <= c <= 5,
    ensures
        1 <= pairs::p64(c - 1) <= 0x100_0000,
        pairs::p64(c) == 64 * pairs::p64(c - 1),
        tables::cap(c - 1) == pairs::p64(c - 1),
{
    pairs::lemma_small(0, c - 1);
    pairs::lemma_p64_up(0, c - 1);
    pairs::lemma_p64_up(c - 1, 4);
    reveal_with_fuel(pairs::p64, 5);
}

proof fn lemma_triangle(s: int)
    requires
        0 <= s < 64,
    ensures
        0 <= tables::triangle_number(s) <= 9,
{
    reveal_with_fuel(tables::triangle_upto, 21);
}

proof fn lemma_below(s: int)
    requires
        0 <= s,
    ensures
        0 <= tables::below_upto(s) <= s,
    decreases s,
{
    if s > 0 {
        lemma_below(s - 1);
    }
}

proof fn lemma_passes(n: int)
    requires
        0 <= n,
    ensures
        0 <= tables::first_upto(n) <= n,
        0 <= tables::second_upto(n) <= n,
    decreases n,
{
    if n > 0 {
        lemma_passes(n - 1);
    }
}

/// The number of the placement of three pieces, from the numbers of their squares.
fn three_value(s0: usize, s1: usize, s2: usize, triangle: usize, b1: usize, b2: usize) -> (r: u64)
    requires
        s0 < 64,
        s1 < 64,
        s2 < 64,
        s0 != s1,
        s0 != s2,
        s1 != s2,
        triangle <= 9,
        b1 <= 64,
        b2 <= 64,
    ensures
        r <= 0x10_0000,
        ({
            let a1 = one_if(s1 > s0);
            let a2 = one_if(s2 > s0) + one_if(s2 > s1);
            r == if s0 / 8 != s0 % 8 {
                (triangle * 63 + (s1 - a1)) * 62 + s2 - a2
            } else if s1 / 8 != s1 % 8 {
                (6 * 63 + s0 / 8 * 28 + b1) * 62 + s2 - a2
            } else if s2 / 8 != s2 % 8 {
                6 * 63 * 62 + 4 * 28 * 62 + s0 / 8 * 7 * 28 + (s1 / 8 - a1) * 28 + b2
            } else {
                6 * 63 * 62 + 4 * 28 * 62 + 4 * 7 * 28 + s0 / 8 * 7 * 6 + (s1 / 8 - a1) * 6 + (s2 / 8
                    - a2)
            }
        }),
{
    let a1: usize = if s1 > s0 {
        1
    } else {
        0
    };
    let a2: usize = (if s2 > s0 {
        1
    } else {
        0
    }) + (if s2 > s1 {
        1
    } else {
        0
    });
    let r0 = s0 / 8;
    let r1 = s1 / 8;
    let r2 = s2 / 8;
    let r: usize = if r0 != s0 % 8 {
        (triangle * 63 + (s1 - a1)) * 62 + s2 - a2
    } else if r1 != s1 % 8 {
        (6 * 63 + r0 * 28 + b1) * 62 + s2 - a2
    } else if r2 != s2 % 8 {
        6 * 63 * 62 + 4 * 28 * 62 + r0 * 7 * 28 + (r1 - a1) * 28 + b2
    } else {
        6 * 63 * 62 + 4 * 28 * 62 + 4 * 7 * 28 + r0 * 7 * 6 + (r1 - a1) * 6 + (r2 - a2)
    };
    r as u64
}

/// The number of the placement of three pieces that can be told apart.
fn three_index(t: &IndexTables, men: &Vec<Man>) -> (r: u64)
    requires
        t.wf(),
        distinct(men@),
        men@.len() >= 3,
    ensures
        r == three_number(men@),
        r <= 0x10_0000,
{
    let s0 = men[0].sq as usize;
    let s1 = men[1].sq as usize;
    let s2 = men[2].sq as usize;
    assert(s0 != s1 && s0 != s2 && s1 != s2);
    proof {
        lemma_triangle(s0 as int);
        lemma_below(s1 as int);
        lemma_below(s2 as int);
    }
    let triangle = t.map_a1d1d4[s0] as usize;
    let b1 = t.map_b1h1h7[s1] as usize;
    let b2 = t.map_b1h1h7[s2] as usize;
    three_value(s0, s1, s2, triangle, b1, b2)
}

/// The number of the placement of two kings.
fn kings_index(t: &IndexTables, men: &Vec<Man>) -> (r: u64)
    requires
        t.wf(),
        distinct(men@),
        men@.len() >= 2,
    ensures
        r == first_number(men@, false, false, 0),
        r <= 0x10_0000,
{
    let s0 = men[0].sq as usize;
    let s1 = men[1].sq as usize;
    proof {
        lemma_triangle(s0 as int);
        lemma_passes(640);
        lemma_passes(64 * tables::triangle_number(s0 as int) + s1);
    }
    let k = t.map_a1d1d4[s0] as usize;
    t.map_kk[k][s1] as u64
}

/// The combination that a group makes.
fn group_index(t: &IndexTables, men: &Vec<Man>, start: usize, len: usize, pawns: bool) -> (r: u64)
    requires
        t.wf(),
        distinct(men@),
        1 <= len <= 5,
        men@.len() <= 7,
        start + len <= men@.len(),
        pawns ==> forall|i: int| 0 <= i < start + len ==> (#[trigger] men@[i]).sq >= 8,
    ensures
        r == combination(men@, start as int, len as int, pawns, len as int),
        r <= 5 * pairs::p64(len as int),
{
    let mut n: u64 = 0;
    let ghost unit = pairs::p64(len as int);
    proof {
        lemma_small_power(len as int);
    }
    let mut k: usize = 0;
    while k < len
        invariant
            t.wf(),
            distinct(men@),
            k <= len <= 5,
            men@.len() <= 7,
            start + len <= men@.len(),
            pawns ==> forall|i: int| 0 <= i < start + len ==> (#[trigger] men@[i]).sq >= 8,
            1 <= unit <= 0x4000_0000,
            unit == pairs::p64(len as int),
            n == combination(men@, start as int, len as int, pawns, k as int),
            n <= k * unit,
        decreases len - k,
    {
        let x = men[start + k].sq;
        let adjust = count_lower(men, 0, start, x);
        let rank = count_lower(men, start, start + len, x);
        proof {
            lemma_lower(men@, start as int, x as int, if pawns {
                8
            } else {
                0
            });
            lemma_rank(men@, start as int, start + len, start + k, x as int);
        }
        let v: usize = x as usize - adjust - (if pawns {
            8
        } else {
            0
        });
        proof {
            pairs::lemma_small(v as int, 1 + rank);
            pairs::lemma_p64_up(1 + rank, len as int);
            assert(k * unit <= 5 * unit) by (nonlinear_arith)
                requires
                    k <= 5,
                    unit >= 1,
            ;
        }
        n = n + t.binomial[1 + rank][v] as u64;
        k += 1;
        assert((k - 1) * unit + unit == k * unit) by (nonlinear_arith);
    }
    assert(len * unit <= 5 * unit) by (nonlinear_arith)
        requires
            len <= 5,
            unit >= 1,
    ;
    n
}

/// The index of the folded men.
pub open spec fn index_of(
    men: Seq<Man>,
    has_pawns: bool,
    unique: bool,
    both: bool,
    count: int,
    lens: Seq<int>,
    w: Seq<int>,
) -> int {
    first_number(men, has_pawns, unique, count) * w[0] + rest_index(men, lens, w, 1, lens[0], both)
}

/// The first `n` men are pawns.
pub open spec fn pawns_lead(men: Seq<Man>, n: int) -> bool {
    forall|i: int| 0 <= i < n ==> (#[trigger] men[i]).code % 8 == 1
}

/// The men are those that the part is for, in its order, and the groups of pawns are pawns.
pub open spec fn usable(
    men: Seq<Man>,
    want: Seq<u8>,
    has_pawns: bool,
    both: bool,
    count: int,
    lens: Seq<int>,
) -> bool {
    &&& in_order(men, want)
    &&& has_pawns ==> {
        &&& count == lens[0]
        &&& pawns_inside(men)
        &&& pawns_lead(
            men,
            lens[0] + (if both {
                pairs::group_of(lens, 1)
            } else {
                0
            }),
        )
    }
}

/// What the index is computed from.
spec fn grouped(d: &PairsData, n: int, has_pawns: bool, size: int) -> bool {
    let lens = pairs::lens_of(d.group_len@, n);
    &&& 1 <= n <= 7
    &&& d.group_len@[n] == 0
    &&& forall|i: int| 0 <= i < n ==> #[trigger] lens[i] >= 1
    &&& pairs::members_upto(lens, n) == size
    &&& pairs::groups_ok(lens, has_pawns)
    &&& pairs::modest(d, n)
}

/// Compute the index of the folded men.
fn full_index(
    t: &IndexTables,
    men: &Vec<Man>,
    d: &PairsData,
    has_pawns: bool,
    unique: bool,
    both: bool,
    Ghost(n): Ghost<int>,
) -> (r: u64)
    requires
        t.wf(),
        distinct(men@),
        men@.len() <= 7,
        grouped(d, n, has_pawns, men@.len() as int),
        pairs::first_length(has_pawns, unique) <= men@.len(),
        both ==> has_pawns,
        has_pawns ==> men@[0].sq % 8 < 4,
        has_pawns ==> forall|i: int|
            0 <= i < d.group_len@[0] + (if both && n > 1 {
                d.group_len@[1] as int
            } else {
                0
            }) ==> 8 <= (#[trigger] men@[i]).sq < 56,
    ensures
        r == index_of(
            men@,
            has_pawns,
            unique,
            both,
            d.group_len@[0] as int,
            pairs::lens_of(d.group_len@, n),
            pairs::weights_of(d.group_idx@),
        ),
{
    let ghost lens = pairs::lens_of(d.group_len@, n);
    let ghost w = pairs::weights_of(d.group_idx@);
    proof {
        pairs::lemma_members_up(lens, 1, n);
        reveal_with_fuel(pairs::members_upto, 2);
        assert(lens[0] == d.group_len@[0]);
        assert(n > 1 ==> lens[1] == d.group_len@[1]);
        assert(w[0] == d.group_idx@[0]);
        reveal_with_fuel(pairs::p64, 8);
        pairs::lemma_p64_up(7 - lens[0], 7);
    }
    let len0 = d.group_len[0] as usize;
    let first: u64 = if has_pawns {
        lead_index(t, men, len0)
    } else if unique {
        three_index(t, men)
    } else {
        kings_index(t, men)
    };
    proof {
        let a = first as int;
        let b = w[0];
        if has_pawns {
            pairs::lemma_p64(lens[0], 7 - lens[0]);
            let x = pairs::p64(lens[0]);
            let y = pairs::p64(7 - lens[0]);
            assert(0 <= a * b <= x * y) by (nonlinear_arith)
                requires
                    0 <= a <= x,
                    0 <= b <= y,
            ;
        } else {
            assert(0 <= a * b <= 0x10_0000 * 0x400_0000_0000) by (nonlinear_arith)
                requires
                    0 <= a <= 0x10_0000,
                    0 <= b <= 0x400_0000_0000,
            ;
        }
    }
    let mut idx: u64 = first * d.group_idx[0];
    let ghost goal = idx + rest_index(men@, lens, w, 1, lens[0], both);
    let mut start: usize = len0;
    let mut pawns = both;
    let mut g: usize = 1;
    while d.group_len[g] != 0
        invariant
            t.wf(),
            distinct(men@),
            men@.len() <= 7,
            grouped(d, n, has_pawns, men@.len() as int),
            lens == pairs::lens_of(d.group_len@, n),
            w == pairs::weights_of(d.group_idx@),
            1 <= g <= n <= 7,
            start == pairs::members_upto(lens, g as int),
            pawns ==> g == 1 && both,
            both ==> forall|i: int|
                0 <= i < d.group_len@[0] + (if n > 1 {
                    d.group_len@[1] as int
                } else {
                    0
                }) ==> 8 <= (#[trigger] men@[i]).sq < 56,
            pairs::members_upto(lens, 1) == d.group_len@[0],
            idx <= 0x4000_0000_0000_0000 + g * 0x1400_0000_0000,
            goal == idx + rest_index(men@, lens, w, g as int, start as int, pawns),
        decreases 8 - g,
    {
        assert(g < n);
        let len = d.group_len[g] as usize;
        proof {
            assert(lens[g as int] == d.group_len@[g as int]);
            assert(w[g as int] == d.group_idx@[g as int]);
            pairs::lemma_members_up(lens, g + 1, n);
            if pawns {
                assert(lens[1] == d.group_len@[1]);
            }
        }
        let c = group_index(t, men, start, len, pawns);
        proof {
            pairs::lemma_p64(len as int, 7 - len);
            assert(pairs::p64(7) == 0x400_0000_0000) by {
                reveal_with_fuel(pairs::p64, 8);
            }
            let a = c as int;
            let b = w[g as int];
            let x = pairs::p64(len as int);
            let y = pairs::p64(7 - len);
            assert(0 <= a * b <= 5 * (x * y)) by (nonlinear_arith)
                requires
                    0 <= a <= 5 * x,
                    0 <= b <= y,
            ;
        }
        idx = idx + c * d.group_idx[g];
        pawns = false;
        start += len;
        g += 1;
    }
    assert(g == n);
    idx
}

// ---------------------------------------------------------------------------
// Probing
// ---------------------------------------------------------------------------

impl TbTable {
    /// The position is seen with the colours exchanged: Black is the side that the name puts
    /// first, or the material is the same on both sides and Black is to move.
    pub open spec fn mirrors(&self, b: Seq<Piece>, stm: Color) -> bool {
        (self.key == self.key2 && stm == Color::Black) || tally::material_of(b) != self.key
    }

    /// The side to move, seen from the table's side.
    pub open spec fn seen_side(&self, b: Seq<Piece>, stm: Color) -> int {
        if self.mirrors(b, stm) {
            1 - stm.idx()
        } else {
            stm.idx()
        }
    }

    /// The pawn whose file the table is split by, nothing in a table without pawns.
    pub open spec fn lead_piece(&self, l: &Loaded, m: bool) -> Piece {
        if !self.has_pawns {
            Piece::NONE
        } else if turned_code(l.items@[0].pieces@[0] as int, m) < 8 {
            Piece::W_PAWN
        } else {
            Piece::B_PAWN
        }
    }

    /// The file of the foremost leading pawn, counted from the edge.
    pub open spec fn lead_file(&self, front: Seq<Man>) -> int {
        if self.has_pawns && front.len() > 0 {
            tables::edge(front[0].sq as int % 8)
        } else {
            0
        }
    }

    /// The part does not have the side to move.
    pub open spec fn other_side(&self, d: &PairsData, side: int) -> bool {
        self.kind == TbType::Dtz && one_if(pairs::is_set(d.flags, FLAG_STM)) != side && !(self.key
            == self.key2 && !self.has_pawns)
    }

    /// What the table answers of a position.
    pub open spec fn answer(&self, l: &Loaded, b: Seq<Piece>, stm: Color, wdl: Wdl) -> Result<
        int,
        ProbeState,
    > {
        let m = self.mirrors(b, stm);
        let side = self.seen_side(b, stm);
        let lead = self.lead_piece(l, m);
        let front = leads(b, m, lead);
        let file = self.lead_file(front);
        let p = self.part_of(side, file);
        let d = l.items@[p];
        let lens = self.lens(l.bytes@, p);
        let men = arranged(company(b, m, lead), d.pieces@, front.len() as int);
        if company(b, m, lead).len() != self.piece_count {
            Err(ProbeState::Fail)
        } else if self.other_side(&d, side) {
            Err(ProbeState::ChangeStm)
        } else if !usable(
            men,
            d.pieces@,
            self.has_pawns,
            self.both_pawns(),
            front.len() as int,
            lens,
        ) {
            Err(ProbeState::Fail)
        } else {
            let idx = index_of(
                folded(men, self.has_pawns, lens[0]),
                self.has_pawns,
                self.has_unique_pieces,
                self.both_pawns(),
                front.len() as int,
                lens,
                self.multipliers(l.bytes@, p),
            );
            self.score(l, file, d.value_at(l.bytes@, idx), wdl)
        }
    }

    /// Which of the four maps is for a verdict.
    pub open spec fn map_for(wdl: Wdl) -> int {
        match wdl {
            Wdl::Loss => 1,
            Wdl::BlessedLoss => 3,
            Wdl::Draw => 0,
            Wdl::CursedWin => 2,
            Wdl::Win => 0,
        }
    }

    /// The distance is stored in moves, not in plies.
    pub open spec fn in_moves(flags: u8, wdl: Wdl) -> bool {
        match wdl {
            Wdl::Win => !pairs::is_set(flags, FLAG_WIN_PLIES),
            Wdl::Loss => !pairs::is_set(flags, FLAG_LOSS_PLIES),
            Wdl::Draw => false,
            _ => true,
        }
    }

    /// A stored distance, looked up in the map where the part has one.
    pub open spec fn distance(&self, l: &Loaded, d: &PairsData, value: int, wdl: Wdl) -> Option<int> {
        let slot = d.map_idx@[Self::map_for(wdl)] as int;
        if !pairs::is_set(d.flags, FLAG_MAPPED) {
            Some(value)
        } else if pairs::is_set(d.flags, FLAG_WIDE) {
            let off = l.map + 2 * (slot + value - 1);
            if 0 <= off && off + 2 <= l.bytes@.len() {
                Some(pairs::le16(l.bytes@, off))
            } else {
                None
            }
        } else {
            let off = l.map + slot + value - 1;
            if 0 <= off < l.bytes@.len() {
                Some(l.bytes@[off] as int)
            } else {
                None
            }
        }
    }

    /// What a stored value stands for: a verdict from -2 on, or a distance in plies.
    pub open spec fn score(&self, l: &Loaded, file: int, value: int, wdl: Wdl) -> Result<
        int,
        ProbeState,
    > {
        if self.kind == TbType::Wdl {
            Ok(value - 2)
        } else {
            let d = l.items@[self.part_of(0, file)];
            match self.distance(l, &d, value, wdl) {
                None => Err(ProbeState::Fail),
                Some(v) => Ok(
                    (if Self::in_moves(d.flags, wdl) {
                        2 * v
                    } else {
                        v
                    }) + 1,
                ),
            }
        }
    }
}

/// The result as numbers.
pub open spec fn outcome(r: Result<i32, ProbeState>) -> Result<int, ProbeState> {
    match r {
        Ok(v) => Ok(v as int),
        Err(e) => Err(e),
    }
}

/// Turn a stored value into a verdict or a distance.
pub fn map_score(entry: &TbTable, loaded: &Loaded, file: usize, value: i32, wdl: Wdl) -> (r: Result<
    i32,
    ProbeState,
>)
    requires
        loaded.items@.len() == entry.part_count(),
        file < 4,
        0 <= value <= 0xFFF,
    ensures
        outcome(r) == entry.score(loaded, file as int, value as int, wdl),
        r is Ok ==> -2 <= r->Ok_0 <= 0x2_0000,
{
    if entry.kind == TbType::Wdl {
        return Ok(value - 2);
    }
    let d = entry.pairs(loaded, 0, file);
    let flags = d.flags;
    let mut v: i32 = value;
    if has_flag(flags, FLAG_MAPPED) {
        let which: usize = match wdl {
            Wdl::Loss => 1,
            Wdl::BlessedLoss => 3,
            Wdl::Draw => 0,
            Wdl::CursedWin => 2,
            Wdl::Win => 0,
        };
        let slot = d.map_idx[which] as i128;
        let len = loaded.bytes.len() as i128;
        if has_flag(flags, FLAG_WIDE) {
            let off: i128 = loaded.map as i128 + 2 * (slot + value as i128 - 1);
            if off < 0 || off + 2 > len {
                return Err(ProbeState::Fail);
            }
            v = pairs::u16_le(loaded.bytes.as_slice(), off as u128) as i32;
        } else {
            let off: i128 = loaded.map as i128 + slot + value as i128 - 1;
            if off < 0 || off >= len {
                return Err(ProbeState::Fail);
            }
            v = loaded.bytes[off as usize] as i32;
        }
    }
    let moves = match wdl {
        Wdl::Win => !has_flag(flags, FLAG_WIN_PLIES),
        Wdl::Loss => !has_flag(flags, FLAG_LOSS_PLIES),
        Wdl::Draw => false,
        _ => true,
    };
    if moves {
        v = 2 * v;
    }
    Ok(v + 1)
}

/// Whether the men are those that the part is for.
fn check_men(
    men: &Vec<Man>,
    d: &PairsData,
    has_pawns: bool,
    both: bool,
    count: usize,
    Ghost(n): Ghost<int>,
) -> (r: bool)
    requires
        men@.len() <= 7,
        count <= men@.len(),
        grouped(d, n, has_pawns, men@.len() as int),
    ensures
        r == usable(
            men@,
            d.pieces@,
            has_pawns,
            both,
            count as int,
            pairs::lens_of(d.group_len@, n),
        ),
{
    let ghost lens = pairs::lens_of(d.group_len@, n);
    let mut i: usize = 0;
    while i < men.len()
        invariant
            i <= men@.len() <= 7,
            forall|k: int| 0 <= k < i ==> (#[trigger] men@[k]).code == d.pieces@[k],
        decreases men@.len() - i,
    {
        if men[i].code != d.pieces[i] {
            assert(men@[i as int].code != d.pieces@[i as int]);
            return false;
        }
        i += 1;
    }
    if !has_pawns {
        return true;
    }
    proof {
        assert(lens[0] == d.group_len@[0]);
        assert(n > 1 ==> lens[1] == d.group_len@[1]);
        pairs::lemma_members_up(lens, 1, n);
        reveal_with_fuel(pairs::members_upto, 3);
        if n > 1 {
            pairs::lemma_members_up(lens, 2, n);
        }
    }
    if count as i32 != d.group_len[0] {
        return false;
    }
    let lead: i32 = d.group_len[0] + (if both {
        d.group_len[1]
    } else {
        0
    });
    let mut i: usize = 0;
    while i < men.len()
        invariant
            i <= men@.len() <= 7,
            0 <= lead <= men@.len(),
            has_pawns,
            lens == pairs::lens_of(d.group_len@, n),
            lead == lens[0] + (if both {
                pairs::group_of(lens, 1)
            } else {
                0
            }),
            forall|k: int|
                0 <= k < i && (#[trigger] men@[k]).code % 8 == 1 ==> 8 <= men@[k].sq < 56,
            forall|k: int| 0 <= k < i && k < lead ==> (#[trigger] men@[k]).code % 8 == 1,
        decreases men@.len() - i,
    {
        let man = men[i];
        if man.code % 8 == 1 {
            if man.sq < 8 || man.sq >= 56 {
                assert(men@[i as int].code % 8 == 1);
                return false;
            }
        } else if (i as i32) < lead {
            assert(men@[i as int].code % 8 != 1);
            return false;
        }
        i += 1;
    }
    true
}

/// The pawn whose file the table is split by.
fn find_lead(entry: &TbTable, loaded: &Loaded, m: bool) -> (r: Piece)
    requires
        entry.laid_out(loaded),
    ensures
        r == entry.lead_piece(loaded, m),
{
    if !entry.has_pawns {
        return Piece::NONE;
    }
    proof {
        lemma_parts(entry);
        assert(entry.is_part(&loaded.items@[0], loaded.bytes@, 0));
        lemma_codes(entry, loaded.bytes@, 0, 0);
    }
    let code = loaded.items[0].pieces[0];
    if (code < 8) != m {
        Piece::W_PAWN
    } else {
        Piece::B_PAWN
    }
}

/// The value of the men in a part; nothing when they are not those that the part is for.
fn part_value(
    t: &IndexTables,
    gathered: Vec<Man>,
    count: usize,
    d: &PairsData,
    bytes: &Vec<u8>,
    has_pawns: bool,
    unique: bool,
    both: bool,
    Ghost(n): Ghost<int>,
) -> (r: Option<i32>)
    requires
        t.wf(),
        distinct(gathered@),
        gathered@.len() <= 7,
        count <= gathered@.len(),
        grouped(d, n, has_pawns, gathered@.len() as int),
        pairs::first_length(has_pawns, unique) <= gathered@.len(),
        both ==> has_pawns,
        d.readable(),
    ensures
        ({
            let men = arranged(gathered@, d.pieces@, count as int);
            let lens = pairs::lens_of(d.group_len@, n);
            &&& r is Some == usable(men, d.pieces@, has_pawns, both, count as int, lens)
            &&& r is Some ==> r->0 == d.value_at(
                bytes@,
                index_of(
                    folded(men, has_pawns, lens[0]),
                    has_pawns,
                    unique,
                    both,
                    if has_pawns {
                        count as int
                    } else {
                        lens[0]
                    },
                    lens,
                    pairs::weights_of(d.group_idx@),
                ),
            )
            &&& r is Some ==> 0 <= r->0 <= 0xFFF
        }),
{
    let ghost lens = pairs::lens_of(d.group_len@, n);
    let mut men = gathered;
    arrange(&mut men, &d.pieces, count);
    if !check_men(&men, d, has_pawns, both, count, Ghost(n)) {
        return None;
    }
    let ghost before = men@;
    proof {
        assert(lens[0] == d.group_len@[0]);
        pairs::lemma_members_up(lens, 1, n);
        reveal_with_fuel(pairs::members_upto, 3);
        if n > 1 {
            pairs::lemma_members_up(lens, 2, n);
            assert(lens[1] == d.group_len@[1]);
        }
    }
    fold(&mut men, has_pawns, d.group_len[0] as usize);
    proof {
        if has_pawns {
            assert(men@ == left_half(before));
            assert forall|i: int| 0 <= i < d.group_len@[0] + (if both && n > 1 {
                d.group_len@[1] as int
            } else {
                0
            }) implies 8 <= (#[trigger] men@[i]).sq < 56 by {
                assert(before[i].code % 8 == 1);
                assert(8 <= before[i].sq < 56);
            }
        }
    }
    let idx = full_index(t, &men, d, has_pawns, unique, both, Ghost(n));
    Some(decompress(d, bytes.as_slice(), idx))
}

/// The count of leading pawns does not matter where there are none.
proof fn lemma_count(
    men: Seq<Man>,
    unique: bool,
    both: bool,
    a: int,
    b: int,
    lens: Seq<int>,
    w: Seq<int>,
)
    ensures
        index_of(men, false, unique, both, a, lens, w) == index_of(
            men,
            false,
            unique,
            both,
            b,
            lens,
            w,
        ),
{
}

/// Read the value of a position out of a table. [`ProbeState::ChangeStm`] where the table has
/// the other side to move only.
#[verifier::spinoff_prover]
#[verifier::rlimit(80)]
pub fn do_probe_table(
    t: &IndexTables,
    pos: &Position,
    entry: &TbTable,
    loaded: &Loaded,
    wdl: Wdl,
) -> (r: Result<i32, ProbeState>)
    requires
        t.wf(),
        pos.wf(),
        entry.wf(),
        entry.laid_out(loaded),
    ensures
        outcome(r) == entry.answer(loaded, pos.board@, pos.side_to_move, wdl),
        r is Ok ==> -2 <= r->Ok_0 <= 0x2_0000,
{
    let ghost b = pos.board@;
    let ghost bytes = loaded.bytes@;
    let stm = pos.side_to_move();
    let m = (entry.key == entry.key2 && stm == Color::Black) || pos.st().material_key != entry.key;
    let side: usize = if m {
        1 - stm.index()
    } else {
        stm.index()
    };
    let lead = find_lead(entry, loaded, m);
    let (men, count) = gather_all(t, pos, m, lead);
    let file: usize = if entry.has_pawns && count > 0 {
        let f = (men[0].sq % 8) as usize;
        assert(men@[0] == leads(b, m, lead)[0]);
        if f < 4 {
            f
        } else {
            7 - f
        }
    } else {
        0
    };
    if men.len() != entry.piece_count {
        return Err(ProbeState::Fail);
    }
    let d = entry.pairs(loaded, side, file);
    let ghost p = entry.part_of(side as int, file as int);
    let ghost n = entry.lens(bytes, p).len() as int;
    proof {
        assert(entry.is_part(&loaded.items@[p], bytes, p));
        lemma_grouped(entry, d, bytes, p);
    }
    if entry.kind == TbType::Dtz {
        let stored: usize = if has_flag(d.flags, FLAG_STM) {
            1
        } else {
            0
        };
        let both_sides = entry.key == entry.key2 && !entry.has_pawns;
        if stored != side && !both_sides {
            return Err(ProbeState::ChangeStm);
        }
    }
    let both = entry.has_pawns && entry.pawn_count[1] != 0;
    let found = part_value(
        t,
        men,
        count,
        d,
        &loaded.bytes,
        entry.has_pawns,
        entry.has_unique_pieces,
        both,
        Ghost(n),
    );
    match found {
        None => Err(ProbeState::Fail),
        Some(value) => {
            proof {
                let men = arranged(company(b, m, lead), d.pieces@, count as int);
                let lens = entry.lens(bytes, p);
                if !entry.has_pawns {
                    lemma_count(
                        folded(men, false, lens[0]),
                        entry.has_unique_pieces,
                        both,
                        lens[0],
                        count as int,
                        lens,
                        entry.multipliers(bytes, p),
                    );
                }
            }
            map_score(entry, loaded, file, value, wdl)
        },
    }
}

/// There is a part.
proof fn lemma_parts(entry: &TbTable)
    ensures
        entry.part_count() >= 1,
{
    assert(entry.part_count() >= 1) by (nonlinear_arith)
        requires
            entry.part_count() == entry.side_count() * entry.file_count(),
            entry.side_count() >= 1,
            entry.file_count() >= 1,
    ;
}

/// A piece code is half a byte.
proof fn lemma_codes(entry: &TbTable, b: Seq<u8>, i: int, k: int)
    ensures
        0 <= entry.code_at(b, i, k) < 16,
{
}

/// A part's groups are what the index is computed from.
proof fn lemma_grouped(entry: &TbTable, d: &PairsData, b: Seq<u8>, i: int)
    requires
        entry.wf(),
        entry.accepts(b),
        0 <= i < entry.part_count(),
        entry.fronted(d, b, i),
    ensures
        grouped(d, entry.lens(b, i).len() as int, entry.has_pawns, entry.piece_count as int),
        pairs::lens_of(d.group_len@, entry.lens(b, i).len() as int) == entry.lens(b, i),
        pairs::weights_of(d.group_idx@) == entry.multipliers(b, i),
{
    pairs::lemma_runs(
        entry.codes(b, i),
        pairs::first_length(entry.has_pawns, entry.has_unique_pieces),
        entry.piece_count as int,
    );
    assert(entry.front_ok(b, i));
}

} // verus!
