//! Every table that has been found, and what they say together.

use std::collections::HashMap;
use vstd::prelude::*;
use crate::board::bits;
use crate::board::legal_moves::generate_legal;
use crate::board::legality;
use crate::board::movegen::Node;
use crate::board::perft;
use crate::board::placement;
use crate::board::position::Position;
use crate::board::tally;
use crate::board::transition;
use crate::board::types;
use crate::board::types::{
    Color, Key, Move, MoveType, Piece, PieceType, Value, MAX_PLY, PAWN_VALUE, VALUE_DRAW,
    VALUE_MATE,
};
use crate::platform::syzygy::probe;
use crate::platform::syzygy::probe::{do_probe_table, ProbeState, Wdl};
use crate::platform::syzygy::table::{Loaded, TbTable, TbType};
use crate::platform::syzygy::table;
use crate::platform::syzygy::tables::IndexTables;

verus! {

/// Twice the longest distance that a table can hold: the scale of the root ranks.
pub const MAX_DTZ: i32 = 262144;

/// One material's tables, and what their files hold once they have been read.
#[derive(Debug)]
pub struct TableSlot {
    pub wdl: TbTable,
    pub dtz: Option<TbTable>,
    pub wdl_file: Option<Loaded>,
    pub dtz_file: Option<Loaded>,
}

impl TableSlot {
    /// What has been read is what the files say.
    pub open spec fn wf(&self) -> bool {
        &&& self.wdl.wf()
        &&& self.wdl.kind == TbType::Wdl
        &&& self.wdl_file matches Some(l) ==> self.wdl.laid_out(&l)
        &&& self.dtz matches Some(t) ==> t.wf() && t.kind == TbType::Dtz
        &&& self.dtz_file matches Some(l) ==> self.dtz is Some && (self.dtz->0).laid_out(&l)
    }
}

/// Every table that has been found.
#[derive(Debug)]
pub struct TableRegistry {
    /// By material key; the two keys of a table lead to the same place.
    by_key: HashMap<u64, usize>,
    tables: Vec<TableSlot>,
    max_cardinality: u32,
    index: IndexTables,
}

/// The number of pieces on the first `n` squares.
pub open spec fn crowd_upto(b: Seq<Piece>, n: int) -> int
    decreases n,
{
    if n <= 0 {
        0
    } else {
        crowd_upto(b, n - 1) + (if b[n - 1] != Piece::NONE {
            1int
        } else {
            0int
        })
    }
}

/// The number of pieces on the board.
pub open spec fn crowd(b: Seq<Piece>) -> int {
    crowd_upto(b, 64)
}

proof fn lemma_crowd_update(b: Seq<Piece>, s: int, p: Piece, n: int)
    requires
        0 <= s < b.len(),
        n <= b.len(),
    ensures
        crowd_upto(b.update(s, p), n) == crowd_upto(b, n) + (if s < n {
            (if p != Piece::NONE {
                1int
            } else {
                0
            }) - (if b[s] != Piece::NONE {
                1int
            } else {
                0
            })
        } else {
            0
        }),
    decreases n,
{
    if n > 0 {
        lemma_crowd_update(b, s, p, n - 1);
    }
}

proof fn lemma_crowd(b: Seq<Piece>, n: int)
    ensures
        0 <= crowd_upto(b, n),
        n >= 0 ==> crowd_upto(b, n) <= n,
    decreases n,
{
    if n > 0 {
        lemma_crowd(b, n - 1);
    }
}

/// `m` takes a piece of the node.
pub open spec fn takes(n: Node, m: Move) -> bool {
    (n.b[m.dst()] != Piece::NONE && m.kind() != MoveType::Castling) || m.kind()
        == MoveType::EnPassant
}

/// `m` resets the clock.
pub open spec fn resets(n: Node, m: Move) -> bool {
    takes(n, m) || n.b[m.src()].kind() == PieceType::Pawn
}

/// A move adds no piece, and a capture takes one away.
proof fn lemma_crowd_after(b: Seq<Piece>, us: Color, m: Move)
    requires
        placement::clean(b),
        transition::can_make(b, us, m),
    ensures
        crowd(transition::board_after(b, us, m)) <= crowd(b),
        ((b[m.dst()] != Piece::NONE && m.kind() != MoveType::Castling) || m.kind()
            == MoveType::EnPassant) ==> crowd(transition::board_after(b, us, m)) < crowd(b),
{
    broadcast use {types::Square::lemma_idx, types::Square::lemma_at};

    let from = m.src();
    let to = m.dst();
    if m.kind() == MoveType::Castling {
        let kt = crate::board::position::castle_king_to(from, to > from);
        let rt = crate::board::position::castle_rook_to(from, to > from);
        let b1 = b.update(from, Piece::NONE);
        let b2 = b1.update(to, Piece::NONE);
        let b3 = b2.update(kt, b[from]);
        lemma_crowd_update(b, from, Piece::NONE, 64);
        lemma_crowd_update(b1, to, Piece::NONE, 64);
        lemma_crowd_update(b2, kt, b[from], 64);
        lemma_crowd_update(b3, rt, b[to], 64);
    } else {
        let cap = transition::capture_square(us, m);
        let b1 = b.update(cap, Piece::NONE);
        let b2 = b1.update(from, Piece::NONE);
        lemma_crowd_update(b, cap, Piece::NONE, 64);
        lemma_crowd_update(b1, from, Piece::NONE, 64);
        lemma_crowd_update(b2, to, transition::arriving(b, us, m), 64);
    }
}

/// One root move as the tables rank it.
#[derive(Clone, Copy, Debug)]
pub struct RankedRootMove {
    pub mv: Move,
    /// Higher is better.
    pub rank: i32,
    /// The score to report.
    pub score: Value,
}

/// The distance that a verdict after a clock-resetting move stands for.
pub open spec fn zeroing_distance(wdl: Wdl) -> int {
    match wdl {
        Wdl::Win => 1,
        Wdl::CursedWin => 101,
        Wdl::BlessedLoss => -101,
        Wdl::Loss => -1,
        Wdl::Draw => 0,
    }
}

/// The distance that a verdict after a clock-resetting move stands for.
pub fn dtz_before_zeroing(wdl: Wdl) -> (r: i32)
    ensures
        r == zeroing_distance(wdl),
{
    match wdl {
        Wdl::Win => 1,
        Wdl::CursedWin => 101,
        Wdl::BlessedLoss => -101,
        Wdl::Loss => -1,
        Wdl::Draw => 0,
    }
}

/// -1, 0 or 1.
pub open spec fn sign(v: int) -> int {
    if v > 0 {
        1
    } else if v < 0 {
        -1
    } else {
        0
    }
}

/// -1, 0 or 1.
fn sign_of(v: i32) -> (r: i32)
    ensures
        r == sign(v as int),
{
    if v > 0 {
        1
    } else if v < 0 {
        -1
    } else {
        0
    }
}

impl TableRegistry {
    /// The tables are sound, and every key leads to one.
    pub closed spec fn wf(&self) -> bool {
        &&& self.index.wf()
        &&& forall|i: int| 0 <= i < self.tables@.len() ==> (#[trigger] self.tables@[i]).wf()
        &&& forall|k: u64| #[trigger]
            self.by_key@.contains_key(k) ==> self.by_key@[k] < self.tables@.len()
    }

    /// The tables, in the order in which they were found.
    pub closed spec fn slots(&self) -> Seq<TableSlot> {
        self.tables@
    }

    /// Which tables are for a material key.
    pub closed spec fn slot_for(&self, key: Key) -> Option<int> {
        if self.by_key@.contains_key(key) {
            Some(self.by_key@[key] as int)
        } else {
            None
        }
    }

    /// The largest number of pieces that a table is for.
    pub closed spec fn limit(&self) -> int {
        self.max_cardinality as int
    }

    /// No table yet.
    pub fn new() -> (r: TableRegistry)
        ensures
            r.wf(),
            r.slots().len() == 0,
            forall|k: Key| r.slot_for(k) is None,
            r.limit() == 0,
    {
        broadcast use vstd::std_specs::hash::group_hash_axioms;

        TableRegistry {
            by_key: HashMap::new(),
            tables: Vec::new(),
            max_cardinality: 0,
            index: IndexTables::build(),
        }
    }

    /// Register the tables of a name. Nothing happens for a text that names none, or when the
    /// material has its tables already; otherwise the place of the tables is returned.
    pub fn add(&mut self, stem: &str, wdl_path: String, dtz_path: Option<String>) -> (r: Option<
        usize,
    >)
        requires
            old(self).wf(),
            vstd::utf8::encode_utf8(stem@).len() <= 0x7fff_ffff,
        ensures
            final(self).wf(),
            r is None ==> final(self).slots() == old(self).slots() && final(self).limit() == old(
                self,
            ).limit() && forall|k: Key| final(self).slot_for(k) == old(self).slot_for(k),
            r is None ==> table::is_code(vstd::utf8::encode_utf8(stem@)) ==> exists|
                counts: [[i32; 7]; 2],
            |
                {
                    &&& #[trigger] table::counts_of(counts, vstd::utf8::encode_utf8(stem@))
                    &&& !table::countable(counts) || old(self).slot_for(
                        table::material_of_counts(counts),
                    ) is Some
                },
            r is Some ==> {
                let slot = final(self).slots().last();
                &&& r->0 == old(self).slots().len()
                &&& final(self).slots() == old(self).slots().push(slot)
                &&& old(self).slot_for(slot.wdl.key) is None
                &&& forall|k: Key|
                    final(self).slot_for(k) == (if k == slot.wdl.key || k == slot.wdl.key2 {
                        Some(r->0 as int)
                    } else {
                        old(self).slot_for(k)
                    })
                &&& final(self).limit() == (if slot.wdl.piece_count > old(self).limit() {
                    slot.wdl.piece_count as int
                } else {
                    old(self).limit()
                })
                &&& slot.wdl.path == wdl_path
                &&& slot.wdl.kind == TbType::Wdl
                &&& exists|counts: [[i32; 7]; 2]|
                    {
                        &&& #[trigger] table::counts_of(counts, vstd::utf8::encode_utf8(stem@))
                        &&& slot.wdl.identified(counts)
                        &&& slot.dtz matches Some(t) ==> t.identified(counts)
                    }
                &&& match (slot.dtz, dtz_path) {
                    (Some(t), Some(path)) => t.path == path && t.kind == TbType::Dtz,
                    (None, None) => true,
                    _ => false,
                }
                &&& slot.wdl_file is None
                &&& slot.dtz_file is None
            },
    {
        broadcast use vstd::std_specs::hash::group_hash_axioms;

        let wdl = match TbTable::new(TbType::Wdl, stem, wdl_path) {
            Some(t) => t,
            None => {
                return None;
            },
        };
        if self.by_key.contains_key(&wdl.key) {
            return None;
        }
        let dtz = match dtz_path {
            Some(path) => TbTable::new(TbType::Dtz, stem, path),
            None => None,
        };
        proof {
            let s = vstd::utf8::encode_utf8(stem@);
            assert forall|a: [[i32; 7]; 2], b: [[i32; 7]; 2]| #[trigger] table::counts_of(a, s)
                && #[trigger] table::counts_of(b, s) implies a == b by {
                table::lemma_counts(a, b, s);
            }
        }
        let slot = self.tables.len();
        let count = wdl.piece_count as u32;
        if count > self.max_cardinality {
            self.max_cardinality = count;
        }
        self.by_key.insert(wdl.key, slot);
        self.by_key.insert(wdl.key2, slot);
        self.tables.push(TableSlot { wdl, dtz, wdl_file: None, dtz_file: None });
        Some(slot)
    }
}

impl TableRegistry {
    /// Hand a table the bytes of its file. False when the file cannot be read, or when there is
    /// no such table; it is then as if the file were not there.
    pub fn load(&mut self, slot: usize, kind: TbType, bytes: Vec<u8>) -> (r: bool)
        requires
            old(self).wf(),
            slot < old(self).slots().len(),
            bytes@.len() <= 0x7FFF_FFFF_FFFF_FFFF,
        ensures
            final(self).wf(),
            final(self).limit() == old(self).limit(),
            forall|k: Key| final(self).slot_for(k) == old(self).slot_for(k),
            ({
                let was = old(self).slots()[slot as int];
                let now = final(self).slots()[slot as int];
                &&& final(self).slots() == old(self).slots().update(slot as int, now)
                &&& now.wdl == was.wdl
                &&& now.dtz == was.dtz
                &&& match kind {
                    TbType::Wdl => {
                        &&& r == was.wdl.reads(bytes@)
                        &&& now.dtz_file == was.dtz_file
                        &&& now.wdl_file is Some == r
                        &&& r ==> (now.wdl_file->0).bytes@ == bytes@
                    },
                    TbType::Dtz => {
                        &&& r == (was.dtz is Some && (was.dtz->0).reads(bytes@))
                        &&& now.wdl_file == was.wdl_file
                        &&& now.dtz_file is Some == r
                        &&& r ==> (now.dtz_file->0).bytes@ == bytes@
                    },
                }
            }),
    {
        let file = match kind {
            TbType::Wdl => self.tables[slot].wdl.read(&self.index, bytes),
            TbType::Dtz => match &self.tables[slot].dtz {
                Some(t) => t.read(&self.index, bytes),
                None => None,
            },
        };
        let r = file.is_some();
        let ghost was = self.tables@;
        let place = &mut self.tables[slot];
        match kind {
            TbType::Wdl => {
                place.wdl_file = file;
            },
            TbType::Dtz => {
                place.dtz_file = file;
            },
        }
        proof {
            assert(self.tables@ =~= was.update(slot as int, self.tables@[slot as int]));
        }
        r
    }

    /// The largest number of pieces that a table is for.
    pub fn max_cardinality(&self) -> (r: u32)
        ensures
            r == self.limit(),
    {
        self.max_cardinality
    }

    /// How many materials have tables.
    pub fn len(&self) -> (r: usize)
        ensures
            r == self.slots().len(),
    {
        self.tables.len()
    }

    /// Whether there is none.
    pub fn is_empty(&self) -> (r: bool)
        ensures
            r == (self.slots().len() == 0),
    {
        self.tables.len() == 0
    }

    /// How many of the first `n` materials have a distance table.
    pub open spec fn dtz_upto(&self, n: int) -> int
        decreases n,
    {
        if n <= 0 {
            0
        } else {
            self.dtz_upto(n - 1) + (if self.slots()[n - 1].dtz is Some {
                1int
            } else {
                0int
            })
        }
    }

    /// How many tables of verdicts and how many of distances there are.
    pub fn file_counts(&self) -> (r: (usize, usize))
        ensures
            r.0 == self.slots().len(),
            r.1 == self.dtz_upto(self.slots().len() as int),
    {
        let mut n: usize = 0;
        let mut i: usize = 0;
        while i < self.tables.len()
            invariant
                i <= self.tables@.len(),
                n <= i,
                n == self.dtz_upto(i as int),
                self.slots() == self.tables@,
            decreases self.tables@.len() - i,
        {
            if self.tables[i].dtz.is_some() {
                n += 1;
            }
            i += 1;
        }
        (self.tables.len(), n)
    }

    /// What the tables answer of a position, with no search around them.
    pub open spec fn table_answer(&self, b: Seq<Piece>, stm: Color, kind: TbType, wdl: Wdl) -> Result<
        int,
        ProbeState,
    > {
        if bits::members(placement::occ(b)).len() == 2 {
            Ok(0)
        } else {
            match self.slot_for(tally::material_of(b)) {
                None => Err(ProbeState::Fail),
                Some(i) => {
                    let slot = self.slots()[i];
                    match kind {
                        TbType::Wdl => match slot.wdl_file {
                            Some(l) => slot.wdl.answer(&l, b, stm, wdl),
                            None => Err(ProbeState::Fail),
                        },
                        TbType::Dtz => match (slot.dtz, slot.dtz_file) {
                            (Some(t), Some(l)) => t.answer(&l, b, stm, wdl),
                            _ => Err(ProbeState::Fail),
                        },
                    }
                },
            }
        }
    }

    /// Read a value out of a table, with no search around it.
    fn probe_table(&self, pos: &Position, kind: TbType, wdl: Wdl) -> (r: Result<i32, ProbeState>)
        requires
            self.wf(),
            pos.wf(),
        ensures
            probe::outcome(r) == self.table_answer(pos.board@, pos.side_to_move, kind, wdl),
            r is Ok ==> -2 <= r->Ok_0 <= 0x2_0000,
    {
        broadcast use vstd::std_specs::hash::group_hash_axioms;

        if pos.piece_total() == 2 {
            return Ok(0);
        }
        let slot = match self.by_key.get(&pos.st().material_key) {
            Some(i) => *i,
            None => {
                return Err(ProbeState::Fail);
            },
        };
        let tables = &self.tables[slot];
        assert(self.tables@[slot as int].wf());
        match kind {
            TbType::Wdl => match &tables.wdl_file {
                Some(l) => do_probe_table(&self.index, pos, &tables.wdl, l, wdl),
                None => Err(ProbeState::Fail),
            },
            TbType::Dtz => match &tables.dtz {
                Some(t) => match &tables.dtz_file {
                    Some(l) => do_probe_table(&self.index, pos, t, l, wdl),
                    None => Err(ProbeState::Fail),
                },
                None => Err(ProbeState::Fail),
            },
        }
    }
}

impl Default for TableRegistry {
    /// No table yet.
    fn default() -> (r: TableRegistry)
        ensures
            r.wf(),
            r.slots().len() == 0,
            r.limit() == 0,
    {
        TableRegistry::new()
    }
}

// ---------------------------------------------------------------------------
// Verdicts
// ---------------------------------------------------------------------------

/// What trying some of the moves has given: the best verdict, how many were tried, and whether
/// one of them wins.
pub struct Tried {
    pub best: Wdl,
    pub count: int,
    pub won: bool,
}

/// What one more verdict, of the side that is to move then, makes of the moves tried.
pub open spec fn merged(t: Tried, below: Result<(Wdl, ProbeState), ProbeState>) -> Result<
    Tried,
    ProbeState,
> {
    match below {
        Err(e) => Err(e),
        Ok(found) => {
            let v = found.0.opposite();
            if v.num() > t.best.num() {
                Ok(Tried { best: v, count: t.count + 1, won: v == Wdl::Win })
            } else {
                Ok(Tried { best: t.best, count: t.count + 1, won: false })
            }
        },
    }
}

/// The verdict of the moves tried, of `total`, and of a table's answer: the table counts where
/// the moves tried are not all and it says better.
pub open spec fn settled(t: Tried, total: int, answer: Result<int, ProbeState>) -> Result<
    (Wdl, ProbeState),
    ProbeState,
> {
    let none_left = t.count != 0 && t.count == total;
    let stored = if none_left {
        Ok(t.best)
    } else {
        match answer {
            Err(e) => Err(e),
            Ok(v) => match Wdl::stored(v) {
                None => Err(ProbeState::Fail),
                Some(w) => Ok(w),
            },
        }
    };
    if t.won {
        Ok((t.best, ProbeState::ZeroingBestMove))
    } else {
        match stored {
            Err(e) => Err(e),
            Ok(w) => if t.best.num() >= w.num() {
                Ok(
                    (
                        t.best,
                        if t.best.num() > 0 || none_left {
                            ProbeState::ZeroingBestMove
                        } else {
                            ProbeState::Found
                        },
                    ),
                )
            } else {
                Ok((w, ProbeState::Found))
            },
        }
    }
}

/// The moves that are searched: captures, and where `all` says so every move that resets the
/// clock.
pub open spec fn searched(n: Node, m: Move, all: bool) -> bool {
    takes(n, m) || (all && n.b[m.src()].kind() == PieceType::Pawn)
}

impl TableRegistry {
    /// What trying the first `i` moves gives.
    #[verifier::opaque]
    pub open spec fn tried(&self, n: Node, all: bool, s: Seq<Move>, i: int) -> Result<
        Tried,
        ProbeState,
    >
        decreases
                (if all {
                    1int
                } else {
                    0int
                }), crowd(n.b), i,
    {
        if i <= 0 {
            Ok(Tried { best: Wdl::Loss, count: 0, won: false })
        } else {
            match self.tried(n, all, s, i - 1) {
                Err(e) => Err(e),
                Ok(t) => {
                    let m = s[i - 1];
                    let x = n.next(m);
                    if t.won || !searched(n, m, all) {
                        Ok(t)
                    } else if !all && !(0 <= crowd(x.b) < crowd(n.b)) {
                        Err(ProbeState::Fail)
                    } else {
                        merged(t, self.verdict(x, false))
                    }
                },
            }
        }
    }

    /// The verdict of a node: that of its searched moves, or of the table where they are not
    /// all of its moves and the table says better.
    #[verifier::opaque]
    pub open spec fn verdict(&self, n: Node, all: bool) -> Result<(Wdl, ProbeState), ProbeState>
        decreases
                (if all {
                    1int
                } else {
                    0int
                }), crowd(n.b), n.legal_moves().len() + 1,
    {
        let s = n.legal_moves();
        match self.tried(n, all, s, s.len() as int) {
            Err(e) => Err(e),
            Ok(t) => settled(
                t,
                s.len() as int,
                self.table_answer(n.b, n.stm, TbType::Wdl, Wdl::Draw),
            ),
        }
    }

    /// One more move tried.
    proof fn lemma_tried_next(&self, n: Node, all: bool, s: Seq<Move>, i: int, t: Tried)
        requires
            0 <= i,
            self.tried(n, all, s, i) == Ok::<Tried, ProbeState>(t),
            !t.won,
        ensures
            !searched(n, s[i], all) ==> self.tried(n, all, s, i + 1) == Ok::<Tried, ProbeState>(t),
            searched(n, s[i], all) && (all || 0 <= crowd(n.next(s[i]).b) < crowd(n.b)) ==> self.tried(
                n,
                all,
                s,
                i + 1,
            ) == merged(t, self.verdict(n.next(s[i]), false)),
    {
        reveal(TableRegistry::tried);
        reveal(TableRegistry::verdict);
    }

    /// A failure stays one, and so does a win.
    proof fn lemma_tried_over(&self, n: Node, all: bool, s: Seq<Move>, i: int, j: int)
        requires
            0 <= i <= j,
            self.tried(n, all, s, i) is Err || self.tried(n, all, s, i)->Ok_0.won,
        ensures
            self.tried(n, all, s, j) == self.tried(n, all, s, i),
        decreases j,
    {
        reveal(TableRegistry::tried);
        if i < j {
            self.lemma_tried_over(n, all, s, i, j - 1);
        }
    }

    /// The moves tried decide, or the table after them.
    pub proof fn lemma_verdict(&self, n: Node, all: bool)
        ensures
            self.verdict(n, all) == (match self.tried(
                n,
                all,
                n.legal_moves(),
                n.legal_moves().len() as int,
            ) {
                Err(e) => Err::<(Wdl, ProbeState), ProbeState>(e),
                Ok(t) => settled(
                    t,
                    n.legal_moves().len() as int,
                    self.table_answer(n.b, n.stm, TbType::Wdl, Wdl::Draw),
                ),
            }),
            self.tried(n, all, n.legal_moves(), 0) == Ok::<Tried, ProbeState>(
                Tried { best: Wdl::Loss, count: 0, won: false },
            ),
    {
        reveal(TableRegistry::verdict);
        reveal(TableRegistry::tried);
    }
}

/// The clocks can run for as many moves as the search plays.
pub open spec fn searchable(pos: &Position, extra: int) -> bool {
    pos.explorable(crowd(pos.board@) + extra)
}

/// After a legal move the search can go on.
proof fn lemma_searchable(pre: Position, mid: Position, m: Move, extra: int)
    requires
        extra >= 0,
        searchable(&pre, extra),
        crowd(pre.board@) + extra > 0,
        pre.node().legal_moves().contains(m),
        mid.wf(),
        pre.made(&mid, m, legality::checks_king(pre.board@, pre.side_to_move, m)),
    ensures
        mid.node() == pre.node().next(m),
        takes(pre.node(), m) ==> 0 <= crowd(mid.board@) < crowd(pre.board@) && searchable(
            &mid,
            extra,
        ),
        extra > 0 ==> searchable(&mid, extra - 1),
{
    perft::lemma_step(pre, mid, m, crowd(pre.board@) + extra);
    perft::law_play_stays_regular(pre.node(), m);
    lemma_crowd_after(pre.board@, pre.side_to_move, m);
    lemma_crowd(mid.board@, 64);
}

/// A legal capture leaves fewer pieces.
proof fn lemma_shrinks(n: Node, m: Move)
    requires
        n.regular(),
        n.legal_moves().contains(m),
    ensures
        takes(n, m) ==> 0 <= crowd(n.next(m).b) < crowd(n.b),
{
    perft::law_play_stays_regular(n, m);
    lemma_crowd_after(n.b, n.stm, m);
    lemma_crowd(n.next(m).b, 64);
}

impl TableRegistry {
    /// The verdict below the legal move `m`, for the side that is to move there. The position
    /// is the same afterwards.
    fn verdict_below(&self, pos: &mut Position, m: Move, Ghost(extra): Ghost<int>) -> (r: Result<
        (Wdl, ProbeState),
        ProbeState,
    >)
        requires
            self.wf(),
            extra >= 0,
            searchable(old(pos), extra),
            old(pos).node().legal_moves().contains(m),
            takes(old(pos).node(), m) || extra > 0,
        ensures
            r == self.verdict(old(pos).node().next(m), false),
            final(pos).wf(),
            final(pos).same(old(pos)),
        decreases crowd(old(pos).board@) + extra, 0int,
    {
        let ghost here = *pos;
        let ghost check = legality::checks_king(here.board@, here.side_to_move, m);
        proof {
            perft::law_play_stays_regular(here.node(), m);
            lemma_crowd(here.board@, 64);
            if takes(here.node(), m) {
                lemma_crowd_after(here.board@, here.side_to_move, m);
                lemma_crowd(transition::board_after(here.board@, here.side_to_move, m), 64);
            }
        }
        pos.do_move(m);
        proof {
            lemma_searchable(here, *pos, m, extra);
            transition::law_made_moves_can_be_undone(here, *pos, m, check);
            lemma_crowd_after(here.board@, here.side_to_move, m);
            lemma_crowd(pos.board@, 64);
        }
        let ghost mid = *pos;
        let found = self.wdl_search(pos, false);
        let ghost back = *pos;
        pos.undo_move(m);
        proof {
            transition::law_undo_restores(here, back, *pos, m, check);
        }
        found
    }

    /// The verdict of a position, and whether its best move resets the clock. With `all` every
    /// move that resets the clock is searched, without it captures only. The position is the
    /// same afterwards.
    fn wdl_search(&self, pos: &mut Position, all: bool) -> (r: Result<
        (Wdl, ProbeState),
        ProbeState,
    >)
        requires
            self.wf(),
            searchable(old(pos), if all {
                1
            } else {
                0
            }),
        ensures
            r == self.verdict(old(pos).node(), all),
            final(pos).wf(),
            final(pos).same(old(pos)),
        decreases
                crowd(old(pos).board@) + (if all {
                    1int
                } else {
                    0int
                }), 1int,
    {
        let ghost pre = *pos;
        let ghost n = pos.node();
        let ghost extra: int = if all {
            1
        } else {
            0
        };
        let moves = generate_legal(pos);
        let total = moves.len();
        let mut best = Wdl::Loss;
        let mut count: usize = 0;
        let mut i: usize = 0;
        proof {
            self.lemma_verdict(n, all);
        }
        while i < total
            invariant
                self.wf(),
                i <= total,
                total == moves@.len(),
                moves@ == n.legal_moves(),
                n == pre.node(),
                pre == *old(pos),
                extra == (if all {
                    1int
                } else {
                    0int
                }),
                searchable(&pre, extra),
                pos.wf(),
                pos.same(&pre),
                count <= i,
                self.tried(n, all, moves@, i as int) == Ok::<Tried, ProbeState>(
                    Tried { best, count: count as int, won: false },
                ),
            decreases total - i,
        {
            let m = moves.list[i];
            assert(moves@.contains(m));
            proof {
                self.lemma_tried_next(
                    n,
                    all,
                    moves@,
                    i as int,
                    Tried { best, count: count as int, won: false },
                );
            }
            let zeroing = pos.is_capture(m) || (all && pos.piece_on(m.from()).piece_type()
                == PieceType::Pawn);
            assert(zeroing == searched(n, m, all));
            if zeroing {
                assert(pos.node() == n);
                proof {
                    lemma_shrinks(n, m);
                }
                let found = self.verdict_below(pos, m, Ghost(extra));
                count += 1;
                match found {
                    Err(e) => {
                        proof {
                            self.lemma_verdict(n, all);
                            self.lemma_tried_over(n, all, moves@, i + 1, moves@.len() as int);
                        }
                        return Err(e);
                    },
                    Ok((w, _)) => {
                        let v = w.negate();
                        if v.value() > best.value() {
                            best = v;
                            if v == Wdl::Win {
                                proof {
                                    self.lemma_verdict(n, all);
                                    self.lemma_tried_over(n, all, moves@, i + 1, moves@.len() as int);
                                }
                                return Ok((v, ProbeState::ZeroingBestMove));
                            }
                        }
                    },
                }
            }
            i += 1;
        }
        let none_left = count != 0 && count == total;
        let stored = if none_left {
            best
        } else {
            match self.probe_table(pos, TbType::Wdl, Wdl::Draw) {
                Err(e) => {
                    return Err(e);
                },
                Ok(v) => match Wdl::from_stored(v) {
                    None => {
                        return Err(ProbeState::Fail);
                    },
                    Some(w) => w,
                },
            }
        };
        if best.value() >= stored.value() {
            let state = if best.value() > 0 || none_left {
                ProbeState::ZeroingBestMove
            } else {
                ProbeState::Found
            };
            return Ok((best, state));
        }
        Ok((stored, ProbeState::Found))
    }

    /// The verdict of a position, for the side to move: captures are searched first, then the
    /// table is asked.
    pub fn probe_wdl(&self, pos: &Position) -> (r: Result<Wdl, ProbeState>)
        requires
            self.wf(),
            searchable(pos, 0),
        ensures
            r == (match self.verdict(pos.node(), false) {
                Ok(found) => Ok::<Wdl, ProbeState>(found.0),
                Err(e) => Err(e),
            }),
    {
        let mut work = pos.clone();
        assert(work.node() == pos.node());
        match self.wdl_search(&mut work, false) {
            Ok((w, _)) => Ok(w),
            Err(e) => Err(e),
        }
    }
}

// ---------------------------------------------------------------------------
// Distances
// ---------------------------------------------------------------------------

/// A stored distance with the verdict's sign, a hundred plies more where the fifty-move rule
/// makes it a draw.
pub open spec fn signed_distance(d: int, wdl: Wdl) -> int {
    (d + (if wdl == Wdl::BlessedLoss || wdl == Wdl::CursedWin {
        100int
    } else {
        0int
    })) * sign(wdl.num())
}

/// The side to move is mated.
pub open spec fn mated(n: Node) -> bool {
    n.in_check() && n.legal_moves().len() == 0
}

/// The shortest distance so far, with one more move at distance `d`: a mate is at one ply, and
/// a move that does not reset the clock takes a ply itself. Only a distance with the verdict's
/// sign counts.
pub open spec fn shorter(least: int, d: int, zeroing: bool, mates: bool, wdl: Wdl) -> int {
    let before = if d == 1 && mates {
        1
    } else {
        least
    };
    let full = if zeroing {
        d
    } else {
        d + sign(d)
    };
    if full < before && sign(full) == sign(wdl.num()) {
        full
    } else {
        before
    }
}

impl TableRegistry {
    /// The distance of a node without trying its moves; the verdict where the table has the
    /// other side to move only.
    #[verifier::opaque]
    pub open spec fn plain(&self, n: Node) -> Result<Result<int, Wdl>, ProbeState> {
        match self.verdict(n, true) {
            Err(e) => Err(e),
            Ok(found) => if found.0 == Wdl::Draw {
                Ok(Ok(0))
            } else if found.1 == ProbeState::ZeroingBestMove {
                Ok(Ok(zeroing_distance(found.0)))
            } else {
                match self.table_answer(n.b, n.stm, TbType::Dtz, found.0) {
                    Ok(d) => Ok(Ok(signed_distance(d, found.0))),
                    Err(ProbeState::ChangeStm) => Ok(Err(found.0)),
                    Err(e) => Err(e),
                }
            },
        }
    }

    /// The distance to the next move that resets the clock. Where the table has the other side
    /// to move only, the moves are tried; after one of them (`again`) they are not tried once
    /// more.
    #[verifier::opaque]
    pub open spec fn distance(&self, n: Node, again: bool) -> Result<int, ProbeState>
        decreases
                (if again {
                    0int
                } else {
                    1int
                }), 1int, 0int,
    {
        match self.plain(n) {
            Err(e) => Err(e),
            Ok(Ok(d)) => Ok(d),
            Ok(Err(wdl)) => if again {
                Err(ProbeState::Fail)
            } else {
                match self.least_distance(n, wdl, n.legal_moves(), n.legal_moves().len() as int) {
                    Err(e) => Err(e),
                    Ok(d) => Ok(
                        if d == 0xFFFF {
                            -1
                        } else {
                            d
                        },
                    ),
                }
            },
        }
    }

    /// The distance below the move `m`, for the side that makes it.
    #[verifier::opaque]
    pub open spec fn distance_after(&self, n: Node, m: Move) -> Result<int, ProbeState>
        decreases 1int, 0int, 0int,
    {
        if resets(n, m) {
            match self.verdict(n.next(m), false) {
                Err(e) => Err(e),
                Ok(found) => Ok(-zeroing_distance(found.0)),
            }
        } else {
            match self.distance(n.next(m), true) {
                Err(e) => Err(e),
                Ok(d) => Ok(-d),
            }
        }
    }

    /// The shortest distance over the first `i` moves, 65535 where none counts.
    #[verifier::opaque]
    pub open spec fn least_distance(&self, n: Node, wdl: Wdl, s: Seq<Move>, i: int) -> Result<
        int,
        ProbeState,
    >
        decreases 1int, 0int, i + 1,
    {
        if i <= 0 {
            Ok(0xFFFF)
        } else {
            match self.least_distance(n, wdl, s, i - 1) {
                Err(e) => Err(e),
                Ok(least) => {
                    let m = s[i - 1];
                    match self.distance_after(n, m) {
                        Err(e) => Err(e),
                        Ok(d) => Ok(shorter(least, d, resets(n, m), mated(n.next(m)), wdl)),
                    }
                },
            }
        }
    }

    proof fn lemma_least_next(&self, n: Node, wdl: Wdl, s: Seq<Move>, i: int)
        requires
            0 <= i,
        ensures
            self.least_distance(n, wdl, s, 0) == Ok::<int, ProbeState>(0xFFFF),
            self.least_distance(n, wdl, s, i) is Ok ==> self.least_distance(n, wdl, s, i + 1) == (
            match self.distance_after(n, s[i]) {
                Err(e) => Err::<int, ProbeState>(e),
                Ok(d) => Ok(
                    shorter(
                        self.least_distance(n, wdl, s, i)->Ok_0,
                        d,
                        resets(n, s[i]),
                        mated(n.next(s[i])),
                        wdl,
                    ),
                ),
            }),
    {
        reveal(TableRegistry::least_distance);
        reveal(TableRegistry::distance_after);
        reveal(TableRegistry::distance);
    }

    proof fn lemma_least_err(&self, n: Node, wdl: Wdl, s: Seq<Move>, i: int, j: int)
        requires
            0 <= i <= j,
            self.least_distance(n, wdl, s, i) is Err,
        ensures
            self.least_distance(n, wdl, s, j) == self.least_distance(n, wdl, s, i),
        decreases j,
    {
        reveal(TableRegistry::least_distance);
        if i < j {
            self.lemma_least_err(n, wdl, s, i, j - 1);
        }
    }

    pub proof fn lemma_distance(&self, n: Node, again: bool)
        ensures
            self.distance(n, again) == (match self.plain(n) {
                Err(e) => Err::<int, ProbeState>(e),
                Ok(Ok(d)) => Ok(d),
                Ok(Err(wdl)) => if again {
                    Err(ProbeState::Fail)
                } else {
                    match self.least_distance(n, wdl, n.legal_moves(), n.legal_moves().len() as int) {
                        Err(e) => Err(e),
                        Ok(d) => Ok(
                            if d == 0xFFFF {
                                -1
                            } else {
                                d
                            },
                        ),
                    }
                },
            }),
    {
        reveal(TableRegistry::distance);
        reveal(TableRegistry::least_distance);
    }

    proof fn lemma_after(&self, n: Node, m: Move)
        ensures
            self.distance_after(n, m) == (if resets(n, m) {
                match self.verdict(n.next(m), false) {
                    Err(e) => Err::<int, ProbeState>(e),
                    Ok(found) => Ok(-zeroing_distance(found.0)),
                }
            } else {
                match self.distance(n.next(m), true) {
                    Err(e) => Err(e),
                    Ok(d) => Ok(-d),
                }
            }),
    {
        reveal(TableRegistry::distance_after);
        reveal(TableRegistry::distance);
    }

    /// The distance of a position without trying its moves; the verdict where the table has the
    /// other side to move only. The position is the same afterwards.
    fn plain_distance(&self, pos: &mut Position) -> (r: Result<Result<i32, Wdl>, ProbeState>)
        requires
            self.wf(),
            searchable(old(pos), 1),
        ensures
            final(pos).wf(),
            final(pos).same(old(pos)),
            plain_outcome(r) == self.plain(old(pos).node()),
            r matches Ok(Ok(d)) ==> -0x2_0064 <= d <= 0x2_0064,
    {
        let ghost n = pos.node();
        reveal(TableRegistry::plain);
        match self.wdl_search(pos, true) {
            Err(e) => Err(e),
            Ok((wdl, state)) => {
                if wdl == Wdl::Draw {
                    return Ok(Ok(0));
                }
                if state == ProbeState::ZeroingBestMove {
                    return Ok(Ok(dtz_before_zeroing(wdl)));
                }
                match self.probe_table(pos, TbType::Dtz, wdl) {
                    Err(ProbeState::ChangeStm) => Ok(Err(wdl)),
                    Err(e) => Err(e),
                    Ok(d) => Ok(Ok(with_sign(d, wdl))),
                }
            },
        }
    }
}

/// The result as numbers.
pub open spec fn plain_outcome(r: Result<Result<i32, Wdl>, ProbeState>) -> Result<
    Result<int, Wdl>,
    ProbeState,
> {
    match r {
        Err(e) => Err(e),
        Ok(Ok(d)) => Ok(Ok(d as int)),
        Ok(Err(w)) => Ok(Err(w)),
    }
}

/// A stored distance with the verdict's sign.
fn with_sign(d: i32, wdl: Wdl) -> (r: i32)
    requires
        -2 <= d <= 0x2_0000,
    ensures
        r == signed_distance(d as int, wdl),
        -0x2_0064 <= r <= 0x2_0064,
{
    let cursed: i32 = if wdl == Wdl::BlessedLoss || wdl == Wdl::CursedWin {
        100
    } else {
        0
    };
    let sum: i32 = d + cursed;
    if wdl.value() > 0 {
        sum
    } else if wdl.value() < 0 {
        -sum
    } else {
        0
    }
}

/// Whether the side to move is mated.
fn is_mated(pos: &Position) -> (r: bool)
    requires
        pos.wf(),
    ensures
        r == mated(pos.node()),
{
    pos.in_check() && generate_legal(pos).is_empty()
}

impl TableRegistry {
    /// The distance below the legal move `m` for the side that makes it, and whether the move
    /// mates. The position is the same afterwards.
    fn distance_below(&self, pos: &mut Position, m: Move) -> (r: (Result<i32, ProbeState>, bool))
        requires
            self.wf(),
            searchable(old(pos), 2),
            old(pos).node().legal_moves().contains(m),
        ensures
            final(pos).wf(),
            final(pos).same(old(pos)),
            probe::outcome(r.0) == self.distance_after(old(pos).node(), m),
            r.0 is Ok ==> -0x2_0064 <= r.0->Ok_0 <= 0x2_0064,
            r.1 == mated(old(pos).node().next(m)),
    {
        let ghost here = *pos;
        let ghost n = pos.node();
        let ghost check = legality::checks_king(here.board@, here.side_to_move, m);
        let zeroing = pos.is_capture(m) || pos.piece_on(m.from()).piece_type() == PieceType::Pawn;
        proof {
            perft::law_play_stays_regular(n, m);
            self.lemma_after(n, m);
            self.lemma_distance(n.next(m), true);
            lemma_crowd(here.board@, 64);
        }
        pos.do_move(m);
        proof {
            lemma_searchable(here, *pos, m, 2);
            transition::law_made_moves_can_be_undone(here, *pos, m, check);
            lemma_crowd(pos.board@, 64);
        }
        let ghost mid = *pos;
        let mates = is_mated(pos);
        let below = if zeroing {
            match self.wdl_search(pos, false) {
                Err(e) => Err(e),
                Ok((w, _)) => Ok(-dtz_before_zeroing(w)),
            }
        } else {
            match self.plain_distance(pos) {
                Err(e) => Err(e),
                Ok(Ok(d)) => Ok(-d),
                Ok(Err(_)) => Err(ProbeState::Fail),
            }
        };
        let ghost back = *pos;
        pos.undo_move(m);
        proof {
            transition::law_undo_restores(here, back, *pos, m, check);
        }
        (below, mates)
    }

    /// The shortest distance over the moves, where the table has the other side to move only.
    /// The position is the same afterwards.
    fn dtz_by_one_ply_search(&self, pos: &mut Position, wdl: Wdl) -> (r: Result<i32, ProbeState>)
        requires
            self.wf(),
            searchable(old(pos), 2),
        ensures
            final(pos).wf(),
            final(pos).same(old(pos)),
            probe::outcome(r) == (match self.least_distance(
                old(pos).node(),
                wdl,
                old(pos).node().legal_moves(),
                old(pos).node().legal_moves().len() as int,
            ) {
                Err(e) => Err::<int, ProbeState>(e),
                Ok(d) => Ok(
                    if d == 0xFFFF {
                        -1
                    } else {
                        d
                    },
                ),
            }),
            r is Ok ==> -0x2_0065 <= r->Ok_0 <= 0x2_0065,
    {
        let ghost pre = *pos;
        let ghost n = pos.node();
        let moves = generate_legal(pos);
        let total = moves.len();
        let mut least: i32 = 0xFFFF;
        let mut i: usize = 0;
        proof {
            self.lemma_least_next(n, wdl, moves@, 0);
        }
        while i < total
            invariant
                self.wf(),
                i <= total,
                total == moves@.len(),
                moves@ == n.legal_moves(),
                n == pre.node(),
                pre == *old(pos),
                searchable(&pre, 2),
                pos.wf(),
                pos.same(&pre),
                -0x2_0065 <= least <= 0x2_0065,
                self.least_distance(n, wdl, moves@, i as int) == Ok::<int, ProbeState>(least as int),
            decreases total - i,
        {
            let m = moves.list[i];
            assert(moves@.contains(m));
            assert(pos.node() == n);
            proof {
                self.lemma_least_next(n, wdl, moves@, i as int);
            }
            let zeroing = pos.is_capture(m) || pos.piece_on(m.from()).piece_type()
                == PieceType::Pawn;
            assert(zeroing == resets(n, m));
            match self.distance_below(pos, m) {
                (Err(e), _) => {
                    proof {
                        self.lemma_least_err(n, wdl, moves@, i + 1, moves@.len() as int);
                    }
                    return Err(e);
                },
                (Ok(d), mates) => {
                    if d == 1 && mates {
                        least = 1;
                    }
                    let full: i32 = if zeroing {
                        d
                    } else {
                        d + sign_of(d)
                    };
                    if full < least && sign_of(full) == sign_of(wdl.value()) {
                        least = full;
                    }
                },
            }
            i += 1;
        }
        Ok(
            if least == 0xFFFF {
                -1
            } else {
                least
            },
        )
    }

    /// The distance to the next move that resets the clock, for the side to move: positive when
    /// winning, negative when losing, zero in a draw, and beyond a hundred where the fifty-move
    /// rule makes it a draw.
    pub fn probe_dtz(&self, pos: &Position) -> (r: Result<i32, ProbeState>)
        requires
            self.wf(),
            searchable(pos, 2),
        ensures
            probe::outcome(r) == self.distance(pos.node(), false),
            r is Ok ==> -0x2_0065 <= r->Ok_0 <= 0x2_0065,
    {
        let mut work = pos.clone();
        assert(work.node() == pos.node());
        proof {
            self.lemma_distance(pos.node(), false);
        }
        match self.plain_distance(&mut work) {
            Err(e) => Err(e),
            Ok(Ok(d)) => Ok(d),
            Ok(Err(wdl)) => self.dtz_by_one_ply_search(&mut work, wdl),
        }
    }
}

// ---------------------------------------------------------------------------
// Root moves
// ---------------------------------------------------------------------------

/// The position has been there before, within `ply` of the root.
pub open spec fn repeated(pos: &Position, ply: int) -> bool {
    pos.top().repetition != 0 && pos.top().repetition <= ply
}

/// The position is drawn by the clock or by repetition.
pub open spec fn drawn(pos: &Position, ply: int) -> bool {
    (pos.top().rule50 > 99 && (pos.top().checkers.0 == 0 || pos.node().legal_moves().len() > 0))
        || repeated(pos, ply)
}

/// The rank of a move at a distance: certain wins rank alike unless distances are asked for,
/// and so do losses, until the clock puts a draw within reach.
pub open spec fn root_rank(dtz: int, clock: int, rep: bool, rank_dtz: bool) -> int {
    let own = if rank_dtz {
        dtz
    } else {
        0
    };
    if dtz > 0 {
        if dtz + clock <= 99 && !rep {
            MAX_DTZ - own
        } else {
            MAX_DTZ / 2 - (dtz + clock)
        }
    } else if dtz < 0 {
        if -dtz * 2 + clock < 100 {
            -MAX_DTZ - own
        } else {
            -(MAX_DTZ / 2) + (-dtz + clock)
        }
    } else {
        0
    }
}

/// From which rank on a move is a win.
pub open spec fn root_bound(rule50: bool) -> int {
    if rule50 {
        MAX_DTZ / 2 - 100
    } else {
        1
    }
}

/// The greater of two numbers.
pub open spec fn greater(a: int, b: int) -> int {
    if a > b {
        a
    } else {
        b
    }
}

/// The score of a rank: a certain win or loss, a draw, or a few hundredths of a pawn for what
/// the fifty-move rule makes a draw.
pub open spec fn root_score(rank: int, bound: int) -> int {
    if rank >= bound {
        VALUE_MATE - MAX_PLY - 1
    } else if rank > 0 {
        greater(3, rank - (MAX_DTZ / 2 - 200)) * PAWN_VALUE / 200
    } else if rank == 0 {
        VALUE_DRAW as int
    } else if rank > -bound {
        -(greater(3, -rank - (MAX_DTZ / 2 - 200)) * PAWN_VALUE / 200)
    } else {
        -VALUE_MATE + MAX_PLY + 1
    }
}

/// The sums that a rank is made of fit their type.
pub open spec fn rank_fits(dtz: int, clock: int, rep: bool) -> bool {
    &&& dtz > 0 ==> dtz + clock <= i32::MAX && (dtz + clock > 99 || rep ==> MAX_DTZ / 2 - (dtz
        + clock) <= i32::MAX)
    &&& dtz < 0 ==> -dtz * 2 <= i32::MAX && -dtz * 2 + clock <= i32::MAX
}

/// The rank of a move at a distance.
pub fn rank_of(dtz: i32, clock: i32, rep: bool, rank_dtz: bool) -> (r: i32)
    requires
        rank_fits(dtz as int, clock as int, rep),
    ensures
        r == root_rank(dtz as int, clock as int, rep, rank_dtz),
{
    let own: i32 = if rank_dtz {
        dtz
    } else {
        0
    };
    if dtz > 0 {
        if dtz + clock <= 99 && !rep {
            MAX_DTZ - own
        } else {
            MAX_DTZ / 2 - (dtz + clock)
        }
    } else if dtz < 0 {
        if -dtz * 2 + clock < 100 {
            -MAX_DTZ - own
        } else {
            -(MAX_DTZ / 2) + (-dtz + clock)
        }
    } else {
        0
    }
}

/// The score of a rank.
pub fn score_of(rank: i32, rule50: bool) -> (r: Value)
    ensures
        r.0 == root_score(rank as int, root_bound(rule50)),
{
    let bound: i32 = if rule50 {
        MAX_DTZ / 2 - 100
    } else {
        1
    };
    if rank >= bound {
        Value(VALUE_MATE - MAX_PLY as i32 - 1)
    } else if rank > 0 {
        let over: i32 = rank - (MAX_DTZ / 2 - 200);
        let x: i32 = if 3 > over {
            3
        } else {
            over
        };
        Value(x * PAWN_VALUE / 200)
    } else if rank == 0 {
        Value(VALUE_DRAW)
    } else if rank > -bound {
        let over: i32 = -rank - (MAX_DTZ / 2 - 200);
        let x: i32 = if 3 > over {
            3
        } else {
            over
        };
        Value(-(x * PAWN_VALUE / 200))
    } else {
        Value(-VALUE_MATE + MAX_PLY as i32 + 1)
    }
}

impl TableRegistry {
    /// The distance of the move that led to `mid`, for the side that made it. A move that
    /// resets the clock has the distance of its verdict, one that draws has none, and one that
    /// mates has one.
    pub open spec fn root_distance(&self, mid: &Position, rule50: bool) -> Result<int, ProbeState> {
        let n = mid.node();
        let probed = if mid.top().rule50 == 0 {
            match self.verdict(n, false) {
                Err(e) => Err(e),
                Ok(found) => Ok(zeroing_distance(found.0.opposite())),
            }
        } else if (rule50 && drawn(mid, 1)) || repeated(mid, 1) {
            Ok(0)
        } else {
            match self.distance(n, false) {
                Err(e) => Err(e),
                Ok(d) => Ok(-d + sign(-d)),
            }
        };
        if probed == Ok::<int, ProbeState>(2) && mated(n) {
            Ok(1)
        } else {
            probed
        }
    }

    /// A root move has the rank and the score of its distance.
    pub open spec fn ranked(
        &self,
        pos: &Position,
        m: Move,
        rule50: bool,
        rank_dtz: bool,
        out: RankedRootMove,
    ) -> bool {
        exists|mid: Position|
            {
                &&& #[trigger] pos.made(
                    &mid,
                    m,
                    legality::checks_king(pos.board@, pos.side_to_move, m),
                )
                &&& self.root_distance(&mid, rule50) is Ok
                &&& out.mv == m
                &&& out.rank == root_rank(
                    self.root_distance(&mid, rule50)->Ok_0,
                    pos.top().rule50 as int,
                    crate::board::legal_moves::repeated_from(pos.states@, pos.states@.len() - 1),
                    rank_dtz,
                )
                &&& out.score.0 == root_score(out.rank as int, root_bound(rule50))
            }
    }

    /// A root move cannot be ranked.
    pub open spec fn unranked(&self, pos: &Position, m: Move, rule50: bool) -> bool {
        exists|mid: Position|
            {
                &&& #[trigger] pos.made(
                    &mid,
                    m,
                    legality::checks_king(pos.board@, pos.side_to_move, m),
                )
                &&& self.root_distance(&mid, rule50) is Err
            }
    }

    /// The distance of the position that a root move has led to.
    fn probe_root(&self, mid: &Position, rule50: bool) -> (r: Result<i32, ProbeState>)
        requires
            self.wf(),
            searchable(mid, 2),
        ensures
            probe::outcome(r) == self.root_distance(mid, rule50),
            r is Ok ==> -0x3_0000 <= r->Ok_0 <= 0x3_0000,
    {
        let probed = if mid.rule50_count() == 0 {
            match self.probe_wdl(mid) {
                Err(e) => Err(e),
                Ok(w) => Ok(dtz_before_zeroing(w.negate())),
            }
        } else if (rule50 && mid.is_draw(1)) || mid.is_repetition(1) {
            Ok(0)
        } else {
            match self.probe_dtz(mid) {
                Err(e) => Err(e),
                Ok(d) => Ok(-d + sign_of(-d)),
            }
        };
        match probed {
            Ok(d) => {
                if d == 2 && is_mated(mid) {
                    Ok(1)
                } else {
                    Ok(d)
                }
            },
            Err(e) => Err(e),
        }
    }

    /// Rank every legal move by its distance. Nothing when some move cannot be probed: a
    /// partial ranking is worse than none.
    pub fn root_probe(&self, pos: &Position, rule50: bool, rank_dtz: bool) -> (r: Option<
        Vec<RankedRootMove>,
    >)
        requires
            self.wf(),
            searchable(pos, 3),
            i32::MIN + 0x2_0000 <= pos.top().rule50 <= i32::MAX - 0x6_0000,
        ensures
            r is Some ==> {
                &&& (r->0)@.len() == pos.node().legal_moves().len()
                &&& forall|i: int|
                    0 <= i < (r->0)@.len() ==> self.ranked(
                        pos,
                        pos.node().legal_moves()[i],
                        rule50,
                        rank_dtz,
                        #[trigger] (r->0)@[i],
                    )
            },
            r is None ==> exists|m: Move|
                pos.node().legal_moves().contains(m) && #[trigger] self.unranked(pos, m, rule50),
    {
        let clock = pos.rule50_count();
        let rep = pos.repeated_since_reset();
        let moves = generate_legal(pos);
        let total = moves.len();
        let mut out: Vec<RankedRootMove> = Vec::new();
        let mut i: usize = 0;
        while i < total
            invariant
                self.wf(),
                searchable(pos, 3),
                i <= total,
                total == moves@.len(),
                moves@ == pos.node().legal_moves(),
                i32::MIN + 0x2_0000 <= clock <= i32::MAX - 0x6_0000,
                clock == pos.top().rule50,
                rep == crate::board::legal_moves::repeated_from(pos.states@, pos.states@.len() - 1),
                out@.len() == i,
                forall|k: int|
                    0 <= k < i ==> self.ranked(
                        pos,
                        moves@[k],
                        rule50,
                        rank_dtz,
                        #[trigger] out@[k],
                    ),
            decreases total - i,
        {
            let m = moves.list[i];
            assert(moves@.contains(m));
            let work = self.step(pos, m, Ghost(3));
            assert(pos.made(
                &work,
                m,
                legality::checks_king(pos.board@, pos.side_to_move, m),
            ));
            match self.probe_root(&work, rule50) {
                Err(_) => {
                    assert(self.unranked(pos, m, rule50));
                    return None;
                },
                Ok(dtz) => {
                    let rank = rank_of(dtz, clock, rep, rank_dtz);
                    let score = score_of(rank, rule50);
                    let row = RankedRootMove { mv: m, rank, score };
                    assert(self.ranked(pos, m, rule50, rank_dtz, row));
                    out.push(row);
                },
            }
            i += 1;
        }
        Some(out)
    }

    /// A copy of the position with the legal move `m` made.
    fn step(&self, pos: &Position, m: Move, Ghost(extra): Ghost<int>) -> (r: Position)
        requires
            extra > 0,
            searchable(pos, extra),
            pos.node().legal_moves().contains(m),
        ensures
            pos.made(&r, m, legality::checks_king(pos.board@, pos.side_to_move, m)),
            searchable(&r, extra - 1),
    {
        let mut work = pos.clone();
        let ghost here = work;
        proof {
            perft::law_play_stays_regular(pos.node(), m);
            assert(work.node() == pos.node());
            lemma_crowd(pos.board@, 64);
        }
        work.do_move(m);
        proof {
            lemma_searchable(here, work, m, extra);
        }
        work
    }

    /// The verdict of the move that led to `mid`, for the side that made it. A position that is
    /// drawn by the rules is drawn whatever the table says.
    pub open spec fn root_verdict(&self, mid: &Position) -> Result<Wdl, ProbeState> {
        if drawn(mid, 1) {
            Ok(Wdl::Draw)
        } else {
            match self.verdict(mid.node(), false) {
                Err(e) => Err(e),
                Ok(found) => Ok(found.0.opposite()),
            }
        }
    }

    /// A root move has the rank and the score of its verdict.
    pub open spec fn ranked_wdl(&self, pos: &Position, m: Move, rule50: bool, out: RankedRootMove) -> bool {
        exists|mid: Position|
            {
                &&& #[trigger] pos.made(
                    &mid,
                    m,
                    legality::checks_king(pos.board@, pos.side_to_move, m),
                )
                &&& self.root_verdict(&mid) is Ok
                &&& out.mv == m
                &&& out.rank == verdict_rank(self.root_verdict(&mid)->Ok_0)
                &&& out.score.0 == verdict_score(self.root_verdict(&mid)->Ok_0, rule50)
            }
    }

    /// A root move has no verdict.
    pub open spec fn unranked_wdl(&self, pos: &Position, m: Move) -> bool {
        exists|mid: Position|
            {
                &&& #[trigger] pos.made(
                    &mid,
                    m,
                    legality::checks_king(pos.board@, pos.side_to_move, m),
                )
                &&& self.root_verdict(&mid) is Err
            }
    }

    /// Rank every legal move by its verdict, where the distances are missing.
    pub fn root_probe_wdl(&self, pos: &Position, rule50: bool) -> (r: Option<Vec<RankedRootMove>>)
        requires
            self.wf(),
            searchable(pos, 1),
        ensures
            r is Some ==> {
                &&& (r->0)@.len() == pos.node().legal_moves().len()
                &&& forall|i: int|
                    0 <= i < (r->0)@.len() ==> self.ranked_wdl(
                        pos,
                        pos.node().legal_moves()[i],
                        rule50,
                        #[trigger] (r->0)@[i],
                    )
            },
            r is None ==> exists|m: Move|
                pos.node().legal_moves().contains(m) && #[trigger] self.unranked_wdl(pos, m),
    {
        let moves = generate_legal(pos);
        let total = moves.len();
        let mut out: Vec<RankedRootMove> = Vec::new();
        let mut i: usize = 0;
        while i < total
            invariant
                self.wf(),
                searchable(pos, 1),
                i <= total,
                total == moves@.len(),
                moves@ == pos.node().legal_moves(),
                out@.len() == i,
                forall|k: int|
                    0 <= k < i ==> self.ranked_wdl(pos, moves@[k], rule50, #[trigger] out@[k]),
            decreases total - i,
        {
            let m = moves.list[i];
            assert(moves@.contains(m));
            let work = self.step(pos, m, Ghost(1));
            assert(pos.made(
                &work,
                m,
                legality::checks_king(pos.board@, pos.side_to_move, m),
            ));
            let probed = if work.is_draw(1) {
                Ok(Wdl::Draw)
            } else {
                match self.probe_wdl(&work) {
                    Err(e) => Err(e),
                    Ok(w) => Ok(w.negate()),
                }
            };
            match probed {
                Err(_) => {
                    assert(self.unranked_wdl(pos, m));
                    return None;
                },
                Ok(w) => {
                    let row = RankedRootMove {
                        mv: m,
                        rank: rank_of_verdict(w),
                        score: score_of_verdict(w, rule50),
                    };
                    assert(self.ranked_wdl(pos, m, rule50, row));
                    out.push(row);
                },
            }
            i += 1;
        }
        Some(out)
    }
}

/// The rank of a verdict.
pub open spec fn verdict_rank(w: Wdl) -> int {
    match w {
        Wdl::Loss => -MAX_DTZ as int,
        Wdl::BlessedLoss => -MAX_DTZ + 101,
        Wdl::Draw => 0,
        Wdl::CursedWin => MAX_DTZ - 101,
        Wdl::Win => MAX_DTZ as int,
    }
}

/// The score of a verdict. Without the fifty-move rule what it makes draws are a loss and a
/// win.
pub open spec fn verdict_score(w: Wdl, rule50: bool) -> int {
    let win = VALUE_MATE - MAX_PLY - 1;
    match w {
        Wdl::Loss => -win,
        Wdl::BlessedLoss => if rule50 {
            VALUE_DRAW - 2
        } else {
            -win
        },
        Wdl::Draw => VALUE_DRAW as int,
        Wdl::CursedWin => if rule50 {
            VALUE_DRAW + 2
        } else {
            win
        },
        Wdl::Win => win,
    }
}

/// The rank of a verdict.
pub fn rank_of_verdict(w: Wdl) -> (r: i32)
    ensures
        r == verdict_rank(w),
{
    match w {
        Wdl::Loss => -MAX_DTZ,
        Wdl::BlessedLoss => -MAX_DTZ + 101,
        Wdl::Draw => 0,
        Wdl::CursedWin => MAX_DTZ - 101,
        Wdl::Win => MAX_DTZ,
    }
}

/// The score of a verdict.
pub fn score_of_verdict(w: Wdl, rule50: bool) -> (r: Value)
    ensures
        r.0 == verdict_score(w, rule50),
{
    let win: i32 = VALUE_MATE - MAX_PLY as i32 - 1;
    match w {
        Wdl::Loss => Value(-win),
        Wdl::BlessedLoss => Value(
            if rule50 {
                VALUE_DRAW - 2
            } else {
                -win
            },
        ),
        Wdl::Draw => Value(VALUE_DRAW),
        Wdl::CursedWin => Value(
            if rule50 {
                VALUE_DRAW + 2
            } else {
                win
            },
        ),
        Wdl::Win => Value(win),
    }
}

/// A distance and its verdict agree: the sign of a root rank is that of the distance, as long
/// as the clock and the distance leave a ply of the scale.
pub proof fn law_ranks_follow_the_distance(dtz: int, clock: int, rep: bool, rank_dtz: bool)
    requires
        0 <= clock,
        dtz + clock < MAX_DTZ / 2,
        -dtz + clock < MAX_DTZ / 2,
    ensures
        dtz > 0 ==> root_rank(dtz, clock, rep, rank_dtz) > 0,
        dtz < 0 ==> root_rank(dtz, clock, rep, rank_dtz) < 0,
        dtz == 0 ==> root_rank(dtz, clock, rep, rank_dtz) == 0,
{
}

/// A distance before a clock-resetting move has the sign of its verdict.
pub proof fn law_zeroing_distance_has_the_verdicts_sign(w: Wdl)
    ensures
        sign(zeroing_distance(w)) == sign(w.num()),
        zeroing_distance(w.opposite()) == -zeroing_distance(w),
{
}

} // verus!
