//! The accumulator: the first layer's output for each side, kept up to date as a line is played.
//!
//! A side's accumulator is the sum of the rows of its active features. It is reached in one of
//! two ways: by rolling the parent's forward with the changes that the move recorded, or by a
//! refresh from the last position that was seen with the king on the same square. Both give
//! the sum that starting over would give.

use vstd::prelude::*;
use vstd::array::array_fill_for_copy_types;
use crate::board::bitboard::Bitboard;
use crate::board::placement;
use crate::board::position::Position;
use crate::board::threats::{DirtyPawnPairs, DirtyThreat};
use crate::board::types::{div_trunc, Color, Key, Piece, Square};
use crate::board::types;
use crate::eval::nnue::common::{L1, PSQT_BUCKETS};
use crate::eval::nnue::features::{halfka_delta, HALFKA_DIMENSIONS, THREAT_AND_PP_DIMENSIONS};
use crate::eval::nnue::features;
use crate::eval::nnue::layers;
use crate::eval::nnue::pawn_pairs::{pawn_pair_active, pawn_pair_delta};
use crate::eval::nnue::pawn_pairs;
use crate::eval::nnue::threat_features::{threat_active, threat_delta};
use crate::eval::nnue::threat_features;
use crate::eval::nnue::weights::FeatureTransformer;
use crate::eval::nnue::weights;

verus! {

/// One slot for each ply of a line.
pub const PLY_SLOTS: usize = 256;

/// The furthest back that a roll-forward looks for a base.
pub const HOP_CAP: usize = 12;

/// The key that no computed slot carries.
pub const EMPTY_KEY: u64 = 0xffff_ffff_ffff_ffff;

// ---------------------------------------------------------------------------
// What an accumulator is
// ---------------------------------------------------------------------------

/// The threat and pawn-pair features of a placement.
pub open spec fn tp_set(b: Seq<Piece>, p: Color, ksq: int) -> Seq<u32> {
    threat_features::threats_upto(b, p, ksq, 64) + pawn_pairs::pairs_of(
        pawn_pairs::pawns(b, Color::White),
        pawn_pairs::pawns(b, Color::Black),
        p,
        ksq,
    )
}

/// The king-piece features of a placement.
pub open spec fn ka_set(b: Seq<Piece>, p: Color, ksq: int) -> Seq<u32> {
    features::halfka_upto(b, p, ksq, 64)
}

/// The bias and the rows of the features, in column `j`.
pub open spec fn column_sum(
    ft: &FeatureTransformer,
    ka: Seq<u32>,
    tp: Seq<u32>,
    j: int,
) -> int {
    ft.biases@[j] + features::total(ka, ft.ka_column(j)) + features::total(tp, ft.tp_column(j))
}

/// The rows of the features in column `j` of the piece-square head.
pub open spec fn head_sum(ft: &FeatureTransformer, ka: Seq<u32>, tp: Seq<u32>, j: int) -> int {
    features::total(ka, ft.ka_head(j)) + features::total(tp, ft.tp_head(j))
}

/// The accumulated values of one side.
#[derive(Debug)]
pub struct Accumulator {
    pub accumulation: Vec<i16>,
    pub psqt: Vec<i32>,
}

impl Accumulator {
    /// It has its size.
    pub open spec fn sized(&self) -> bool {
        self.accumulation@.len() == L1 && self.psqt@.len() == PSQT_BUCKETS
    }

    /// It is the sum of these features.
    pub open spec fn sums(&self, ft: &FeatureTransformer, ka: Seq<u32>, tp: Seq<u32>) -> bool {
        &&& self.sized()
        &&& forall|j: int|
            0 <= j < L1 ==> #[trigger] self.accumulation@[j] == weights::wrap16(
                column_sum(ft, ka, tp, j),
            )
        &&& forall|j: int|
            0 <= j < PSQT_BUCKETS ==> #[trigger] self.psqt@[j] == layers::wrap32(
                head_sum(ft, ka, tp, j),
            )
    }

    /// It is what `p` accumulates on this placement.
    pub open spec fn exact(&self, ft: &FeatureTransformer, b: Seq<Piece>, p: Color, ksq: int) -> bool {
        self.sums(ft, ka_set(b, p, ksq), tp_set(b, p, ksq))
    }

    /// A copy.
    fn copy(&self) -> (r: Accumulator)
        ensures
            r.accumulation@ == self.accumulation@,
            r.psqt@ == self.psqt@,
    {
        let mut accumulation: Vec<i16> = Vec::new();
        while accumulation.len() < self.accumulation.len()
            invariant
                accumulation@.len() <= self.accumulation@.len(),
                accumulation@ == self.accumulation@.subrange(0, accumulation@.len() as int),
            decreases self.accumulation@.len() - accumulation@.len(),
        {
            let x = self.accumulation[accumulation.len()];
            accumulation.push(x);
            assert(accumulation@ =~= self.accumulation@.subrange(0, accumulation@.len() as int));
        }
        assert(accumulation@ =~= self.accumulation@);
        let mut psqt: Vec<i32> = Vec::new();
        while psqt.len() < self.psqt.len()
            invariant
                psqt@.len() <= self.psqt@.len(),
                psqt@ == self.psqt@.subrange(0, psqt@.len() as int),
            decreases self.psqt@.len() - psqt@.len(),
        {
            let x = self.psqt[psqt.len()];
            psqt.push(x);
            assert(psqt@ =~= self.psqt@.subrange(0, psqt@.len() as int));
        }
        assert(psqt@ =~= self.psqt@);
        Accumulator { accumulation, psqt }
    }

    /// The accumulator of no features: the biases, and an empty head.
    fn of_biases(ft: &FeatureTransformer) -> (r: Accumulator)
        requires
            ft.wf(),
        ensures
            r.sums(ft, Seq::empty(), Seq::empty()),
    {
        let mut r: Accumulator = Accumulator::default();
        let mut j: usize = 0;
        while j < L1
            invariant
                j <= L1,
                ft.wf(),
                r.sized(),
                forall|k: int| 0 <= k < j ==> #[trigger] r.accumulation@[k] == ft.biases@[k],
                forall|k: int| 0 <= k < PSQT_BUCKETS ==> #[trigger] r.psqt@[k] == 0,
            decreases L1 - j,
        {
            r.accumulation.set(j, ft.biases[j]);
            j += 1;
        }
        r
    }
}

impl Default for Accumulator {
    /// All zeros.
    fn default() -> (r: Accumulator)
        ensures
            r.sized(),
            forall|j: int| 0 <= j < L1 ==> #[trigger] r.accumulation@[j] == 0,
            forall|j: int| 0 <= j < PSQT_BUCKETS ==> #[trigger] r.psqt@[j] == 0,
    {
        let mut accumulation: Vec<i16> = Vec::new();
        while accumulation.len() < L1
            invariant
                accumulation@.len() <= L1,
                forall|j: int| 0 <= j < accumulation@.len() ==> #[trigger] accumulation@[j] == 0,
            decreases L1 - accumulation@.len(),
        {
            accumulation.push(0);
        }
        let mut psqt: Vec<i32> = Vec::new();
        while psqt.len() < PSQT_BUCKETS
            invariant
                psqt@.len() <= PSQT_BUCKETS,
                forall|j: int| 0 <= j < psqt@.len() ==> #[trigger] psqt@[j] == 0,
            decreases PSQT_BUCKETS - psqt@.len(),
        {
            psqt.push(0);
        }
        Accumulator { accumulation, psqt }
    }
}

/// An accumulator and the placement it was computed for.
#[derive(Debug)]
pub struct Side {
    /// The king square it was computed against, or nothing.
    pub king: Option<Square>,
    pub acc: Accumulator,
    pub board: [Piece; 64],
    pub computed_for: Key,
}

impl Side {
    /// Where a king square is set, the accumulator belongs to the placement.
    pub open spec fn exact(&self, ft: &FeatureTransformer, p: Color) -> bool {
        self.king matches Some(k) ==> {
            &&& k.idx() == placement::king(self.board@, p)
            &&& self.acc.exact(ft, self.board@, p, k.idx())
        }
    }

    /// Nothing computed.
    fn empty() -> (r: Side)
        ensures
            r.acc.sized(),
            r.king is None,
    {
        Side {
            king: None,
            acc: Accumulator::default(),
            board: array_fill_for_copy_types::<Piece, 64>(Piece::NONE),
            computed_for: EMPTY_KEY,
        }
    }
}

/// The last position seen with the king on one square, and its threat features.
#[derive(Debug)]
pub struct CacheSlot {
    pub side: Side,
    pub threats: Vec<u32>,
}

impl CacheSlot {
    pub open spec fn exact(&self, ft: &FeatureTransformer, p: Color) -> bool {
        &&& self.side.exact(ft, p)
        &&& self.side.king matches Some(k) ==> self.threats@ == tp_set(self.side.board@, p, k.idx())
    }

    pub open spec fn sized(&self) -> bool {
        self.side.acc.sized() && weights::below(self.threats@, THREAT_AND_PP_DIMENSIONS as int)
    }
}

/// What one ply of a line recorded on arrival.
#[derive(Debug)]
pub struct PlySlot {
    pub reached: Key,
    pub dts: Vec<DirtyThreat>,
    pub dpp: DirtyPawnPairs,
    pub recorded: bool,
    pub board: [Piece; 64],
    pub king: [Square; 2],
}

impl PlySlot {
    /// The kings stand where the slot says.
    pub open spec fn placed(&self) -> bool {
        forall|c: Color| (#[trigger] self.king@[c.idx()]).idx() == placement::king(self.board@, c)
    }

    fn empty() -> (r: PlySlot)
        ensures
            !r.recorded,
    {
        PlySlot {
            reached: EMPTY_KEY,
            dts: Vec::new(),
            dpp: DirtyPawnPairs::default(),
            recorded: false,
            board: array_fill_for_copy_types::<Piece, 64>(Piece::NONE),
            king: [Square::A1, Square::A1],
        }
    }
}

/// One side's accumulators: one for each ply, and one for each king square.
#[derive(Debug)]
pub struct Lane {
    pub sides: Vec<Side>,
    pub cache: Vec<CacheSlot>,
}

impl Lane {
    pub open spec fn sized(&self) -> bool {
        &&& self.sides@.len() == PLY_SLOTS
        &&& self.cache@.len() == 64
        &&& forall|i: int| 0 <= i < PLY_SLOTS ==> (#[trigger] self.sides@[i]).acc.sized()
        &&& forall|i: int| 0 <= i < 64 ==> (#[trigger] self.cache@[i]).sized()
    }

    /// Every accumulator belongs to its placement, and every cached one to its king square.
    pub open spec fn exact(&self, ft: &FeatureTransformer, p: Color) -> bool {
        &&& forall|i: int| 0 <= i < PLY_SLOTS ==> (#[trigger] self.sides@[i]).exact(ft, p)
        &&& forall|i: int|
            0 <= i < 64 ==> (#[trigger] self.cache@[i]).exact(ft, p) && (
            self.cache@[i].side.king matches Some(k) ==> k.idx() == i)
    }

    fn new() -> (r: Lane)
        ensures
            r.sized(),
            forall|i: int| 0 <= i < PLY_SLOTS ==> (#[trigger] r.sides@[i]).king is None,
            forall|i: int| 0 <= i < 64 ==> (#[trigger] r.cache@[i]).side.king is None,
    {
        let mut sides: Vec<Side> = Vec::new();
        while sides.len() < PLY_SLOTS
            invariant
                sides@.len() <= PLY_SLOTS,
                forall|i: int|
                    0 <= i < sides@.len() ==> (#[trigger] sides@[i]).acc.sized()
                        && sides@[i].king is None,
            decreases PLY_SLOTS - sides@.len(),
        {
            sides.push(Side::empty());
        }
        let mut cache: Vec<CacheSlot> = Vec::new();
        while cache.len() < 64
            invariant
                cache@.len() <= 64,
                forall|i: int|
                    0 <= i < cache@.len() ==> (#[trigger] cache@[i]).sized()
                        && cache@[i].side.king is None,
            decreases 64 - cache@.len(),
        {
            cache.push(CacheSlot { side: Side::empty(), threats: Vec::new() });
        }
        Lane { sides, cache }
    }
}

/// Everything an evaluation keeps between calls.
#[derive(Debug)]
pub struct EvalScratch {
    pub key: Key,
    pub plies: Vec<PlySlot>,
    pub white: Lane,
    pub black: Lane,
    /// One counter for each threat and pawn pair, zero between calls.
    pub mark: Vec<u64>,
    pub transformed: Vec<u8>,
}

/// What a move recorded is the difference that it made, whatever weight the features have.
pub open spec fn faithful(
    b0: Seq<Piece>,
    b1: Seq<Piece>,
    dts: Seq<DirtyThreat>,
    dpp: DirtyPawnPairs,
) -> bool {
    forall|p: Color, ksq: int, f: spec_fn(int) -> int|
        0 <= ksq < 64 ==> #[trigger] features::total(tp_set(b1, p, ksq), f) == features::total(
            tp_set(b0, p, ksq),
            f,
        ) + features::total(
            threat_features::changes_upto(dts, p, ksq, true, dts.len() as int),
            f,
        ) - features::total(
            threat_features::changes_upto(dts, p, ksq, false, dts.len() as int),
            f,
        ) + features::total(
            pawn_pairs::pairs_upto(dpp.after@[0].0, dpp.after@[1].0, dpp.touched(), p, ksq, 64),
            f,
        ) - features::total(
            pawn_pairs::pairs_upto(dpp.before@[0].0, dpp.before@[1].0, dpp.touched(), p, ksq, 64),
            f,
        )
}

impl EvalScratch {
    /// One side's accumulators.
    pub open spec fn lane(&self, p: Color) -> Lane {
        match p {
            Color::White => self.white,
            Color::Black => self.black,
        }
    }

    pub open spec fn wf(&self) -> bool {
        &&& self.plies@.len() == PLY_SLOTS
        &&& self.white.sized()
        &&& self.black.sized()
        &&& self.mark@.len() == THREAT_AND_PP_DIMENSIONS
        &&& forall|i: int| 0 <= i < self.mark@.len() ==> #[trigger] self.mark@[i] == 0
        &&& self.transformed@.len() == L1
    }

    /// Every accumulator that is kept is one of this transformer's.
    pub open spec fn fits(&self, ft: &FeatureTransformer) -> bool {
        self.white.exact(ft, Color::White) && self.black.exact(ft, Color::Black)
    }

    /// The placement that a ply holds while `b` is being evaluated at `ply`: the root has no
    /// move that recorded it, and is taken from the position itself.
    pub open spec fn board_at(&self, b: Seq<Piece>, ply: int, h: int) -> Seq<Piece> {
        if h == ply && ply == 0 {
            b
        } else {
            self.plies@[h].board@
        }
    }

    /// The key that a ply was reached with.
    pub open spec fn reached_at(&self, key: Key, ply: int, h: int) -> Key {
        if h == ply && ply == 0 {
            key
        } else {
            self.plies@[h].reached
        }
    }

    /// The line up to `ply` leads to `b`: every hop's record is the difference that its move
    /// made, and an accumulator whose key is that of its ply was computed for that ply.
    pub open spec fn on_line(&self, b: Seq<Piece>, key: Key, ply: int) -> bool {
        &&& self.board_at(b, ply, ply) == b
        &&& forall|h: int| 0 <= h <= ply && (h < ply || ply > 0) ==> (#[trigger] self.plies@[h]).placed()
        &&& forall|h: int|
            1 <= h <= ply && (#[trigger] self.plies@[h]).recorded ==> faithful(
                self.board_at(b, ply, h - 1),
                self.board_at(b, ply, h),
                self.plies@[h].dts@,
                self.plies@[h].dpp,
            )
        &&& forall|p: Color, h: int|
            0 <= h <= ply && #[trigger] self.lane(p).sides@[h].king is Some
                && self.lane(p).sides@[h].computed_for == self.reached_at(key, ply, h) ==> self.lane(
                p,
            ).sides@[h].board@ == self.board_at(b, ply, h)
        &&& forall|p: Color|
            (#[trigger] self.lane(p)).sides@[ply].king is Some && self.lane(p).sides@[ply].computed_for
                == key ==> self.lane(p).sides@[ply].board@ == b
    }

    /// At the root, the scratch serves every position with another key as a fresh one does.
    pub open spec fn open_to_others(&self, key: Key) -> bool {
        forall|b: Seq<Piece>, k: Key| k != key ==> #[trigger] self.on_line(b, k, 0)
    }

    /// At the root, both sides' accumulators were computed for one position, or neither was.
    pub open spec fn paired(&self) -> bool {
        let w = self.white.sides@[0];
        let b = self.black.sides@[0];
        &&& (w.king is Some) == (b.king is Some)
        &&& w.king is Some ==> w.computed_for == b.computed_for && w.board@ == b.board@
    }

    /// At the root, the accumulators were computed for a position with this key.
    pub open spec fn knows(&self, key: Key) -> bool {
        self.white.sides@[0].king is Some && self.white.sides@[0].computed_for == key
    }

    /// The transformed features of the last evaluation.
    pub fn transformed(&self) -> (r: &[u8])
        ensures
            r@ == self.transformed@,
    {
        self.transformed.as_slice()
    }
}

impl Default for EvalScratch {
    /// A scratch that has seen nothing.
    fn default() -> (r: EvalScratch)
        ensures
            r.wf(),
            forall|ft: &FeatureTransformer| #[trigger] r.fits(ft),
            forall|b: Seq<Piece>, key: Key| #[trigger] r.on_line(b, key, 0),
            r.paired(),
            forall|key: Key| !#[trigger] r.knows(key),
    {
        let mut plies: Vec<PlySlot> = Vec::new();
        while plies.len() < PLY_SLOTS
            invariant
                plies@.len() <= PLY_SLOTS,
            decreases PLY_SLOTS - plies@.len(),
        {
            plies.push(PlySlot::empty());
        }
        let mut mark: Vec<u64> = Vec::new();
        while mark.len() < THREAT_AND_PP_DIMENSIONS
            invariant
                mark@.len() <= THREAT_AND_PP_DIMENSIONS,
                forall|i: int| 0 <= i < mark@.len() ==> #[trigger] mark@[i] == 0,
            decreases THREAT_AND_PP_DIMENSIONS - mark@.len(),
        {
            mark.push(0);
        }
        let mut transformed: Vec<u8> = Vec::new();
        while transformed.len() < L1
            invariant
                transformed@.len() <= L1,
            decreases L1 - transformed@.len(),
        {
            transformed.push(0);
        }
        EvalScratch {
            key: EMPTY_KEY,
            plies,
            white: Lane::new(),
            black: Lane::new(),
            mark,
            transformed,
        }
    }
}

impl Lane {
    /// Forget the plies and keep the cache.
    fn forget_plies(&mut self)
        requires
            old(self).sized(),
        ensures
            final(self).sized(),
            final(self).cache == old(self).cache,
            forall|i: int| 0 <= i < PLY_SLOTS ==> (#[trigger] final(self).sides@[i]).king is None,
    {
        let mut i: usize = 0;
        while i < PLY_SLOTS
            invariant
                i <= PLY_SLOTS,
                self.sized(),
                self.cache == old(self).cache,
                forall|k: int| 0 <= k < i ==> (#[trigger] self.sides@[k]).king is None,
            decreases PLY_SLOTS - i,
        {
            self.sides.set(i, Side::empty());
            i += 1;
        }
    }
}

impl EvalScratch {
    /// Forget every ply.
    fn invalidate_plies(&mut self)
        requires
            old(self).wf(),
        ensures
            final(self).wf(),
            final(self).white.cache == old(self).white.cache,
            final(self).black.cache == old(self).black.cache,
            final(self).transformed == old(self).transformed,
            forall|i: int|
                0 <= i < PLY_SLOTS ==> (#[trigger] final(self).white.sides@[i]).king is None,
            forall|i: int|
                0 <= i < PLY_SLOTS ==> (#[trigger] final(self).black.sides@[i]).king is None,
            forall|i: int| 0 <= i < PLY_SLOTS ==> !(#[trigger] final(self).plies@[i]).recorded,
    {
        self.white.forget_plies();
        self.black.forget_plies();
        let mut i: usize = 0;
        while i < PLY_SLOTS
            invariant
                i <= PLY_SLOTS,
                self.wf(),
                self.white.cache == old(self).white.cache,
                self.black.cache == old(self).black.cache,
                self.transformed == old(self).transformed,
                forall|k: int|
                    0 <= k < PLY_SLOTS ==> (#[trigger] self.white.sides@[k]).king is None,
                forall|k: int|
                    0 <= k < PLY_SLOTS ==> (#[trigger] self.black.sides@[k]).king is None,
                forall|k: int| 0 <= k < i ==> !(#[trigger] self.plies@[k]).recorded,
            decreases PLY_SLOTS - i,
        {
            self.plies.set(i, PlySlot::empty());
            i += 1;
        }
    }

    /// Forget everything, as for a new game or a new network.
    pub fn reset(&mut self)
        requires
            old(self).wf(),
        ensures
            final(self).wf(),
            final(self).key == EMPTY_KEY,
            forall|ft: &FeatureTransformer| #[trigger] final(self).fits(ft),
            forall|b: Seq<Piece>, key: Key| #[trigger] final(self).on_line(b, key, 0),
            forall|i: int| 0 <= i < PLY_SLOTS ==> !(#[trigger] final(self).plies@[i]).recorded,
    {
        self.invalidate_plies();
        self.white = Lane::new();
        self.black = Lane::new();
        self.key = EMPTY_KEY;
    }

    /// Forget the plies of the last search and keep the refresh cache, which is a function of
    /// the positions alone.
    pub fn new_search(&mut self)
        requires
            old(self).wf(),
        ensures
            final(self).wf(),
            final(self).key == EMPTY_KEY,
            final(self).white.cache == old(self).white.cache,
            final(self).black.cache == old(self).black.cache,
            forall|ft: &FeatureTransformer| old(self).fits(ft) ==> #[trigger] final(self).fits(ft),
            forall|b: Seq<Piece>, key: Key| #[trigger] final(self).on_line(b, key, 0),
            forall|i: int| 0 <= i < PLY_SLOTS ==> !(#[trigger] final(self).plies@[i]).recorded,
    {
        self.invalidate_plies();
        self.key = EMPTY_KEY;
    }

    /// The list that the move to `ply` fills with its changes, emptied.
    pub fn record_threats(&mut self, ply: usize) -> (r: &mut Vec<DirtyThreat>)
        requires
            old(self).wf(),
            ply < PLY_SLOTS,
        ensures
            r@ == Seq::<DirtyThreat>::empty(),
            final(self).wf(),
            final(self).key == old(self).key,
            final(self).white == old(self).white,
            final(self).black == old(self).black,
            final(self).transformed == old(self).transformed,
            final(self).plies@ == old(self).plies@.update(
                ply as int,
                (PlySlot { dts: *final(r), ..old(self).plies@[ply as int] }),
            ),
    {
        let slot = &mut self.plies[ply];
        slot.dts.clear();
        &mut slot.dts
    }

    /// Record how `ply` was reached: the position there, its key, and what became of the pawns.
    pub fn record(&mut self, ply: usize, pos: &Position, key: Key, dpp: DirtyPawnPairs)
        requires
            old(self).wf(),
            ply < PLY_SLOTS,
            pos.wf(),
        ensures
            final(self).wf(),
            final(self).key == old(self).key,
            final(self).white == old(self).white,
            final(self).black == old(self).black,
            final(self).transformed == old(self).transformed,
            final(self).plies@.len() == old(self).plies@.len(),
            forall|i: int|
                0 <= i < PLY_SLOTS && i != ply ==> #[trigger] final(self).plies@[i] == old(
                    self,
                ).plies@[i],
            ({
                let slot = final(self).plies@[ply as int];
                &&& slot.reached == key
                &&& slot.dts == old(self).plies@[ply as int].dts
                &&& slot.dpp == dpp
                &&& slot.recorded
                &&& slot.board@ == pos.board@
                &&& slot.placed()
            }),
    {
        let slot = &mut self.plies[ply];
        slot.reached = key;
        slot.dpp = dpp;
        slot.recorded = true;
        slot.board = pos.board.squares;
        slot.king = [pos.king_square(Color::White), pos.king_square(Color::Black)];
    }

    /// Record a null move: nothing changed but the side to move.
    pub fn record_null(&mut self, ply: usize, pos: &Position, key: Key)
        requires
            old(self).wf(),
            ply < PLY_SLOTS,
            pos.wf(),
        ensures
            final(self).wf(),
            final(self).key == old(self).key,
            final(self).white == old(self).white,
            final(self).black == old(self).black,
            final(self).transformed == old(self).transformed,
            final(self).plies@.len() == old(self).plies@.len(),
            forall|i: int|
                0 <= i < PLY_SLOTS && i != ply ==> #[trigger] final(self).plies@[i] == old(
                    self,
                ).plies@[i],
            ({
                let slot = final(self).plies@[ply as int];
                &&& slot.reached == key
                &&& slot.dts@ == Seq::<DirtyThreat>::empty()
                &&& slot.dpp.before@ == seq![Bitboard(0), Bitboard(0)]
                &&& slot.dpp.after@ == seq![Bitboard(0), Bitboard(0)]
                &&& slot.recorded
                &&& slot.board@ == pos.board@
                &&& slot.placed()
            }),
    {
        let slot = &mut self.plies[ply];
        slot.reached = key;
        slot.dts.clear();
        slot.dpp = DirtyPawnPairs::default();
        slot.recorded = true;
        slot.board = pos.board.squares;
        slot.king = [pos.king_square(Color::White), pos.king_square(Color::Black)];
    }
}

// ---------------------------------------------------------------------------
// Ranges
// ---------------------------------------------------------------------------

proof fn lemma_ka_below(was: Seq<Piece>, now: Seq<Piece>, p: Color, ksq: int, n: int)
    requires
        0 <= ksq < 64,
        n <= 64,
    ensures
        weights::below(features::halfka_new(was, now, p, ksq, n), HALFKA_DIMENSIONS as int),
    decreases n,
{
    if n > 0 {
        lemma_ka_below(was, now, p, ksq, n - 1);
        features::law_halfka_in_range(p, n - 1, now[n - 1], ksq);
    }
}

proof fn lemma_changes_below(dts: Seq<DirtyThreat>, p: Color, ksq: int, add: bool, n: int)
    ensures
        weights::below(
            threat_features::changes_upto(dts, p, ksq, add, n),
            THREAT_AND_PP_DIMENSIONS as int,
        ),
    decreases n,
{
    if n > 0 {
        lemma_changes_below(dts, p, ksq, add, n - 1);
        let d = dts[n - 1];
        threat_features::lemma_threat_of(p, d.aggressor(), d.src(), d.dst(), d.victim(), ksq);
    }
}

proof fn lemma_threats_from_below(b: Seq<Piece>, p: Color, ksq: int, x: int, n: int)
    ensures
        weights::below(
            threat_features::threats_from(b, p, ksq, x, n),
            THREAT_AND_PP_DIMENSIONS as int,
        ),
    decreases n,
{
    if n > 0 {
        lemma_threats_from_below(b, p, ksq, x, n - 1);
        threat_features::lemma_threat_of(p, b[x], x, n - 1, b[n - 1], ksq);
    }
}

pub proof fn lemma_threats_below(b: Seq<Piece>, p: Color, ksq: int, m: int)
    ensures
        weights::below(
            threat_features::threats_upto(b, p, ksq, m),
            THREAT_AND_PP_DIMENSIONS as int,
        ),
    decreases m,
{
    if m > 0 {
        lemma_threats_below(b, p, ksq, m - 1);
        lemma_threats_from_below(b, p, ksq, m - 1, 64);
    }
}

proof fn lemma_pairs_from_below(
    white: u64,
    black: u64,
    changed: u64,
    p: Color,
    ksq: int,
    x: int,
    n: int,
)
    ensures
        weights::below(
            pawn_pairs::pairs_from(white, black, changed, p, ksq, x, n),
            THREAT_AND_PP_DIMENSIONS as int,
        ),
    decreases n,
{
    if n > 0 {
        lemma_pairs_from_below(white, black, changed, p, ksq, x, n - 1);
        if pawn_pairs::paired_in(white, black, changed, x, n - 1) {
            pawn_pairs::law_pairs_in_range(
                p,
                pawn_pairs::pawn_color(black, x),
                x,
                n - 1,
                pawn_pairs::pawn_color(black, n - 1),
                ksq,
            );
        }
    }
}

pub proof fn lemma_pairs_below(white: u64, black: u64, changed: u64, p: Color, ksq: int, m: int)
    ensures
        weights::below(
            pawn_pairs::pairs_upto(white, black, changed, p, ksq, m),
            THREAT_AND_PP_DIMENSIONS as int,
        ),
    decreases m,
{
    if m > 0 {
        lemma_pairs_below(white, black, changed, p, ksq, m - 1);
        lemma_pairs_from_below(white, black, changed, p, ksq, m - 1, 64);
    }
}

pub proof fn lemma_below_add(a: Seq<u32>, b: Seq<u32>, n: int)
    requires
        weights::below(a, n),
        weights::below(b, n),
    ensures
        weights::below(a + b, n),
{
    assert forall|i: int| 0 <= i < (a + b).len() implies #[trigger] (a + b)[i] < n by {
        if i < a.len() {
            assert((a + b)[i] == a[i]);
        } else {
            assert((a + b)[i] == b[i - a.len()]);
        }
    }
}

// ---------------------------------------------------------------------------
// The difference of two sets
// ---------------------------------------------------------------------------

/// The sum of a weight over counters: each index as often as its counter says.
spec fn counted(mark: Seq<u64>, f: spec_fn(int) -> int, n: int) -> int
    decreases n,
{
    if n <= 0 {
        0
    } else {
        counted(mark, f, n - 1) + mark[n - 1] * f(n - 1)
    }
}

/// How often `x` occurs in the list from `i` on.
spec fn occurrences(s: Seq<u32>, x: int, i: int) -> int
    decreases s.len() - i,
{
    if i >= s.len() {
        0
    } else {
        occurrences(s, x, i + 1) + (if s[i] == x {
            1int
        } else {
            0int
        })
    }
}

proof fn lemma_counted_update(mark: Seq<u64>, f: spec_fn(int) -> int, n: int, x: int, v: u64)
    requires
        0 <= x < mark.len(),
        n <= mark.len(),
    ensures
        counted(mark.update(x, v), f, n) == counted(mark, f, n) + (if x < n {
            (v - mark[x]) * f(x)
        } else {
            0
        }),
    decreases n,
{
    if n > 0 {
        lemma_counted_update(mark, f, n - 1, x, v);
        if x == n - 1 {
            let y = f(x);
            assert(v * y == mark[x] * y + (v - mark[x]) * y) by (nonlinear_arith);
        }
    }
}

proof fn lemma_counted_zero(mark: Seq<u64>, f: spec_fn(int) -> int, n: int)
    requires
        n <= mark.len(),
        forall|i: int| 0 <= i < mark.len() ==> #[trigger] mark[i] == 0,
    ensures
        counted(mark, f, n) == 0,
    decreases n,
{
    if n > 0 {
        lemma_counted_zero(mark, f, n - 1);
        assert(mark[n - 1] * f(n - 1) == 0) by (nonlinear_arith)
            requires
                mark[n - 1] == 0,
        ;
    }
}

proof fn lemma_occurrences(s: Seq<u32>, x: int, i: int)
    requires
        0 <= i <= s.len(),
    ensures
        0 <= occurrences(s, x, i) <= s.len() - i,
    decreases s.len() - i,
{
    if i < s.len() {
        lemma_occurrences(s, x, i + 1);
    }
}

/// The lists carry the one set into the other, whatever weight the features have.
pub open spec fn carries(was: Seq<u32>, now: Seq<u32>, adds: Seq<u32>, subs: Seq<u32>) -> bool {
    forall|f: spec_fn(int) -> int| #[trigger]
        features::total(now, f) == features::total(was, f) + features::total(adds, f)
            - features::total(subs, f)
}

/// Count every feature of `was`.
fn mark_all(was: &Vec<u32>, mark: &mut Vec<u64>)
    requires
        weights::below(was@, THREAT_AND_PP_DIMENSIONS as int),
        old(mark)@.len() == THREAT_AND_PP_DIMENSIONS,
        forall|i: int| 0 <= i < old(mark)@.len() ==> #[trigger] old(mark)@[i] == 0,
    ensures
        final(mark)@.len() == THREAT_AND_PP_DIMENSIONS,
        forall|x: int|
            0 <= x < THREAT_AND_PP_DIMENSIONS ==> #[trigger] final(mark)@[x] == occurrences(
                was@,
                x,
                0,
            ),
        forall|f: spec_fn(int) -> int| #[trigger]
            counted(final(mark)@, f, THREAT_AND_PP_DIMENSIONS as int) == features::total(was@, f),
{
    let ghost n = THREAT_AND_PP_DIMENSIONS as int;
    let mut i: usize = 0;
    proof {
        assert(was@.subrange(0, 0) =~= Seq::<u32>::empty());
        assert forall|f: spec_fn(int) -> int| #[trigger]
            counted(mark@, f, n) == features::total(was@.subrange(0, 0), f) by {
            lemma_counted_zero(mark@, f, n);
        }
    }
    while i < was.len()
        invariant
            i <= was@.len(),
            n == THREAT_AND_PP_DIMENSIONS,
            weights::below(was@, n),
            mark@.len() == n,
            forall|x: int|
                0 <= x < n ==> #[trigger] mark@[x] == occurrences(was@, x, 0) - occurrences(
                    was@,
                    x,
                    i as int,
                ),
            forall|f: spec_fn(int) -> int| #[trigger]
                counted(mark@, f, n) == features::total(was@.subrange(0, i as int), f),
        decreases was@.len() - i,
    {
        let w: usize = was[i] as usize;
        let ghost before = mark@;
        proof {
            lemma_occurrences(was@, w as int, 0);
            lemma_occurrences(was@, w as int, i as int);
            lemma_occurrences(was@, w as int, i + 1);
        }
        let c: u64 = mark[w];
        mark.set(w, c + 1);
        proof {
            assert forall|f: spec_fn(int) -> int| #[trigger]
                counted(mark@, f, n) == features::total(was@.subrange(0, i + 1), f) by {
                lemma_counted_update(before, f, n, w as int, (c + 1) as u64);
                assert(((c + 1) - c) * f(w as int) == f(w as int)) by (nonlinear_arith);
                assert(was@.subrange(0, i + 1) =~= was@.subrange(0, i as int).push(was@[i as int]));
                features::lemma_total_push(was@.subrange(0, i as int), was@[i as int], f);
                assert(counted(before, f, n) == features::total(was@.subrange(0, i as int), f));
            }
        }
        i += 1;
    }
    assert(was@.subrange(0, i as int) =~= was@);
}

/// The difference of two sets: what only the new one holds, and what only the old one holds.
/// Neither list is ordered.
///
/// The old set is counted, the new set takes back what both hold, and what is left over goes.
/// The last pass returns every counter to zero.
fn collect_diff(
    was: &Vec<u32>,
    now: &Vec<u32>,
    adds: &mut Vec<u32>,
    subs: &mut Vec<u32>,
    mark: &mut Vec<u64>,
)
    requires
        weights::below(was@, THREAT_AND_PP_DIMENSIONS as int),
        weights::below(now@, THREAT_AND_PP_DIMENSIONS as int),
        old(mark)@.len() == THREAT_AND_PP_DIMENSIONS,
        forall|i: int| 0 <= i < old(mark)@.len() ==> #[trigger] old(mark)@[i] == 0,
    ensures
        final(mark)@.len() == THREAT_AND_PP_DIMENSIONS,
        forall|i: int| 0 <= i < final(mark)@.len() ==> #[trigger] final(mark)@[i] == 0,
        weights::below(final(adds)@, THREAT_AND_PP_DIMENSIONS as int),
        weights::below(final(subs)@, THREAT_AND_PP_DIMENSIONS as int),
        carries(was@, now@, final(adds)@, final(subs)@),
{
    adds.clear();
    subs.clear();
    let ghost n = THREAT_AND_PP_DIMENSIONS as int;
    mark_all(was, mark);
    let mut i: usize = 0;
    assert(now@.subrange(0, 0) =~= Seq::<u32>::empty());
    while i < now.len()
        invariant
            i <= now@.len(),
            n == THREAT_AND_PP_DIMENSIONS,
            weights::below(now@, n),
            weights::below(adds@, n),
            mark@.len() == n,
            forall|x: int| 0 <= x < n ==> #[trigger] mark@[x] <= occurrences(was@, x, 0),
            forall|f: spec_fn(int) -> int| #[trigger]
                counted(mark@, f, n) == features::total(was@, f) + features::total(adds@, f)
                    - features::total(now@.subrange(0, i as int), f),
        decreases now@.len() - i,
    {
        let w: usize = now[i] as usize;
        let ghost before = mark@;
        let ghost listed = adds@;
        let c: u64 = mark[w];
        if c == 0 {
            adds.push(now[i]);
        } else {
            mark.set(w, c - 1);
        }
        proof {
            assert forall|f: spec_fn(int) -> int| #[trigger]
                counted(mark@, f, n) == features::total(was@, f) + features::total(adds@, f)
                    - features::total(now@.subrange(0, i + 1), f) by {
                assert(now@.subrange(0, i + 1) =~= now@.subrange(0, i as int).push(now@[i as int]));
                features::lemma_total_push(now@.subrange(0, i as int), now@[i as int], f);
                features::lemma_total_push(listed, now@[i as int], f);
                assert(counted(before, f, n) == features::total(was@, f) + features::total(
                    listed,
                    f,
                ) - features::total(now@.subrange(0, i as int), f));
                if c > 0 {
                    lemma_counted_update(before, f, n, w as int, (c - 1) as u64);
                    assert(((c - 1) - c) * f(w as int) == -f(w as int)) by (nonlinear_arith);
                }
            }
        }
        i += 1;
    }
    assert(now@.subrange(0, i as int) =~= now@);
    let mut k: usize = 0;
    while k < was.len()
        invariant
            k <= was@.len(),
            n == THREAT_AND_PP_DIMENSIONS,
            weights::below(was@, n),
            weights::below(subs@, n),
            mark@.len() == n,
            forall|x: int| 0 <= x < n ==> #[trigger] mark@[x] <= occurrences(was@, x, k as int),
            forall|f: spec_fn(int) -> int| #[trigger]
                counted(mark@, f, n) == features::total(was@, f) + features::total(adds@, f)
                    - features::total(now@, f) - features::total(subs@, f),
        decreases was@.len() - k,
    {
        let w: usize = was[k] as usize;
        let ghost before = mark@;
        let ghost listed = subs@;
        let c: u64 = mark[w];
        if c > 0 {
            subs.push(was[k]);
            mark.set(w, c - 1);
        }
        proof {
            assert forall|x: int| 0 <= x < n implies #[trigger] mark@[x] <= occurrences(
                was@,
                x,
                k + 1,
            ) by {
                lemma_occurrences(was@, x, k + 1);
                assert(before[x] <= occurrences(was@, x, k as int));
            }
            assert forall|f: spec_fn(int) -> int| #[trigger]
                counted(mark@, f, n) == features::total(was@, f) + features::total(adds@, f)
                    - features::total(now@, f) - features::total(subs@, f) by {
                features::lemma_total_push(listed, was@[k as int], f);
                assert(counted(before, f, n) == features::total(was@, f) + features::total(adds@, f)
                    - features::total(now@, f) - features::total(listed, f));
                if c > 0 {
                    lemma_counted_update(before, f, n, w as int, (c - 1) as u64);
                    assert(((c - 1) - c) * f(w as int) == -f(w as int)) by (nonlinear_arith);
                }
            }
        }
        k += 1;
    }
    proof {
        assert forall|x: int| 0 <= x < n implies #[trigger] mark@[x] == 0 by {
            assert(mark@[x] <= occurrences(was@, x, k as int));
        }
        assert forall|f: spec_fn(int) -> int| #[trigger]
            features::total(now@, f) == features::total(was@, f) + features::total(adds@, f)
                - features::total(subs@, f) by {
            lemma_counted_zero(mark@, f, n);
        }
    }
}

// ---------------------------------------------------------------------------
// Rolling forward and refreshing
// ---------------------------------------------------------------------------

/// What is added to sums of features carries them to the sums of other features.
proof fn lemma_carried(
    ft: &FeatureTransformer,
    before: Accumulator,
    after: Accumulator,
    ka0: Seq<u32>,
    ka1: Seq<u32>,
    tp0: Seq<u32>,
    tp1: Seq<u32>,
    ka_adds: Seq<u32>,
    ka_subs: Seq<u32>,
    tp_adds: Seq<u32>,
    tp_subs: Seq<u32>,
)
    requires
        before.sums(ft, ka0, tp0),
        after.sized(),
        carries(ka0, ka1, ka_adds, ka_subs),
        carries(tp0, tp1, tp_adds, tp_subs),
        forall|j: int|
            0 <= j < L1 ==> #[trigger] after.accumulation@[j] == weights::wrap16(
                before.accumulation@[j] + ft.change(j, ka_adds, ka_subs, tp_adds, tp_subs),
            ),
        forall|j: int|
            0 <= j < 8 ==> #[trigger] after.psqt@[j] == layers::wrap32(
                before.psqt@[j] + ft.head_change(j, ka_adds, ka_subs, tp_adds, tp_subs),
            ),
    ensures
        after.sums(ft, ka1, tp1),
{
    assert forall|j: int| 0 <= j < L1 implies #[trigger] after.accumulation@[j] == weights::wrap16(
        column_sum(ft, ka1, tp1, j),
    ) by {
        assert(before.accumulation@[j] == weights::wrap16(column_sum(ft, ka0, tp0, j)));
        let c = ft.change(j, ka_adds, ka_subs, tp_adds, tp_subs);
        weights::lemma_wrap16(column_sum(ft, ka0, tp0, j), c);
        assert(features::total(ka1, ft.ka_column(j)) == features::total(ka0, ft.ka_column(j))
            + features::total(ka_adds, ft.ka_column(j)) - features::total(
            ka_subs,
            ft.ka_column(j),
        ));
        assert(features::total(tp1, ft.tp_column(j)) == features::total(tp0, ft.tp_column(j))
            + features::total(tp_adds, ft.tp_column(j)) - features::total(
            tp_subs,
            ft.tp_column(j),
        ));
    }
    assert forall|j: int| 0 <= j < PSQT_BUCKETS implies #[trigger] after.psqt@[j] == layers::wrap32(
        head_sum(ft, ka1, tp1, j),
    ) by {
        assert(before.psqt@[j] == layers::wrap32(head_sum(ft, ka0, tp0, j)));
        let c = ft.head_change(j, ka_adds, ka_subs, tp_adds, tp_subs);
        layers::lemma_wrap32(head_sum(ft, ka0, tp0, j), c);
        assert(features::total(ka1, ft.ka_head(j)) == features::total(ka0, ft.ka_head(j))
            + features::total(ka_adds, ft.ka_head(j)) - features::total(ka_subs, ft.ka_head(j)));
        assert(features::total(tp1, ft.tp_head(j)) == features::total(tp0, ft.tp_head(j))
            + features::total(tp_adds, ft.tp_head(j)) - features::total(tp_subs, ft.tp_head(j)));
    }
}

proof fn lemma_ka_carries(was: Seq<Piece>, now: Seq<Piece>, p: Color, ksq: int)
    ensures
        carries(
            ka_set(was, p, ksq),
            ka_set(now, p, ksq),
            features::halfka_new(was, now, p, ksq, 64),
            features::halfka_new(now, was, p, ksq, 64),
        ),
{
    assert forall|f: spec_fn(int) -> int| #[trigger]
        features::total(ka_set(now, p, ksq), f) == features::total(ka_set(was, p, ksq), f)
            + features::total(features::halfka_new(was, now, p, ksq, 64), f) - features::total(
            features::halfka_new(now, was, p, ksq, 64),
            f,
        ) by {
        features::law_halfka_delta_is_the_difference(was, now, p, ksq, 64, f);
    }
}

/// The hop from one placement to the next, applied to an accumulator.
fn hop(
    ft: &FeatureTransformer,
    src: &Accumulator,
    from: &[Piece; 64],
    slot: &PlySlot,
    p: Color,
    ksq: Square,
) -> (r: Accumulator)
    requires
        ft.wf(),
        src.sized(),
    ensures
        r.sized(),
        src.exact(ft, from@, p, ksq.idx()) && faithful(from@, slot.board@, slot.dts@, slot.dpp)
            ==> r.exact(ft, slot.board@, p, ksq.idx()),
{
    broadcast use Square::lemma_idx;

    let mut adds: Vec<u32> = Vec::new();
    let mut subs: Vec<u32> = Vec::new();
    let mut tp_adds: Vec<u32> = Vec::new();
    let mut tp_subs: Vec<u32> = Vec::new();
    halfka_delta(from, &slot.board, p, ksq, &mut adds, &mut subs);
    threat_delta(&ft.tables, slot.dts.as_slice(), p, ksq, &mut tp_adds, &mut tp_subs);
    pawn_pair_delta(&slot.dpp, p, ksq, &mut tp_adds, &mut tp_subs);
    let ghost k = ksq.idx();
    let ghost n = slot.dts@.len() as int;
    let ghost ta = threat_features::changes_upto(slot.dts@, p, k, true, n);
    let ghost tr = threat_features::changes_upto(slot.dts@, p, k, false, n);
    let ghost (w0, b0) = (slot.dpp.before@[0].0, slot.dpp.before@[1].0);
    let ghost (w1, b1) = (slot.dpp.after@[0].0, slot.dpp.after@[1].0);
    let ghost pa = pawn_pairs::pairs_upto(w1, b1, slot.dpp.touched(), p, k, 64);
    let ghost pr = pawn_pairs::pairs_upto(w0, b0, slot.dpp.touched(), p, k, 64);
    proof {
        lemma_ka_below(from@, slot.board@, p, k, 64);
        lemma_ka_below(slot.board@, from@, p, k, 64);
        lemma_changes_below(slot.dts@, p, k, true, n);
        lemma_changes_below(slot.dts@, p, k, false, n);
        lemma_pairs_below(w1, b1, slot.dpp.touched(), p, k, 64);
        lemma_pairs_below(w0, b0, slot.dpp.touched(), p, k, 64);
        lemma_below_add(ta, pa, THREAT_AND_PP_DIMENSIONS as int);
        lemma_below_add(tr, pr, THREAT_AND_PP_DIMENSIONS as int);
        assert(adds@ =~= features::halfka_new(from@, slot.board@, p, k, 64));
        assert(subs@ =~= features::halfka_new(slot.board@, from@, p, k, 64));
        assert(tp_adds@ =~= ta + pa);
        assert(tp_subs@ =~= tr + pr);
    }
    let mut r = src.copy();
    ft.fold(&mut r.accumulation, &mut r.psqt, &adds, &subs, &tp_adds, &tp_subs);
    proof {
        if src.exact(ft, from@, p, k) && faithful(from@, slot.board@, slot.dts@, slot.dpp) {
            lemma_ka_carries(from@, slot.board@, p, k);
            assert forall|f: spec_fn(int) -> int| #[trigger]
                features::total(tp_set(slot.board@, p, k), f) == features::total(
                    tp_set(from@, p, k),
                    f,
                ) + features::total(tp_adds@, f) - features::total(tp_subs@, f) by {
                features::lemma_total_add(ta, pa, f);
                features::lemma_total_add(tr, pr, f);
            }
            lemma_carried(
                ft,
                *src,
                r,
                ka_set(from@, p, k),
                ka_set(slot.board@, p, k),
                tp_set(from@, p, k),
                tp_set(slot.board@, p, k),
                adds@,
                subs@,
                tp_adds@,
                tp_subs@,
            );
        }
    }
    r
}

/// Every accumulator whose key is that of its ply was computed for that ply.
pub open spec fn sides_true(plies: Seq<PlySlot>, sides: Seq<Side>, ply: int) -> bool {
    forall|h: int|
        0 <= h <= ply && #[trigger] sides[h].king is Some && sides[h].computed_for
            == plies[h].reached ==> sides[h].board@ == plies[h].board@
}

/// Every recorded hop is the difference that its move made.
pub open spec fn hops_true(plies: Seq<PlySlot>, ply: int) -> bool {
    forall|h: int|
        1 <= h <= ply && (#[trigger] plies[h]).recorded ==> faithful(
            plies[h - 1].board@,
            plies[h].board@,
            plies[h].dts@,
            plies[h].dpp,
        )
}

/// The kings stand where the plies say.
pub open spec fn kings_true(plies: Seq<PlySlot>, ply: int) -> bool {
    forall|h: int| 0 <= h <= ply ==> (#[trigger] plies[h]).placed()
}

/// The nearest ply at or before this one whose accumulator can be rolled forward: it was
/// computed for the position that the line reached there, every ply from it on has the king
/// on the same square, and every hop between is recorded.
fn rollforward_base(plies: &Vec<PlySlot>, lane: &Lane, p: Color, ply: usize, ksq: Square) -> (r:
    Option<usize>)
    requires
        plies@.len() == PLY_SLOTS,
        lane.sized(),
        ply < PLY_SLOTS,
    ensures
        r matches Some(at) ==> {
            &&& at <= ply
            &&& ply - at <= HOP_CAP
            &&& lane.sides@[at as int].king == Some(ksq)
            &&& lane.sides@[at as int].computed_for == plies@[at as int].reached
            &&& forall|h: int|
                at < h <= ply ==> (#[trigger] plies@[h]).recorded && plies@[h].king@[p.idx()] == ksq
        },
{
    let mut at: usize = ply;
    loop
        invariant
            plies@.len() == PLY_SLOTS,
            lane.sized(),
            at <= ply < PLY_SLOTS,
            ply - at <= HOP_CAP,
            forall|h: int|
                at < h <= ply ==> (#[trigger] plies@[h]).recorded && plies@[h].king@[p.idx()] == ksq,
        decreases at,
    {
        let slot = &plies[at];
        if slot.king[p.index()] != ksq {
            return None;
        }
        let side = &lane.sides[at];
        let same = match side.king {
            Some(k) => k == ksq,
            None => false,
        };
        if side.computed_for != EMPTY_KEY && side.computed_for == slot.reached && same {
            return Some(at);
        }
        if at == 0 || !slot.recorded || ply - at >= HOP_CAP {
            return None;
        }
        at = at - 1;
    }
}

/// Roll the accumulator of `base` forward to `ply`, one hop at a time. Every ply between is
/// written, so that the next evaluation finds a base one hop away.
fn roll_forward(
    ft: &FeatureTransformer,
    plies: &Vec<PlySlot>,
    lane: &mut Lane,
    p: Color,
    ply: usize,
    base: usize,
    ksq: Square,
)
    requires
        ft.wf(),
        plies@.len() == PLY_SLOTS,
        old(lane).sized(),
        base < ply < PLY_SLOTS,
        old(lane).sides@[base as int].king == Some(ksq),
        forall|h: int|
            base < h <= ply ==> (#[trigger] plies@[h]).recorded && plies@[h].king@[p.idx()] == ksq,
    ensures
        final(lane).sized(),
        final(lane).cache == old(lane).cache,
        forall|h: int|
            0 <= h < PLY_SLOTS && !(base < h <= ply) ==> #[trigger] final(lane).sides@[h] == old(
                lane,
            ).sides@[h],
        forall|h: int|
            base < h <= ply ==> {
                &&& (#[trigger] final(lane).sides@[h]).king == Some(ksq)
                &&& final(lane).sides@[h].board@ == plies@[h].board@
                &&& final(lane).sides@[h].computed_for == plies@[h].reached
            },
        old(lane).sides@[base as int].exact(ft, p) && old(lane).sides@[base as int].board@
            == plies@[base as int].board@ && hops_true(plies@, ply as int) && kings_true(
            plies@,
            ply as int,
        ) ==> forall|h: int| base < h <= ply ==> (#[trigger] final(lane).sides@[h]).exact(ft, p),
{
    let ghost start = lane.sides@;
    let ghost sound = start[base as int].exact(ft, p) && start[base as int].board@
        == plies@[base as int].board@ && hops_true(plies@, ply as int) && kings_true(
        plies@,
        ply as int,
    );
    let mut at: usize = base;
    while at < ply
        invariant
            ft.wf(),
            plies@.len() == PLY_SLOTS,
            lane.sized(),
            base <= at <= ply < PLY_SLOTS,
            lane.cache == old(lane).cache,
            start == old(lane).sides@,
            start[base as int].king == Some(ksq),
            sound == (start[base as int].exact(ft, p) && start[base as int].board@
                == plies@[base as int].board@ && hops_true(plies@, ply as int) && kings_true(
                plies@,
                ply as int,
            )),
            forall|h: int|
                base < h <= ply ==> (#[trigger] plies@[h]).recorded && plies@[h].king@[p.idx()]
                    == ksq,
            forall|h: int|
                0 <= h < PLY_SLOTS && !(base < h <= at) ==> #[trigger] lane.sides@[h] == start[h],
            forall|h: int|
                base < h <= at ==> {
                    &&& (#[trigger] lane.sides@[h]).king == Some(ksq)
                    &&& lane.sides@[h].board@ == plies@[h].board@
                    &&& lane.sides@[h].computed_for == plies@[h].reached
                },
            sound ==> forall|h: int|
                base < h <= at ==> (#[trigger] lane.sides@[h]).exact(ft, p),
        decreases ply - at,
    {
        let ghost before = lane.sides@;
        let slot = &plies[at + 1];
        let acc = hop(ft, &lane.sides[at].acc, &plies[at].board, slot, p, ksq);
        let side = Side {
            king: Some(ksq),
            acc,
            board: slot.board,
            computed_for: slot.reached,
        };
        proof {
            if sound {
                assert(lane.sides@[at as int].exact(ft, p));
                assert(lane.sides@[at as int].king == Some(ksq));
                assert(lane.sides@[at as int].board@ == plies@[at as int].board@);
                assert(plies@[at + 1].recorded);
                assert(faithful(
                    plies@[at + 1 - 1].board@,
                    plies@[at + 1].board@,
                    plies@[at + 1].dts@,
                    plies@[at + 1].dpp,
                ));
                assert(plies@[at + 1].placed());
                assert(plies@[at + 1].king@[p.idx()].idx() == placement::king(
                    plies@[at + 1].board@,
                    p,
                ));
                assert(side.exact(ft, p));
            }
        }
        lane.sides.set(at + 1, side);
        at += 1;
        proof {
            assert forall|h: int|
                0 <= h < PLY_SLOTS && !(base < h <= at) implies #[trigger] lane.sides@[h]
                == start[h] by {
                assert(lane.sides@[h] == before[h]);
            }
            assert forall|h: int| base < h <= at implies {
                &&& (#[trigger] lane.sides@[h]).king == Some(ksq)
                &&& lane.sides@[h].board@ == plies@[h].board@
                &&& lane.sides@[h].computed_for == plies@[h].reached
            } by {
                if h < at {
                    assert(lane.sides@[h] == before[h]);
                }
            }
            if sound {
                assert forall|h: int| base < h <= at implies (#[trigger] lane.sides@[h]).exact(
                    ft,
                    p,
                ) by {
                    if h < at {
                        assert(lane.sides@[h] == before[h]);
                    }
                }
            }
        }
    }
}

proof fn lemma_empty_board(p: Color, ksq: int, n: int)
    requires
        n <= 64,
    ensures
        features::halfka_upto(Seq::new(64, |i: int| Piece::NONE), p, ksq, n) == Seq::<u32>::empty(),
    decreases n,
{
    if n > 0 {
        lemma_empty_board(p, ksq, n - 1);
    }
}

/// What a refresh starts from: the cached accumulator, or the biases and an empty board.
fn refresh_base(ft: &FeatureTransformer, slot: &CacheSlot, Ghost(p): Ghost<Color>, Ghost(k): Ghost<int>) -> (r: (
    Accumulator,
    [Piece; 64],
    Vec<u32>,
))
    requires
        ft.wf(),
        slot.sized(),
    ensures
        r.0.sized(),
        weights::below(r.2@, THREAT_AND_PP_DIMENSIONS as int),
        slot.exact(ft, p) && (slot.side.king matches Some(at) ==> at.idx() == k) ==> r.0.sums(
            ft,
            ka_set(r.1@, p, k),
            r.2@,
        ),
{
    match slot.side.king {
        Some(_) => {
            let mut threats: Vec<u32> = Vec::new();
            while threats.len() < slot.threats.len()
                invariant
                    threats@.len() <= slot.threats@.len(),
                    threats@ == slot.threats@.subrange(0, threats@.len() as int),
                decreases slot.threats@.len() - threats@.len(),
            {
                let x = slot.threats[threats.len()];
                threats.push(x);
                assert(threats@ =~= slot.threats@.subrange(0, threats@.len() as int));
            }
            assert(threats@ =~= slot.threats@);
            let acc = slot.side.acc.copy();
            (acc, slot.side.board, threats)
        },
        None => {
            let board = array_fill_for_copy_types::<Piece, 64>(Piece::NONE);
            proof {
                assert(board@ =~= Seq::new(64, |i: int| Piece::NONE));
                lemma_empty_board(p, k, 64);
            }
            (Accumulator::of_biases(ft), board, Vec::new())
        },
    }
}

/// Compute the accumulator of a position from the last one with the king on the same square,
/// and keep it for the next.
fn refresh(
    ft: &FeatureTransformer,
    pos: &Position,
    lane: &mut Lane,
    mark: &mut Vec<u64>,
    p: Color,
    ply: usize,
    ksq: Square,
)
    requires
        ft.wf(),
        pos.wf(),
        old(lane).sized(),
        ply < PLY_SLOTS,
        ksq.idx() == placement::king(pos.board@, p),
        old(mark)@.len() == THREAT_AND_PP_DIMENSIONS,
        forall|i: int| 0 <= i < old(mark)@.len() ==> #[trigger] old(mark)@[i] == 0,
    ensures
        final(lane).sized(),
        final(mark)@.len() == THREAT_AND_PP_DIMENSIONS,
        forall|i: int| 0 <= i < final(mark)@.len() ==> #[trigger] final(mark)@[i] == 0,
        forall|h: int|
            0 <= h < PLY_SLOTS && h != ply ==> #[trigger] final(lane).sides@[h] == old(
                lane,
            ).sides@[h],
        final(lane).sides@[ply as int].king == Some(ksq),
        final(lane).sides@[ply as int].board@ == pos.board@,
        old(lane).exact(ft, p) ==> final(lane).exact(ft, p),
{
    broadcast use Square::lemma_idx;

    let ghost k = ksq.idx();
    let ghost now = pos.board@;
    let ghost cached = lane.cache@;
    let at = ksq.index();
    let (base, was, listed) = refresh_base(ft, &lane.cache[at], Ghost(p), Ghost(k));
    let mut adds: Vec<u32> = Vec::new();
    let mut subs: Vec<u32> = Vec::new();
    halfka_delta(&was, &pos.board.squares, p, ksq, &mut adds, &mut subs);
    let mut threats: Vec<u32> = Vec::new();
    threat_active(&ft.tables, pos, p, &mut threats);
    pawn_pair_active(pos, p, &mut threats);
    proof {
        lemma_ka_below(was@, now, p, k, 64);
        lemma_ka_below(now, was@, p, k, 64);
        assert(adds@ =~= features::halfka_new(was@, now, p, k, 64));
        assert(subs@ =~= features::halfka_new(now, was@, p, k, 64));
        let white = pawn_pairs::pawns(now, Color::White);
        let black = pawn_pairs::pawns(now, Color::Black);
        lemma_threats_below(now, p, k, 64);
        lemma_pairs_below(white, black, 0xffff_ffff_ffff_ffff, p, k, 64);
        lemma_below_add(
            threat_features::threats_upto(now, p, k, 64),
            pawn_pairs::pairs_of(white, black, p, k),
            THREAT_AND_PP_DIMENSIONS as int,
        );
        assert(threats@ =~= tp_set(now, p, k));
    }
    let mut tp_adds: Vec<u32> = Vec::new();
    let mut tp_subs: Vec<u32> = Vec::new();
    collect_diff(&listed, &threats, &mut tp_adds, &mut tp_subs, mark);
    let ghost base0 = base;
    let mut acc = base;
    ft.fold(&mut acc.accumulation, &mut acc.psqt, &adds, &subs, &tp_adds, &tp_subs);
    proof {
        if lane.exact(ft, p) {
            assert(lane.cache@[k].exact(ft, p));
            lemma_ka_carries(was@, now, p, k);
            lemma_carried(
                ft,
                base0,
                acc,
                ka_set(was@, p, k),
                ka_set(now, p, k),
                listed@,
                threats@,
                adds@,
                subs@,
                tp_adds@,
                tp_subs@,
            );
        }
    }
    let copy = acc.copy();
    let ghost sides = lane.sides@;
    lane.sides.set(
        ply,
        Side { king: Some(ksq), acc: copy, board: pos.board.squares, computed_for: EMPTY_KEY },
    );
    lane.cache.set(
        at,
        CacheSlot {
            side: Side { king: Some(ksq), acc, board: pos.board.squares, computed_for: EMPTY_KEY },
            threats,
        },
    );
    proof {
        assert forall|i: int| 0 <= i < 64 implies (#[trigger] lane.cache@[i]).sized() by {
            if i != at {
                assert(lane.cache@[i] == cached[i]);
            }
        }
        assert forall|i: int| 0 <= i < PLY_SLOTS implies (
        #[trigger] lane.sides@[i]).acc.sized() by {
            if i != ply {
                assert(lane.sides@[i] == sides[i]);
            }
        }
        if old(lane).exact(ft, p) {
            assert forall|i: int| 0 <= i < 64 implies (#[trigger] lane.cache@[i]).exact(ft, p) && (
            lane.cache@[i].side.king matches Some(q) ==> q.idx() == i) by {
                if i != at {
                    assert(lane.cache@[i] == cached[i]);
                }
            }
            assert forall|i: int| 0 <= i < PLY_SLOTS implies (#[trigger] lane.sides@[i]).exact(
                ft,
                p,
            ) by {
                if i != ply {
                    assert(lane.sides@[i] == sides[i]);
                }
            }
        }
    }
}

/// Bring one side's accumulator for `ply` up to date.
fn update(
    ft: &FeatureTransformer,
    pos: &Position,
    plies: &Vec<PlySlot>,
    lane: &mut Lane,
    mark: &mut Vec<u64>,
    p: Color,
    ply: usize,
    key: Key,
)
    requires
        ft.wf(),
        pos.wf(),
        plies@.len() == PLY_SLOTS,
        old(lane).sized(),
        ply < PLY_SLOTS,
        old(mark)@.len() == THREAT_AND_PP_DIMENSIONS,
        forall|i: int| 0 <= i < old(mark)@.len() ==> #[trigger] old(mark)@[i] == 0,
    ensures
        final(lane).sized(),
        final(mark)@.len() == THREAT_AND_PP_DIMENSIONS,
        forall|i: int| 0 <= i < final(mark)@.len() ==> #[trigger] final(mark)@[i] == 0,
        final(lane).sides@[ply as int].king is Some,
        final(lane).sides@[ply as int].computed_for == key,
        forall|h: int|
            ply < h < PLY_SLOTS ==> #[trigger] final(lane).sides@[h] == old(lane).sides@[h],
        old(lane).exact(ft, p) && sides_true(plies@, old(lane).sides@, ply as int) && hops_true(
            plies@,
            ply as int,
        ) && kings_true(plies@, ply as int) && plies@[ply as int].board@ == pos.board@ ==> {
            &&& final(lane).exact(ft, p)
            &&& final(lane).sides@[ply as int].board@ == pos.board@
            &&& sides_true(plies@, final(lane).sides@, ply - 1)
        },
{
    let ksq = pos.king_square(p);
    let ghost before = lane.sides@;
    let ghost sound = lane.exact(ft, p) && sides_true(plies@, before, ply as int) && hops_true(
        plies@,
        ply as int,
    ) && kings_true(plies@, ply as int) && plies@[ply as int].board@ == pos.board@;
    match rollforward_base(plies, lane, p, ply, ksq) {
        Some(base) => {
            proof {
                if sound {
                    assert(before[base as int].king is Some);
                    assert(before[base as int].board@ == plies@[base as int].board@);
                    assert(before[base as int].exact(ft, p));
                }
            }
            if base < ply {
                roll_forward(ft, plies, lane, p, ply, base, ksq);
                proof {
                    if sound {
                        assert forall|i: int| 0 <= i < PLY_SLOTS implies (
                        #[trigger] lane.sides@[i]).exact(ft, p) by {
                            if !(base < i <= ply) {
                                assert(lane.sides@[i] == before[i]);
                            }
                        }
                    }
                }
            }
        },
        None => {
            refresh(ft, pos, lane, mark, p, ply, ksq);
        },
    }
    let ghost middle = lane.sides@;
    proof {
        if sound {
            assert(lane.exact(ft, p));
            assert(middle[ply as int].board@ == pos.board@);
            assert forall|h: int|
                0 <= h < ply && #[trigger] middle[h].king is Some && middle[h].computed_for
                    == plies@[h].reached implies middle[h].board@ == plies@[h].board@ by {
                assert(middle[h] == before[h] || middle[h].board@ == plies@[h].board@);
            }
        }
    }
    let slot = &mut lane.sides[ply];
    slot.computed_for = key;
    proof {
        assert forall|i: int| 0 <= i < PLY_SLOTS implies (
        #[trigger] lane.sides@[i]).acc.sized() by {
            if i != ply {
                assert(lane.sides@[i] == middle[i]);
            }
        }
        if sound {
            assert forall|i: int| 0 <= i < PLY_SLOTS implies (#[trigger] lane.sides@[i]).exact(
                ft,
                p,
            ) by {
                if i != ply {
                    assert(lane.sides@[i] == middle[i]);
                } else {
                    assert(middle[i].exact(ft, p));
                }
            }
        }
    }
}

// ---------------------------------------------------------------------------
// The output
// ---------------------------------------------------------------------------

/// A value held between 0 and 255.
pub open spec fn held255(x: int) -> int {
    if x < 0 {
        0
    } else if x > 255 {
        255
    } else {
        x
    }
}

/// Column `j` of what `p` accumulates on a placement.
pub open spec fn acc_of(ft: &FeatureTransformer, b: Seq<Piece>, p: Color, j: int) -> int {
    let k = placement::king(b, p);
    weights::wrap16(column_sum(ft, ka_set(b, p, k), tp_set(b, p, k), j))
}

/// Column `j` of the piece-square head for `p`.
pub open spec fn head_of(ft: &FeatureTransformer, b: Seq<Piece>, p: Color, j: int) -> int {
    let k = placement::king(b, p);
    layers::wrap32(head_sum(ft, ka_set(b, p, k), tp_set(b, p, k), j))
}

/// Output `i` of one side: the product of the two halves, each held between 0 and 255.
pub open spec fn product_of(ft: &FeatureTransformer, b: Seq<Piece>, p: Color, i: int) -> int {
    held255(acc_of(ft, b, p, i)) * held255(acc_of(ft, b, p, 512 + i)) / 512
}

/// The transformed features: the side to move first, then the other.
pub open spec fn transformed_of(ft: &FeatureTransformer, b: Seq<Piece>, stm: Color) -> Seq<u8> {
    Seq::new(
        1024,
        |i: int|
            (if i < 512 {
                product_of(ft, b, stm, i)
            } else {
                product_of(ft, b, stm.opp(), i - 512)
            }) as u8,
    )
}

/// The piece-square score: half of what the side to move has over the other.
pub open spec fn psqt_of(ft: &FeatureTransformer, b: Seq<Piece>, stm: Color, bucket: int) -> int {
    types::trunc_div(
        layers::wrap32(head_of(ft, b, stm, bucket) - head_of(ft, b, stm.opp(), bucket)),
        2,
    )
}

/// A value held between 0 and 255.
fn hold255(x: i16) -> (r: u32)
    ensures
        r == held255(x as int),
        r <= 255,
{
    if x < 0 {
        0
    } else if x > 255 {
        255
    } else {
        x as u32
    }
}

/// Write the products of one side's two halves from `at` on.
fn write_products(acc: &Vec<i16>, at: usize, out: &mut Vec<u8>)
    requires
        acc@.len() == L1,
        at <= 512,
        old(out)@.len() == L1,
    ensures
        final(out)@.len() == L1,
        forall|i: int|
            0 <= i < 512 ==> #[trigger] final(out)@[at + i] == held255(acc@[i] as int) * held255(
                acc@[512 + i] as int,
            ) / 512,
        forall|i: int| 0 <= i < 512 ==> #[trigger] final(out)@[at + i] <= 127,
        forall|i: int|
            0 <= i < L1 && !(at <= i < at + 512) ==> #[trigger] final(out)@[i] == old(out)@[i],
{
    let ghost start = out@;
    let mut i: usize = 0;
    while i < 512
        invariant
            i <= 512,
            acc@.len() == L1,
            at <= 512,
            out@.len() == L1,
            start.len() == L1,
            forall|k: int|
                0 <= k < i ==> #[trigger] out@[at + k] == held255(acc@[k] as int) * held255(
                    acc@[512 + k] as int,
                ) / 512,
            forall|k: int| 0 <= k < i ==> #[trigger] out@[at + k] <= 127,
            forall|k: int|
                0 <= k < L1 && !(at <= k < at + 512) ==> #[trigger] out@[k] == start[k],
        decreases 512 - i,
    {
        let a: u32 = hold255(acc[i]);
        let c: u32 = hold255(acc[512 + i]);
        assert(0 <= a * c <= 65025) by (nonlinear_arith)
            requires
                0 <= a <= 255,
                0 <= c <= 255,
        ;
        let ghost before = out@;
        out.set(at + i, (a * c / 512) as u8);
        proof {
            assert forall|k: int| 0 <= k < i + 1 implies #[trigger] out@[at + k] == held255(
                acc@[k] as int,
            ) * held255(acc@[512 + k] as int) / 512 by {
                if k < i {
                    assert(out@[at + k] == before[at + k]);
                }
            }
        }
        i += 1;
    }
}

/// A line is read off the plies and the accumulators alone.
proof fn lemma_on_line_same(s: EvalScratch, t: EvalScratch, b: Seq<Piece>, key: Key, ply: int)
    requires
        s.on_line(b, key, ply),
        s.plies == t.plies,
        s.white == t.white,
        s.black == t.black,
    ensures
        t.on_line(b, key, ply),
{
    assert forall|p: Color| #[trigger] t.lane(p) == s.lane(p) by {}
    assert forall|h: int| t.board_at(b, ply, h) == #[trigger] s.board_at(b, ply, h) by {}
    assert forall|h: int| t.reached_at(key, ply, h) == #[trigger] s.reached_at(key, ply, h) by {}
}

/// What a call at the root makes of a scratch, and what it returns: the features and the score of
/// the position when the scratch serves it, and in any case a scratch that serves every position
/// with another key.
pub open spec fn root_call(
    ft: &FeatureTransformer,
    pre: EvalScratch,
    post: EvalScratch,
    pos: Position,
    bucket: int,
    r: int,
) -> bool {
    let b = pos.board@;
    let key = pos.top().key;
    &&& forall|i: int| 0 <= i < L1 ==> #[trigger] post.transformed@[i] <= 127
    &&& post.open_to_others(key)
    &&& pre.fits(ft) && pre.on_line(b, key, 0) ==> {
        &&& r == psqt_of(ft, b, pos.side_to_move, bucket)
        &&& post.transformed@ == transformed_of(ft, b, pos.side_to_move)
        &&& post.fits(ft)
        &&& post.on_line(b, key, 0)
    }
    &&& pre.fits(ft) && pre.paired() ==> {
        &&& post.fits(ft)
        &&& post.paired()
        &&& post.knows(key)
        &&& post.white.sides@[0].board@ == if pre.knows(key) {
            pre.white.sides@[0].board@
        } else {
            b
        }
    }
}

/// The scratches of a series of calls at the root, the first of them fresh.
pub open spec fn root_calls(
    ft: &FeatureTransformer,
    line: Seq<EvalScratch>,
    seen: Seq<Position>,
) -> bool {
    &&& line.len() == seen.len() + 1
    &&& line[0].fits(ft)
    &&& line[0].paired()
    &&& forall|key: Key| !#[trigger] line[0].knows(key)
    &&& forall|i: int|
        0 <= i < seen.len() ==> exists|bucket: int, r: int| #[trigger]
            root_call(ft, line[i], line[i + 1], #[trigger] seen[i], bucket, r)
}

/// What the root of a scratch holds is one of the positions that it went through.
proof fn lemma_root_calls(
    ft: &FeatureTransformer,
    line: Seq<EvalScratch>,
    seen: Seq<Position>,
    n: int,
)
    requires
        root_calls(ft, line, seen),
        0 <= n < line.len(),
    ensures
        line[n].fits(ft),
        line[n].paired(),
        line[n].white.sides@[0].king is Some ==> exists|j: int|
            0 <= j < n && line[n].knows((#[trigger] seen[j]).top().key) && seen[j].board@
                == line[n].white.sides@[0].board@,
    decreases n,
{
    if n > 0 {
        lemma_root_calls(ft, line, seen, n - 1);
        let p = seen[n - 1];
        let pre = line[n - 1];
        let (bucket, r) = choose|bucket: int, r: int| #[trigger]
            root_call(ft, line[n - 1], line[n - 1 + 1], seen[n - 1], bucket, r);
        assert(root_call(ft, pre, line[n], p, bucket, r));
        if pre.knows(p.top().key) {
            let j = choose|j: int|
                0 <= j < n - 1 && pre.knows((#[trigger] seen[j]).top().key) && seen[j].board@
                    == pre.white.sides@[0].board@;
            assert(line[n].knows(seen[j].top().key));
        } else {
            assert(line[n].knows(seen[n - 1].top().key));
        }
    } else if line[0].white.sides@[0].king is Some {
        assert(line[0].knows(line[0].white.sides@[0].computed_for));
    }
}

/// A scratch that went through any number of calls at the root gives what a fresh one gives, as
/// long as none of the positions it saw has the key of this one with another placement.
pub proof fn law_a_used_scratch_is_as_good_as_a_fresh_one(
    ft: &FeatureTransformer,
    line: Seq<EvalScratch>,
    seen: Seq<Position>,
    pos: Position,
    bucket: int,
    used: (EvalScratch, int),
    fresh: EvalScratch,
    anew: (EvalScratch, int),
)
    requires
        root_calls(ft, line, seen),
        forall|j: int|
            0 <= j < seen.len() && (#[trigger] seen[j]).top().key == pos.top().key
                ==> seen[j].board@ == pos.board@,
        root_call(ft, line.last(), used.0, pos, bucket, used.1),
        fresh.fits(ft),
        fresh.on_line(pos.board@, pos.top().key, 0),
        root_call(ft, fresh, anew.0, pos, bucket, anew.1),
    ensures
        line.last().fits(ft),
        line.last().on_line(pos.board@, pos.top().key, 0),
        used.1 == anew.1,
        used.0.transformed@ == anew.0.transformed@,
        forall|i: int| 0 <= i < L1 ==> #[trigger] used.0.transformed@[i] <= 127,
{
    let s = line.last();
    let b = pos.board@;
    let key = pos.top().key;
    lemma_root_calls(ft, line, seen, line.len() - 1);
    if s.knows(key) {
        let j = choose|j: int|
            0 <= j < line.len() - 1 && s.knows((#[trigger] seen[j]).top().key) && seen[j].board@
                == s.white.sides@[0].board@;
        assert(seen[j].top().key == key);
    }
    assert(s.board_at(b, 0, 0) == b);
    assert(s.on_line(b, key, 0));
}

impl FeatureTransformer {
    /// Bring both sides' accumulators for `ply` up to date.
    fn prepare(&self, pos: &Position, ply: usize, key: Key, scratch: &mut EvalScratch)
        requires
            self.wf(),
            pos.wf(),
            old(scratch).wf(),
            ply < PLY_SLOTS,
        ensures
            final(scratch).wf(),
            final(scratch).white.sides@[ply as int].king is Some,
            final(scratch).black.sides@[ply as int].king is Some,
            final(scratch).white.sides@[ply as int].computed_for == key,
            final(scratch).black.sides@[ply as int].computed_for == key,
            forall|h: int|
                0 <= h < PLY_SLOTS && h != ply ==> #[trigger] final(scratch).plies@[h] == old(
                    scratch,
                ).plies@[h],
            old(scratch).fits(self) && old(scratch).on_line(pos.board@, key, ply as int) ==> {
                &&& final(scratch).fits(self)
                &&& final(scratch).on_line(pos.board@, key, ply as int)
                &&& final(scratch).plies@[ply as int].board@ == pos.board@
                &&& final(scratch).plies@[ply as int].reached == key
                &&& final(scratch).plies@[ply as int].placed()
                &&& final(scratch).white.sides@[ply as int].board@ == pos.board@
                &&& final(scratch).black.sides@[ply as int].board@ == pos.board@
            },
    {
        let ghost b = pos.board@;
        let ghost sound = scratch.fits(self) && scratch.on_line(b, key, ply as int);
        let ghost plies0 = scratch.plies@;
        let ghost start = *scratch;
        if ply == 0 {
            let white = pos.king_square(Color::White);
            let black = pos.king_square(Color::Black);
            let slot = &mut scratch.plies[0];
            slot.reached = key;
            slot.recorded = false;
            slot.board = pos.board.squares;
            slot.king = [white, black];
        }
        let ghost plies1 = scratch.plies@;
        proof {
            assert forall|h: int| 0 <= h < PLY_SLOTS && (h != ply || ply != 0) implies plies1[h]
                == #[trigger] plies0[h] by {}
            if sound {
                assert(plies1[ply as int].board@ == b);
                assert(kings_true(plies1, ply as int)) by {
                    assert forall|h: int| 0 <= h <= ply implies (#[trigger] plies1[h]).placed() by {
                        if ply > 0 {
                            assert(plies0[h].placed());
                        }
                    }
                }
                assert(hops_true(plies1, ply as int)) by {
                    assert forall|h: int|
                        1 <= h <= ply && (#[trigger] plies1[h]).recorded implies faithful(
                        plies1[h - 1].board@,
                        plies1[h].board@,
                        plies1[h].dts@,
                        plies1[h].dpp,
                    ) by {
                        assert(plies0[h].recorded);
                        assert(plies1[h - 1] == plies0[h - 1]);
                    }
                }
                assert(sides_true(plies1, start.white.sides@, ply as int)) by {
                    assert forall|h: int|
                        0 <= h <= ply && #[trigger] start.white.sides@[h].king is Some
                            && start.white.sides@[h].computed_for
                            == plies1[h].reached implies start.white.sides@[h].board@
                        == plies1[h].board@ by {
                        assert(start.lane(Color::White).sides@[h].king is Some);
                        assert(start.reached_at(key, ply as int, h) == plies1[h].reached);
                    }
                }
                assert(sides_true(plies1, start.black.sides@, ply as int)) by {
                    assert forall|h: int|
                        0 <= h <= ply && #[trigger] start.black.sides@[h].king is Some
                            && start.black.sides@[h].computed_for
                            == plies1[h].reached implies start.black.sides@[h].board@
                        == plies1[h].board@ by {
                        assert(start.lane(Color::Black).sides@[h].king is Some);
                        assert(start.reached_at(key, ply as int, h) == plies1[h].reached);
                    }
                }
            }
        }
        update(
            self,
            pos,
            &scratch.plies,
            &mut scratch.white,
            &mut scratch.mark,
            Color::White,
            ply,
            key,
        );
        update(
            self,
            pos,
            &scratch.plies,
            &mut scratch.black,
            &mut scratch.mark,
            Color::Black,
            ply,
            key,
        );
        let slot = &mut scratch.plies[ply];
        slot.reached = key;
        scratch.key = key;
        proof {
            let end = *scratch;
            assert forall|h: int| 0 <= h < PLY_SLOTS && h != ply implies #[trigger] end.plies@[h]
                == plies1[h] by {}
            if sound {
                self.lemma_prepared(plies1, end, b, key, ply as int);
            }
        }
    }

    proof fn lemma_prepared(
        &self,
        plies: Seq<PlySlot>,
        end: EvalScratch,
        b: Seq<Piece>,
        key: Key,
        ply: int,
    )
        requires
            0 <= ply < PLY_SLOTS,
            plies.len() == PLY_SLOTS,
            end.plies@.len() == PLY_SLOTS,
            forall|h: int| 0 <= h < PLY_SLOTS && h != ply ==> #[trigger] end.plies@[h] == plies[h],
            end.plies@[ply].board == plies[ply].board,
            end.plies@[ply].king == plies[ply].king,
            end.plies@[ply].dts == plies[ply].dts,
            end.plies@[ply].dpp == plies[ply].dpp,
            end.plies@[ply].recorded == plies[ply].recorded,
            end.plies@[ply].reached == key,
            plies[ply].board@ == b,
            kings_true(plies, ply),
            hops_true(plies, ply),
            sides_true(plies, end.white.sides@, ply - 1),
            sides_true(plies, end.black.sides@, ply - 1),
            end.white.sides@[ply].board@ == b,
            end.black.sides@[ply].board@ == b,
        ensures
            end.on_line(b, key, ply),
            end.plies@[ply].placed(),
    {
        assert(plies[ply].placed());
        assert forall|c: Color| (#[trigger] end.plies@[ply].king@[c.idx()]).idx() == placement::king(
            end.plies@[ply].board@,
            c,
        ) by {
            assert(plies[ply].king@[c.idx()].idx() == placement::king(plies[ply].board@, c));
        }
        assert forall|h: int| 0 <= h <= ply implies (#[trigger] end.plies@[h]).placed() by {
            if h != ply {
                assert(end.plies@[h] == plies[h]);
            }
        }
        assert forall|h: int|
            1 <= h <= ply && (#[trigger] end.plies@[h]).recorded implies faithful(
            end.board_at(b, ply, h - 1),
            end.board_at(b, ply, h),
            end.plies@[h].dts@,
            end.plies@[h].dpp,
        ) by {
            assert(plies[h].recorded);
            assert(end.plies@[h - 1] == plies[h - 1]);
        }
        assert forall|p: Color, h: int|
            0 <= h <= ply && #[trigger] end.lane(p).sides@[h].king is Some && end.lane(
                p,
            ).sides@[h].computed_for == end.reached_at(key, ply, h) implies end.lane(
            p,
        ).sides@[h].board@ == end.board_at(b, ply, h) by {
            if h != ply {
                assert(end.plies@[h] == plies[h]);
                match p {
                    Color::White => {
                        assert(end.white.sides@[h].king is Some);
                    },
                    Color::Black => {
                        assert(end.black.sides@[h].king is Some);
                    },
                }
            }
        }
    }

    /// Fill the scratch's transformed features for a position at `ply` of the line, and return
    /// the piece-square score.
    ///
    /// The result is that of starting over, provided that what the scratch kept is this
    /// transformer's and that the line it recorded leads here.
    #[verifier::spinoff_prover]
    #[verifier::rlimit(80)]
    pub fn transform(&self, pos: &Position, bucket: usize, ply: usize, scratch: &mut EvalScratch) -> (r:
        i32)
        requires
            self.wf(),
            pos.wf(),
            old(scratch).wf(),
            bucket < PSQT_BUCKETS,
            ply < PLY_SLOTS,
        ensures
            final(scratch).wf(),
            forall|h: int|
                0 <= h < PLY_SLOTS && h != ply ==> #[trigger] final(scratch).plies@[h] == old(
                    scratch,
                ).plies@[h],
            forall|i: int| 0 <= i < L1 ==> #[trigger] final(scratch).transformed@[i] <= 127,
            ply == 0 ==> root_call(self, *old(scratch), *final(scratch), *pos, bucket as int, r as int),
            old(scratch).fits(self) && old(scratch).on_line(
                pos.board@,
                pos.top().key,
                ply as int,
            ) ==> {
                &&& r == psqt_of(self, pos.board@, pos.side_to_move, bucket as int)
                &&& final(scratch).transformed@ == transformed_of(
                    self,
                    pos.board@,
                    pos.side_to_move,
                )
                &&& final(scratch).fits(self)
                &&& final(scratch).on_line(pos.board@, pos.top().key, ply as int)
            },
    {
        let key = pos.key();
        let ghost b = pos.board@;
        let ghost start = *scratch;
        let ghost sound = scratch.fits(self) && scratch.on_line(b, key, ply as int);
        let ready = scratch.white.sides[ply].king.is_some() && scratch.white.sides[ply].computed_for
            == key && scratch.black.sides[ply].king.is_some()
            && scratch.black.sides[ply].computed_for == key;
        if !ready {
            self.prepare(pos, ply, key, scratch);
        } else {
            proof {
                if sound {
                    assert(scratch.lane(Color::White).sides@[ply as int].board@ == b);
                    assert(scratch.lane(Color::Black).sides@[ply as int].board@ == b);
                }
            }
        }
        let ghost middle = *scratch;
        let us = pos.side_to_move();
        let (own, other) = match us {
            Color::White => (&scratch.white.sides[ply], &scratch.black.sides[ply]),
            Color::Black => (&scratch.black.sides[ply], &scratch.white.sides[ply]),
        };
        let psqt = div_trunc(own.acc.psqt[bucket].wrapping_sub(other.acc.psqt[bucket]), 2);
        write_products(&own.acc.accumulation, 0, &mut scratch.transformed);
        let ghost half = scratch.transformed@;
        write_products(&other.acc.accumulation, 512, &mut scratch.transformed);
        proof {
            let out = scratch.transformed@;
            assert forall|i: int| 0 <= i < L1 implies #[trigger] out[i] <= 127 by {
                if i < 512 {
                    assert(half[0 + i] <= 127);
                    assert(out[i] == half[i]);
                } else {
                    assert(out[512 + (i - 512)] <= 127);
                }
            }
            if ply == 0 {
                let end = *scratch;
                if start.fits(self) && start.paired() && !start.knows(key) {
                    assert(start.board_at(b, 0, 0) == b);
                    assert(start.on_line(b, key, 0));
                }
                assert forall|c: Seq<Piece>, k: Key| k != key implies #[trigger] end.on_line(
                    c,
                    k,
                    0,
                ) by {
                    assert(end.board_at(c, 0, 0) == c);
                }
            }
            if sound {
                assert(middle.white.sides@[ply as int].exact(self, Color::White));
                assert(middle.black.sides@[ply as int].exact(self, Color::Black));
                assert forall|i: int| 0 <= i < 1024 implies #[trigger] out[i] == transformed_of(
                    self,
                    b,
                    us,
                )[i] by {
                    if i < 512 {
                        assert(half[0 + i] == product_of(self, b, us, i));
                        assert(out[i] == half[i]);
                    } else {
                        assert(out[512 + (i - 512)] == product_of(self, b, us.opp(), i - 512));
                    }
                }
                assert(out =~= transformed_of(self, b, us));
                lemma_on_line_same(middle, *scratch, b, key, ply as int);
                assert(psqt == psqt_of(self, b, us, bucket as int));
            }
        }
        psqt
    }
}

} // verus!
