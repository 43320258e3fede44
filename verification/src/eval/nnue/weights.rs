//! The weights of the feature transformer, and the arithmetic of adding and taking away the
//! row of a feature.

use vstd::prelude::*;
use vstd::slice::slice_subrange;
use crate::eval::nnue::blocks::Block;
use crate::eval::nnue::blocks;
use crate::eval::nnue::common::{NetError, L1, PSQT_BUCKETS};
use crate::eval::nnue::common;
use crate::eval::nnue::features::{HALFKA_DIMENSIONS, THREAT_AND_PP_DIMENSIONS};
use crate::eval::nnue::features;
use crate::eval::nnue::layers::zeros;
use crate::eval::nnue::layers;
use crate::eval::nnue::stream::{NetReader, NetWriter};
use crate::eval::nnue::stream;
use crate::eval::nnue::threat_features::ThreatTables;

verus! {

/// The first layer: one row of weights for each feature, and a piece-square head beside it.
#[derive(Debug)]
pub struct FeatureTransformer {
    pub biases: Vec<i16>,
    /// One row for each king-piece feature.
    pub weights: Vec<i16>,
    /// One row for each threat and each pawn pair, the pawn pairs behind the threats.
    pub threat_and_pp_weights: Vec<i8>,
    pub psqt_weights: Vec<i32>,
    pub threat_and_pp_psqt_weights: Vec<i32>,
    /// The numbering of the threats.
    pub tables: ThreatTables,
}

/// The blocks of a transformer in a file: the biases, the threats, the pawn pairs, and the
/// king-piece features, each set with its piece-square head.
pub open spec fn transformer_layout() -> Seq<(Block, int)> {
    seq![
        (Block::Packed16, 1024int),
        (Block::Plain8, 61243392int),
        (Block::Packed32, 478464int),
        (Block::Plain8, 4669440int),
        (Block::Packed32, 36480int),
        (Block::Packed16, 23068672int),
        (Block::Packed32, 180224int),
    ]
}

/// A number cut to 16 bits.
pub open spec fn wrap16(x: int) -> int {
    (x + 0x8000) % 0x1_0000 - 0x8000
}

impl FeatureTransformer {
    /// Every table has its size.
    pub open spec fn wf(&self) -> bool {
        &&& self.biases@.len() == L1
        &&& self.weights@.len() == L1 * HALFKA_DIMENSIONS
        &&& self.threat_and_pp_weights@.len() == L1 * THREAT_AND_PP_DIMENSIONS
        &&& self.psqt_weights@.len() == PSQT_BUCKETS * HALFKA_DIMENSIONS
        &&& self.threat_and_pp_psqt_weights@.len() == PSQT_BUCKETS * THREAT_AND_PP_DIMENSIONS
        &&& self.tables.wf()
    }

    /// The parameters in the order of the file.
    pub open spec fn params(&self) -> Seq<Seq<int>> {
        let tp = stream::ints8(self.threat_and_pp_weights@);
        let tq = stream::ints32(self.threat_and_pp_psqt_weights@);
        seq![
            stream::ints16(self.biases@),
            tp.subrange(0, 61243392),
            tq.subrange(0, 478464),
            tp.subrange(61243392, 65912832),
            tq.subrange(478464, 514944),
            stream::ints16(self.weights@),
            stream::ints32(self.psqt_weights@),
        ]
    }

    /// An unloaded transformer: every weight is zero.
    pub fn new() -> (r: FeatureTransformer)
        ensures
            r.wf(),
            forall|i: int| 0 <= i < r.biases@.len() ==> #[trigger] r.biases@[i] == 0,
            forall|i: int| 0 <= i < r.weights@.len() ==> #[trigger] r.weights@[i] == 0,
            forall|i: int|
                0 <= i < r.threat_and_pp_weights@.len() ==> #[trigger] r.threat_and_pp_weights@[i]
                    == 0,
            forall|i: int| 0 <= i < r.psqt_weights@.len() ==> #[trigger] r.psqt_weights@[i] == 0,
            forall|i: int|
                0 <= i < r.threat_and_pp_psqt_weights@.len() ==>
                #[trigger] r.threat_and_pp_psqt_weights@[i] == 0,
    {
        FeatureTransformer {
            biases: zeros16(L1),
            weights: zeros16(L1 * HALFKA_DIMENSIONS),
            threat_and_pp_weights: zeros(L1 * THREAT_AND_PP_DIMENSIONS),
            psqt_weights: zeros32(PSQT_BUCKETS * HALFKA_DIMENSIONS),
            threat_and_pp_psqt_weights: zeros32(PSQT_BUCKETS * THREAT_AND_PP_DIMENSIONS),
            tables: ThreatTables::build(),
        }
    }

    /// How many bytes of weights the transformer holds.
    pub fn weight_bytes(&self) -> (r: usize)
        requires
            self.wf(),
        ensures
            r == 2 * self.biases@.len() + 2 * self.weights@.len()
                + self.threat_and_pp_weights@.len() + 4 * self.psqt_weights@.len() + 4
                * self.threat_and_pp_psqt_weights@.len(),
    {
        self.biases.len() * 2 + self.weights.len() * 2 + self.threat_and_pp_weights.len()
            + self.psqt_weights.len() * 4 + self.threat_and_pp_psqt_weights.len() * 4
    }
}

/// Zeros of two bytes.
fn zeros16(n: usize) -> (r: Vec<i16>)
    ensures
        r@.len() == n,
        forall|k: int| 0 <= k < n ==> #[trigger] r@[k] == 0,
{
    let mut v: Vec<i16> = Vec::new();
    while v.len() < n
        invariant
            v@.len() <= n,
            forall|k: int| 0 <= k < v@.len() ==> #[trigger] v@[k] == 0,
        decreases n - v@.len(),
    {
        v.push(0);
    }
    v
}

/// Zeros of four bytes.
fn zeros32(n: usize) -> (r: Vec<i32>)
    ensures
        r@.len() == n,
        forall|k: int| 0 <= k < n ==> #[trigger] r@[k] == 0,
{
    let mut v: Vec<i32> = Vec::new();
    while v.len() < n
        invariant
            v@.len() <= n,
            forall|k: int| 0 <= k < v@.len() ==> #[trigger] v@[k] == 0,
        decreases n - v@.len(),
    {
        v.push(0);
    }
    v
}

impl Default for FeatureTransformer {
    /// An unloaded transformer.
    fn default() -> (r: FeatureTransformer)
        ensures
            r.wf(),
            forall|i: int| 0 <= i < r.biases@.len() ==> #[trigger] r.biases@[i] == 0,
            forall|i: int| 0 <= i < r.weights@.len() ==> #[trigger] r.weights@[i] == 0,
            forall|i: int|
                0 <= i < r.threat_and_pp_weights@.len() ==> #[trigger] r.threat_and_pp_weights@[i]
                    == 0,
            forall|i: int| 0 <= i < r.psqt_weights@.len() ==> #[trigger] r.psqt_weights@[i] == 0,
            forall|i: int|
                0 <= i < r.threat_and_pp_psqt_weights@.len() ==>
                #[trigger] r.threat_and_pp_psqt_weights@[i] == 0,
    {
        FeatureTransformer::new()
    }
}

// ---------------------------------------------------------------------------
// Reading and writing
// ---------------------------------------------------------------------------

/// One compressed block of numbers of two bytes.
fn read16(r: &mut NetReader, n: usize) -> (res: Result<Vec<i16>, NetError>)
    requires
        old(r).wf(),
    ensures
        final(r).wf(),
        final(r).data@ == old(r).data@,
        res.is_ok() ==> final(r).at >= old(r).at,
        (match res {
            Ok(v) => blocks::taken(Block::Packed16, old(r).rest(), n as int) matches Ok((w, t))
                && stream::ints16(v@) == w && final(r).at == old(r).at + t && v@.len() == n,
            Err(e) => blocks::taken(Block::Packed16, old(r).rest(), n as int) == Err::<
                (Seq<int>, int),
                NetError,
            >(e),
        }),
{
    let ghost s = r.rest();
    proof {
        reveal(blocks::taken);
        common::lemma_le_nonneg(s.subrange(17, 21));
    }
    let mut v = zeros16(n);
    match r.leb128_i16(&mut v) {
        Err(e) => Err(e),
        Ok(_) => {
            proof {
                let (w, _t) = stream::read_block(s, n as int)->Ok_0;
                assert(stream::ints16(v@) =~= Seq::new(
                    n as nat,
                    |i: int| ((w[i] as i32) as i16) as int,
                ));
            }
            Ok(v)
        },
    }
}

/// One compressed block.
fn read32(r: &mut NetReader, n: usize) -> (res: Result<Vec<i32>, NetError>)
    requires
        old(r).wf(),
    ensures
        final(r).wf(),
        final(r).data@ == old(r).data@,
        res.is_ok() ==> final(r).at >= old(r).at,
        (match res {
            Ok(v) => blocks::taken(Block::Packed32, old(r).rest(), n as int) matches Ok((w, t))
                && stream::ints32(v@) == w && final(r).at == old(r).at + t && v@.len() == n,
            Err(e) => blocks::taken(Block::Packed32, old(r).rest(), n as int) == Err::<
                (Seq<int>, int),
                NetError,
            >(e),
        }),
{
    let ghost s = r.rest();
    proof {
        reveal(blocks::taken);
        common::lemma_le_nonneg(s.subrange(17, 21));
    }
    let mut v = zeros32(n);
    match r.leb128(&mut v) {
        Err(e) => Err(e),
        Ok(_) => {
            proof {
                let (w, _t) = stream::read_block(s, n as int)->Ok_0;
                assert(stream::ints32(v@) =~= Seq::new(n as nat, |i: int| (w[i] as i32) as int));
            }
            Ok(v)
        },
    }
}

/// One plain block of bytes.
fn read8(r: &mut NetReader, n: usize) -> (res: Result<Vec<i8>, NetError>)
    requires
        old(r).wf(),
    ensures
        final(r).wf(),
        final(r).data@ == old(r).data@,
        res.is_ok() ==> final(r).at >= old(r).at,
        (match res {
            Ok(v) => blocks::taken(Block::Plain8, old(r).rest(), n as int) matches Ok((w, t))
                && stream::ints8(v@) == w && final(r).at == old(r).at + t && v@.len() == n,
            Err(e) => blocks::taken(Block::Plain8, old(r).rest(), n as int) == Err::<
                (Seq<int>, int),
                NetError,
            >(e),
        }),
{
    proof {
        reveal(blocks::taken);
    }
    let mut v = zeros(n);
    match r.i8s(&mut v) {
        Err(e) => Err(e),
        Ok(_) => Ok(v),
    }
}

impl FeatureTransformer {
    /// Read the parameters in the order of the file.
    #[verifier::rlimit(60)]
    pub fn read(&mut self, r: &mut NetReader) -> (res: Result<(), NetError>)
        requires
            old(self).wf(),
            old(r).wf(),
        ensures
            final(self).wf(),
            final(r).wf(),
            final(r).data@ == old(r).data@,
            (match res {
                Ok(_) => blocks::taken_upto(old(r).rest(), transformer_layout(), 7) == Ok::<
                    (Seq<Seq<int>>, int),
                    NetError,
                >((final(self).params(), final(r).at - old(r).at)),
                Err(e) => blocks::taken_upto(old(r).rest(), transformer_layout(), 7) == Err::<
                    (Seq<Seq<int>>, int),
                    NetError,
                >(e) && *final(self) == *old(self),
            }),
    {
        let ghost s = r.rest();
        let ghost base = r.at as int;
        let ghost lay = transformer_layout();
        let ghost v0: Seq<Seq<int>> = Seq::empty();
        let ghost a0 = 0int;
        proof {
            blocks::lemma_none_taken(s, lay);
        }
        let biases = match read16(r, 1024) {
            Err(e) => {
                proof {
                    blocks::lemma_stop(s, lay, 0, 7, v0, a0, e);
                }
                return Err(e);
            },
            Ok(v) => v,
        };
        let ghost w0 = stream::ints16(biases@);
        let ghost a1 = r.at - base;
        let ghost v1 = v0.push(w0);
        proof {
            blocks::lemma_next(s, lay, 0, v0, a0, w0, a1 - a0);
            assert(r.rest() =~= s.subrange(a1, s.len() as int));
        }
        let mut threats = match read8(r, 61243392) {
            Err(e) => {
                proof {
                    blocks::lemma_stop(s, lay, 1, 7, v1, a1, e);
                }
                return Err(e);
            },
            Ok(v) => v,
        };
        let ghost w1 = stream::ints8(threats@);
        let ghost a2 = r.at - base;
        let ghost v2 = v1.push(w1);
        proof {
            blocks::lemma_next(s, lay, 1, v1, a1, w1, a2 - a1);
            assert(r.rest() =~= s.subrange(a2, s.len() as int));
        }
        let mut threat_psqt = match read32(r, 478464) {
            Err(e) => {
                proof {
                    blocks::lemma_stop(s, lay, 2, 7, v2, a2, e);
                }
                return Err(e);
            },
            Ok(v) => v,
        };
        let ghost w2 = stream::ints32(threat_psqt@);
        let ghost a3 = r.at - base;
        let ghost v3 = v2.push(w2);
        proof {
            blocks::lemma_next(s, lay, 2, v2, a2, w2, a3 - a2);
            assert(r.rest() =~= s.subrange(a3, s.len() as int));
        }
        let mut pairs = match read8(r, 4669440) {
            Err(e) => {
                proof {
                    blocks::lemma_stop(s, lay, 3, 7, v3, a3, e);
                }
                return Err(e);
            },
            Ok(v) => v,
        };
        let ghost w3 = stream::ints8(pairs@);
        let ghost a4 = r.at - base;
        let ghost v4 = v3.push(w3);
        proof {
            blocks::lemma_next(s, lay, 3, v3, a3, w3, a4 - a3);
            assert(r.rest() =~= s.subrange(a4, s.len() as int));
        }
        let mut pair_psqt = match read32(r, 36480) {
            Err(e) => {
                proof {
                    blocks::lemma_stop(s, lay, 4, 7, v4, a4, e);
                }
                return Err(e);
            },
            Ok(v) => v,
        };
        let ghost w4 = stream::ints32(pair_psqt@);
        let ghost a5 = r.at - base;
        let ghost v5 = v4.push(w4);
        proof {
            blocks::lemma_next(s, lay, 4, v4, a4, w4, a5 - a4);
            assert(r.rest() =~= s.subrange(a5, s.len() as int));
        }
        let weights = match read16(r, 23068672) {
            Err(e) => {
                proof {
                    blocks::lemma_stop(s, lay, 5, 7, v5, a5, e);
                }
                return Err(e);
            },
            Ok(v) => v,
        };
        let ghost w5 = stream::ints16(weights@);
        let ghost a6 = r.at - base;
        let ghost v6 = v5.push(w5);
        proof {
            blocks::lemma_next(s, lay, 5, v5, a5, w5, a6 - a5);
            assert(r.rest() =~= s.subrange(a6, s.len() as int));
        }
        let psqt = match read32(r, 180224) {
            Err(e) => {
                proof {
                    blocks::lemma_stop(s, lay, 6, 7, v6, a6, e);
                }
                return Err(e);
            },
            Ok(v) => v,
        };
        let ghost w6 = stream::ints32(psqt@);
        let ghost a7 = r.at - base;
        let ghost v7 = v6.push(w6);
        proof {
            blocks::lemma_next(s, lay, 6, v6, a6, w6, a7 - a6);
            assert(r.rest() =~= s.subrange(a7, s.len() as int));
        }
        threats.append(&mut pairs);
        threat_psqt.append(&mut pair_psqt);
        self.biases = biases;
        self.weights = weights;
        self.threat_and_pp_weights = threats;
        self.psqt_weights = psqt;
        self.threat_and_pp_psqt_weights = threat_psqt;
        proof {
            let tp = stream::ints8(self.threat_and_pp_weights@);
            let tq = stream::ints32(self.threat_and_pp_psqt_weights@);
            assert(tp.subrange(0, 61243392) =~= w1);
            assert(tp.subrange(61243392, 65912832) =~= w3);
            assert(tq.subrange(0, 478464) =~= w2);
            assert(tq.subrange(478464, 514944) =~= w4);
            assert(self.params() =~= v7);
        }
        Ok(())
    }
}

impl FeatureTransformer {
    pub proof fn lemma_params(&self)
        requires
            self.wf(),
        ensures
            blocks::fills(transformer_layout(), self.params()),
    {
        let vs = self.params();
        let lay = transformer_layout();
        assert forall|i: int| 0 <= i < lay.len() implies #[trigger] vs[i].len() == lay[i].1
            && blocks::storable(lay[i].0, vs[i]) by {
            assert(i == 0 || i == 1 || i == 2 || i == 3 || i == 4 || i == 5 || i == 6);
        }
    }

    /// Write the parameters in the form that [`FeatureTransformer::read`] takes.
    #[verifier::rlimit(40)]
    pub fn write(&self, w: &mut NetWriter) -> (res: Result<(), NetError>)
        requires
            self.wf(),
        ensures
            res.is_ok(),
            final(w).out@ == old(w).out@ + blocks::stored_upto(
                transformer_layout(),
                self.params(),
                7,
            ),
    {
        let ghost start = w.out@;
        let ghost lay = transformer_layout();
        let ghost vs = self.params();
        proof {
            self.lemma_params();
            assert(vs[0].len() == 1024 && vs[2].len() == 478464 && vs[4].len() == 36480
                && vs[5].len() == 23068672 && vs[6].len() == 180224);
            blocks::lemma_payload_len(vs[0]);
            blocks::lemma_payload_len(vs[2]);
            blocks::lemma_payload_len(vs[4]);
            blocks::lemma_payload_len(vs[5]);
            blocks::lemma_payload_len(vs[6]);
            assert(start + blocks::stored_upto(lay, vs, 0) =~= start);
        }
        let tp = self.threat_and_pp_weights.as_slice();
        let tq = self.threat_and_pp_psqt_weights.as_slice();
        let part = self.biases.as_slice();
        assert(stream::ints16(part@) =~= vs[0]);
        match w.leb128_i16(part) {
            Err(e) => return Err(e),
            Ok(_) => {},
        }
        assert(w.out@ =~= start + blocks::stored_upto(lay, vs, 1));
        let part = slice_subrange(tp, 0, 61243392);
        assert(stream::ints8(part@) =~= vs[1]);
        match w.i8s(part) {
            Err(e) => return Err(e),
            Ok(_) => {},
        }
        assert(w.out@ =~= start + blocks::stored_upto(lay, vs, 2));
        let part = slice_subrange(tq, 0, 478464);
        assert(stream::ints32(part@) =~= vs[2]);
        match w.leb128(part) {
            Err(e) => return Err(e),
            Ok(_) => {},
        }
        assert(w.out@ =~= start + blocks::stored_upto(lay, vs, 3));
        let part = slice_subrange(tp, 61243392, 65912832);
        assert(stream::ints8(part@) =~= vs[3]);
        match w.i8s(part) {
            Err(e) => return Err(e),
            Ok(_) => {},
        }
        assert(w.out@ =~= start + blocks::stored_upto(lay, vs, 4));
        let part = slice_subrange(tq, 478464, 514944);
        assert(stream::ints32(part@) =~= vs[4]);
        match w.leb128(part) {
            Err(e) => return Err(e),
            Ok(_) => {},
        }
        assert(w.out@ =~= start + blocks::stored_upto(lay, vs, 5));
        let part = self.weights.as_slice();
        assert(stream::ints16(part@) =~= vs[5]);
        match w.leb128_i16(part) {
            Err(e) => return Err(e),
            Ok(_) => {},
        }
        assert(w.out@ =~= start + blocks::stored_upto(lay, vs, 6));
        let part = self.psqt_weights.as_slice();
        assert(stream::ints32(part@) =~= vs[6]);
        match w.leb128(part) {
            Err(e) => return Err(e),
            Ok(_) => {},
        }
        assert(w.out@ =~= start + blocks::stored_upto(lay, vs, 7));
        Ok(())
    }
}

/// Reading back what was written gives every parameter back.
pub proof fn law_transformer_round_trip(ft: &FeatureTransformer, rest: Seq<u8>)
    requires
        ft.wf(),
    ensures
        ({
            let bytes = blocks::stored_upto(transformer_layout(), ft.params(), 7);
            blocks::taken_upto(bytes + rest, transformer_layout(), 7) == Ok::<
                (Seq<Seq<int>>, int),
                NetError,
            >((ft.params(), bytes.len() as int))
        }),
{
    ft.lemma_params();
    blocks::law_layout_round_trip(transformer_layout(), ft.params(), 7, rest);
    assert(ft.params().subrange(0, 7) =~= ft.params());
}

// ---------------------------------------------------------------------------
// Rows
// ---------------------------------------------------------------------------

/// The weight that every feature has in column `j` of a table with rows of `width`.
pub open spec fn column(w: Seq<int>, width: int, j: int) -> spec_fn(int) -> int {
    |x: int| w[x * width + j]
}

/// A sum with a sign.
pub open spec fn with_sign(add: bool, x: int) -> int {
    if add {
        x
    } else {
        -x
    }
}

/// Adding in 16 bits is adding and cutting.
pub proof fn lemma_wrap16(a: int, b: int)
    ensures
        wrap16(wrap16(a) + b) == wrap16(a + b),
        -0x8000 <= wrap16(a) < 0x8000,
        -0x8000 <= a < 0x8000 ==> wrap16(a) == a,
{
}

proof fn lemma_cell(x: int, width: int, j: int, n: int)
    requires
        0 <= x < n,
        0 <= j < width,
    ensures
        0 <= x * width + j < n * width,
{
    assert(0 <= x * width && x * width + width <= n * width) by (nonlinear_arith)
        requires
            0 <= x < n,
            0 <= width,
    ;
}

/// Add one king-piece row to an accumulator, or take it away.
fn apply_row16(w: &Vec<i16>, index: usize, add: bool, acc: &mut Vec<i16>)
    requires
        w@.len() == L1 * HALFKA_DIMENSIONS,
        index < HALFKA_DIMENSIONS,
        old(acc)@.len() == L1,
    ensures
        final(acc)@.len() == L1,
        forall|j: int|
            0 <= j < L1 ==> #[trigger] final(acc)@[j] == wrap16(
                old(acc)@[j] + with_sign(add, w@[index * 1024 + j] as int),
            ),
{
    let ghost start = acc@;
    let base: usize = index * L1;
    let mut j: usize = 0;
    while j < L1
        invariant
            j <= L1,
            start.len() == L1,
            w@.len() == L1 * HALFKA_DIMENSIONS,
            base == index * 1024,
            index < HALFKA_DIMENSIONS,
            acc@.len() == L1,
            forall|k: int|
                0 <= k < j ==> #[trigger] acc@[k] == wrap16(
                    start[k] + with_sign(add, w@[index * 1024 + k] as int),
                ),
            forall|k: int| j <= k < L1 ==> #[trigger] acc@[k] == start[k],
        decreases L1 - j,
    {
        let v = acc[j];
        let x = w[base + j];
        if add {
            acc.set(j, v.wrapping_add(x));
        } else {
            acc.set(j, v.wrapping_sub(x));
        }
        j += 1;
    }
}

/// Add one threat or pawn-pair row to an accumulator, or take it away.
fn apply_row8(w: &Vec<i8>, index: usize, add: bool, acc: &mut Vec<i16>)
    requires
        w@.len() == L1 * THREAT_AND_PP_DIMENSIONS,
        index < THREAT_AND_PP_DIMENSIONS,
        old(acc)@.len() == L1,
    ensures
        final(acc)@.len() == L1,
        forall|j: int|
            0 <= j < L1 ==> #[trigger] final(acc)@[j] == wrap16(
                old(acc)@[j] + with_sign(add, w@[index * 1024 + j] as int),
            ),
{
    let ghost start = acc@;
    let base: usize = index * L1;
    let mut j: usize = 0;
    while j < L1
        invariant
            j <= L1,
            start.len() == L1,
            w@.len() == L1 * THREAT_AND_PP_DIMENSIONS,
            base == index * 1024,
            index < THREAT_AND_PP_DIMENSIONS,
            acc@.len() == L1,
            forall|k: int|
                0 <= k < j ==> #[trigger] acc@[k] == wrap16(
                    start[k] + with_sign(add, w@[index * 1024 + k] as int),
                ),
            forall|k: int| j <= k < L1 ==> #[trigger] acc@[k] == start[k],
        decreases L1 - j,
    {
        let v = acc[j];
        let x: i16 = w[base + j] as i16;
        if add {
            acc.set(j, v.wrapping_add(x));
        } else {
            acc.set(j, v.wrapping_sub(x));
        }
        j += 1;
    }
}

/// Add one row to a piece-square head, or take it away.
fn apply_row32(w: &Vec<i32>, index: usize, add: bool, acc: &mut Vec<i32>, Ghost(n): Ghost<int>)
    requires
        w@.len() == 8 * n,
        n <= THREAT_AND_PP_DIMENSIONS,
        index < n,
        old(acc)@.len() == 8,
    ensures
        final(acc)@.len() == 8,
        forall|j: int|
            0 <= j < 8 ==> #[trigger] final(acc)@[j] == layers::wrap32(
                old(acc)@[j] + with_sign(add, w@[index * 8 + j] as int),
            ),
{
    let ghost start = acc@;
    let base: usize = index * 8;
    let mut j: usize = 0;
    while j < 8
        invariant
            j <= 8,
            start.len() == 8,
            w@.len() == 8 * n,
            n <= THREAT_AND_PP_DIMENSIONS,
            base == index * 8,
            index < n,
            acc@.len() == 8,
            forall|k: int|
                0 <= k < j ==> #[trigger] acc@[k] == layers::wrap32(
                    start[k] + with_sign(add, w@[index * 8 + k] as int),
                ),
            forall|k: int| j <= k < 8 ==> #[trigger] acc@[k] == start[k],
        decreases 8 - j,
    {
        let v = acc[j];
        let x = w[base + j];
        if add {
            acc.set(j, v.wrapping_add(x));
        } else {
            acc.set(j, v.wrapping_sub(x));
        }
        j += 1;
    }
}

/// Every index of a list is below `n`.
pub open spec fn below(list: Seq<u32>, n: int) -> bool {
    forall|i: int| 0 <= i < list.len() ==> #[trigger] list[i] < n
}

proof fn lemma_total_step(list: Seq<u32>, i: int, f: spec_fn(int) -> int)
    requires
        0 <= i < list.len(),
    ensures
        features::total(list.subrange(0, i + 1), f) == features::total(list.subrange(0, i), f) + f(
            list[i] as int,
        ),
{
    assert(list.subrange(0, i + 1) =~= list.subrange(0, i).push(list[i]));
    features::lemma_total_push(list.subrange(0, i), list[i], f);
}

impl FeatureTransformer {
    /// The king-piece column `j`.
    pub open spec fn ka_column(&self, j: int) -> spec_fn(int) -> int {
        column(stream::ints16(self.weights@), 1024, j)
    }

    /// The threat and pawn-pair column `j`.
    pub open spec fn tp_column(&self, j: int) -> spec_fn(int) -> int {
        column(stream::ints8(self.threat_and_pp_weights@), 1024, j)
    }

    /// The king-piece column of the piece-square head.
    pub open spec fn ka_head(&self, j: int) -> spec_fn(int) -> int {
        column(stream::ints32(self.psqt_weights@), 8, j)
    }

    /// The threat and pawn-pair column of the piece-square head.
    pub open spec fn tp_head(&self, j: int) -> spec_fn(int) -> int {
        column(stream::ints32(self.threat_and_pp_psqt_weights@), 8, j)
    }

    /// Add the rows of king-piece features, or take them away.
    fn apply_ka(&self, list: &Vec<u32>, add: bool, acc: &mut Vec<i16>)
        requires
            self.wf(),
            below(list@, HALFKA_DIMENSIONS as int),
            old(acc)@.len() == L1,
        ensures
            final(acc)@.len() == L1,
            forall|j: int|
                0 <= j < L1 ==> #[trigger] final(acc)@[j] == wrap16(
                    old(acc)@[j] + with_sign(add, features::total(list@, self.ka_column(j))),
                ),
    {
        let ghost start = acc@;
        let mut i: usize = 0;
        proof {
            assert(list@.subrange(0, 0) =~= Seq::<u32>::empty());
        }
        while i < list.len()
            invariant
                i <= list@.len(),
                self.wf(),
                below(list@, HALFKA_DIMENSIONS as int),
                start.len() == L1,
                acc@.len() == L1,
                forall|j: int|
                    0 <= j < L1 ==> #[trigger] acc@[j] == wrap16(
                        start[j] + with_sign(
                            add,
                            features::total(list@.subrange(0, i as int), self.ka_column(j)),
                        ),
                    ),
            decreases list@.len() - i,
        {
            let ghost before = acc@;
            let index: usize = list[i] as usize;
            apply_row16(&self.weights, index, add, acc);
            proof {
                assert forall|j: int| 0 <= j < L1 implies #[trigger] acc@[j] == wrap16(
                    start[j] + with_sign(
                        add,
                        features::total(list@.subrange(0, i + 1), self.ka_column(j)),
                    ),
                ) by {
                    let f = self.ka_column(j);
                    lemma_total_step(list@, i as int, f);
                    lemma_cell(index as int, 1024, j, HALFKA_DIMENSIONS as int);
                    assert(f(index as int) == self.weights@[index * 1024 + j]);
                    assert(before[j] == wrap16(
                        start[j] + with_sign(
                            add,
                            features::total(list@.subrange(0, i as int), f),
                        ),
                    ));
                }
            }
            i += 1;
        }
        assert(list@.subrange(0, i as int) =~= list@);
    }

    /// Add the rows of threats and pawn pairs, or take them away.
    fn apply_tp(&self, list: &Vec<u32>, add: bool, acc: &mut Vec<i16>)
        requires
            self.wf(),
            below(list@, THREAT_AND_PP_DIMENSIONS as int),
            old(acc)@.len() == L1,
        ensures
            final(acc)@.len() == L1,
            forall|j: int|
                0 <= j < L1 ==> #[trigger] final(acc)@[j] == wrap16(
                    old(acc)@[j] + with_sign(add, features::total(list@, self.tp_column(j))),
                ),
    {
        let ghost start = acc@;
        let mut i: usize = 0;
        proof {
            assert(list@.subrange(0, 0) =~= Seq::<u32>::empty());
        }
        while i < list.len()
            invariant
                i <= list@.len(),
                self.wf(),
                below(list@, THREAT_AND_PP_DIMENSIONS as int),
                start.len() == L1,
                acc@.len() == L1,
                forall|j: int|
                    0 <= j < L1 ==> #[trigger] acc@[j] == wrap16(
                        start[j] + with_sign(
                            add,
                            features::total(list@.subrange(0, i as int), self.tp_column(j)),
                        ),
                    ),
            decreases list@.len() - i,
        {
            let ghost before = acc@;
            let index: usize = list[i] as usize;
            apply_row8(&self.threat_and_pp_weights, index, add, acc);
            proof {
                assert forall|j: int| 0 <= j < L1 implies #[trigger] acc@[j] == wrap16(
                    start[j] + with_sign(
                        add,
                        features::total(list@.subrange(0, i + 1), self.tp_column(j)),
                    ),
                ) by {
                    let f = self.tp_column(j);
                    lemma_total_step(list@, i as int, f);
                    lemma_cell(index as int, 1024, j, THREAT_AND_PP_DIMENSIONS as int);
                    assert(f(index as int) == self.threat_and_pp_weights@[index * 1024 + j]);
                    assert(before[j] == wrap16(
                        start[j] + with_sign(
                            add,
                            features::total(list@.subrange(0, i as int), f),
                        ),
                    ));
                }
            }
            i += 1;
        }
        assert(list@.subrange(0, i as int) =~= list@);
    }

    /// Add the rows of a piece-square head, or take them away.
    fn apply_head(w: &Vec<i32>, list: &Vec<u32>, add: bool, acc: &mut Vec<i32>, Ghost(n): Ghost<int>)
        requires
            w@.len() == 8 * n,
            n <= THREAT_AND_PP_DIMENSIONS,
            below(list@, n),
            old(acc)@.len() == 8,
        ensures
            final(acc)@.len() == 8,
            forall|j: int|
                0 <= j < 8 ==> #[trigger] final(acc)@[j] == layers::wrap32(
                    old(acc)@[j] + with_sign(
                        add,
                        features::total(list@, column(stream::ints32(w@), 8, j)),
                    ),
                ),
    {
        let ghost start = acc@;
        let mut i: usize = 0;
        proof {
            assert(list@.subrange(0, 0) =~= Seq::<u32>::empty());
        }
        while i < list.len()
            invariant
                i <= list@.len(),
                w@.len() == 8 * n,
                n <= THREAT_AND_PP_DIMENSIONS,
                below(list@, n),
                start.len() == 8,
                acc@.len() == 8,
                forall|j: int|
                    0 <= j < 8 ==> #[trigger] acc@[j] == layers::wrap32(
                        start[j] + with_sign(
                            add,
                            features::total(
                                list@.subrange(0, i as int),
                                column(stream::ints32(w@), 8, j),
                            ),
                        ),
                    ),
            decreases list@.len() - i,
        {
            let ghost before = acc@;
            let index: usize = list[i] as usize;
            apply_row32(w, index, add, acc, Ghost(n));
            proof {
                assert forall|j: int| 0 <= j < 8 implies #[trigger] acc@[j] == layers::wrap32(
                    start[j] + with_sign(
                        add,
                        features::total(
                            list@.subrange(0, i + 1),
                            column(stream::ints32(w@), 8, j),
                        ),
                    ),
                ) by {
                    let f = column(stream::ints32(w@), 8, j);
                    lemma_total_step(list@, i as int, f);
                    lemma_cell(index as int, 8, j, n);
                    assert(f(index as int) == w@[index * 8 + j]);
                    assert(before[j] == layers::wrap32(
                        start[j] + with_sign(
                            add,
                            features::total(list@.subrange(0, i as int), f),
                        ),
                    ));
                }
            }
            i += 1;
        }
        assert(list@.subrange(0, i as int) =~= list@);
    }

    /// What the lists change in column `j`.
    pub open spec fn change(
        &self,
        j: int,
        ka_adds: Seq<u32>,
        ka_subs: Seq<u32>,
        tp_adds: Seq<u32>,
        tp_subs: Seq<u32>,
    ) -> int {
        features::total(ka_adds, self.ka_column(j)) - features::total(ka_subs, self.ka_column(j))
            + features::total(tp_adds, self.tp_column(j)) - features::total(
            tp_subs,
            self.tp_column(j),
        )
    }

    /// What the lists change in column `j` of the piece-square head.
    pub open spec fn head_change(
        &self,
        j: int,
        ka_adds: Seq<u32>,
        ka_subs: Seq<u32>,
        tp_adds: Seq<u32>,
        tp_subs: Seq<u32>,
    ) -> int {
        features::total(ka_adds, self.ka_head(j)) - features::total(ka_subs, self.ka_head(j))
            + features::total(tp_adds, self.tp_head(j)) - features::total(
            tp_subs,
            self.tp_head(j),
        )
    }

    /// Apply both kinds of feature to an accumulator and its piece-square head.
    pub fn fold(
        &self,
        acc: &mut Vec<i16>,
        psqt: &mut Vec<i32>,
        ka_adds: &Vec<u32>,
        ka_subs: &Vec<u32>,
        tp_adds: &Vec<u32>,
        tp_subs: &Vec<u32>,
    )
        requires
            self.wf(),
            old(acc)@.len() == L1,
            old(psqt)@.len() == 8,
            below(ka_adds@, HALFKA_DIMENSIONS as int),
            below(ka_subs@, HALFKA_DIMENSIONS as int),
            below(tp_adds@, THREAT_AND_PP_DIMENSIONS as int),
            below(tp_subs@, THREAT_AND_PP_DIMENSIONS as int),
        ensures
            final(acc)@.len() == L1,
            final(psqt)@.len() == 8,
            forall|j: int|
                0 <= j < L1 ==> #[trigger] final(acc)@[j] == wrap16(
                    old(acc)@[j] + self.change(j, ka_adds@, ka_subs@, tp_adds@, tp_subs@),
                ),
            forall|j: int|
                0 <= j < 8 ==> #[trigger] final(psqt)@[j] == layers::wrap32(
                    old(psqt)@[j] + self.head_change(j, ka_adds@, ka_subs@, tp_adds@, tp_subs@),
                ),
    {
        let ghost p0 = psqt@;
        FeatureTransformer::apply_head(
            &self.psqt_weights,
            ka_subs,
            false,
            psqt,
            Ghost(HALFKA_DIMENSIONS as int),
        );
        let ghost p1 = psqt@;
        FeatureTransformer::apply_head(
            &self.psqt_weights,
            ka_adds,
            true,
            psqt,
            Ghost(HALFKA_DIMENSIONS as int),
        );
        let ghost p2 = psqt@;
        FeatureTransformer::apply_head(
            &self.threat_and_pp_psqt_weights,
            tp_subs,
            false,
            psqt,
            Ghost(THREAT_AND_PP_DIMENSIONS as int),
        );
        let ghost p3 = psqt@;
        FeatureTransformer::apply_head(
            &self.threat_and_pp_psqt_weights,
            tp_adds,
            true,
            psqt,
            Ghost(THREAT_AND_PP_DIMENSIONS as int),
        );
        proof {
            assert forall|j: int| 0 <= j < 8 implies #[trigger] psqt@[j] == layers::wrap32(
                p0[j] + self.head_change(j, ka_adds@, ka_subs@, tp_adds@, tp_subs@),
            ) by {
                assert(p1[j] == layers::wrap32(
                    p0[j] - features::total(ka_subs@, self.ka_head(j)),
                ));
                assert(p2[j] == layers::wrap32(
                    p1[j] + features::total(ka_adds@, self.ka_head(j)),
                ));
                assert(p3[j] == layers::wrap32(
                    p2[j] - features::total(tp_subs@, self.tp_head(j)),
                ));
            }
        }
        let ghost q0 = acc@;
        self.apply_ka(ka_subs, false, acc);
        let ghost q1 = acc@;
        self.apply_ka(ka_adds, true, acc);
        let ghost q2 = acc@;
        self.apply_tp(tp_subs, false, acc);
        let ghost q3 = acc@;
        self.apply_tp(tp_adds, true, acc);
        proof {
            assert forall|j: int| 0 <= j < L1 implies #[trigger] acc@[j] == wrap16(
                q0[j] + self.change(j, ka_adds@, ka_subs@, tp_adds@, tp_subs@),
            ) by {
                assert(q1[j] == wrap16(q0[j] - features::total(ka_subs@, self.ka_column(j))));
                assert(q2[j] == wrap16(q1[j] + features::total(ka_adds@, self.ka_column(j))));
                assert(q3[j] == wrap16(q2[j] - features::total(tp_subs@, self.tp_column(j))));
            }
        }
    }
}

} // verus!
