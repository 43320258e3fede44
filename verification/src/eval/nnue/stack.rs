//! One output head: three fully connected layers with a skip connection around them.

use vstd::prelude::*;
use crate::eval::nnue::blocks::Block;
use crate::eval::nnue::blocks;
use crate::eval::nnue::common::{NetError, L1, L2, L3, WEIGHT_SCALE_BITS};
use crate::eval::nnue::common;
use crate::eval::nnue::layers::{clipped_relu, sqr_clipped_relu, AffineLayer};
use crate::eval::nnue::layers;
use crate::eval::nnue::stream::{NetReader, NetWriter};
use crate::eval::nnue::stream;
use crate::board::types;

verus! {

/// The width of the last layer's input: both activations of both hidden layers.
pub const CONCAT: usize = 128;

/// One output head.
#[derive(Debug)]
pub struct LayerStack {
    pub fc_0: AffineLayer,
    pub fc_1: AffineLayer,
    pub fc_2: AffineLayer,
}

/// The blocks of a stack in a file: the biases and the weights of each layer.
pub open spec fn stack_layout() -> Seq<(Block, int)> {
    seq![
        (Block::Plain32, 32int),
        (Block::Plain8, 32768int),
        (Block::Plain32, 32int),
        (Block::Plain8, 2048int),
        (Block::Plain32, 1int),
        (Block::Plain8, 128int),
    ]
}

/// Both activations of a layer's output, the squared one first.
pub open spec fn both_of(v: Seq<int>, shift: nat) -> Seq<u8> {
    Seq::new(
        2 * v.len(),
        |i: int|
            (if i < v.len() {
                layers::sqr_relu(v[i], shift)
            } else {
                layers::relu(v[i - v.len()], shift)
            }) as u8,
    )
}

/// The outputs of a layer.
pub open spec fn outputs(l: &AffineLayer, x: Seq<u8>) -> Seq<int> {
    Seq::new(l.output_dims as nat, |o: int| l.output(o, x))
}

impl LayerStack {
    /// Every layer has its shape.
    pub open spec fn wf(&self) -> bool {
        &&& self.fc_0.wf()
        &&& self.fc_1.wf()
        &&& self.fc_2.wf()
        &&& self.fc_0.input_dims == L1
        &&& self.fc_0.output_dims == L2
        &&& self.fc_1.input_dims == 2 * L2
        &&& self.fc_1.output_dims == L3
        &&& self.fc_2.input_dims == CONCAT
        &&& self.fc_2.output_dims == 1
    }

    /// The parameters in the order of the file.
    pub open spec fn params(&self) -> Seq<Seq<int>> {
        seq![
            stream::ints32(self.fc_0.biases@),
            stream::ints8(self.fc_0.weights@),
            stream::ints32(self.fc_1.biases@),
            stream::ints8(self.fc_1.weights@),
            stream::ints32(self.fc_2.biases@),
            stream::ints8(self.fc_2.weights@),
        ]
    }

    /// The score of a set of transformed features.
    ///
    /// The last two outputs of the first layer go around everything and are added as a
    /// difference. The sum is scaled so that one is 9600.
    pub open spec fn score(&self, x: Seq<u8>) -> int {
        let a = outputs(&self.fc_0, x);
        let first = both_of(a, 7);
        let second = both_of(outputs(&self.fc_1, first), 6);
        let fwd = layers::wrap32(
            self.fc_2.output(0, first + second) + layers::wrap32(a[30] - a[31]),
        );
        types::trunc_div(fwd * 9600, 16384)
    }

    /// An unloaded stack: every parameter is zero.
    pub fn new() -> (r: LayerStack)
        ensures
            r.wf(),
            forall|o: int| 0 <= o < 32 ==> #[trigger] r.fc_0.biases@[o] == 0,
            forall|k: int| 0 <= k < r.fc_0.weights@.len() ==> #[trigger] r.fc_0.weights@[k] == 0,
            forall|o: int| 0 <= o < 32 ==> #[trigger] r.fc_1.biases@[o] == 0,
            forall|k: int| 0 <= k < r.fc_1.weights@.len() ==> #[trigger] r.fc_1.weights@[k] == 0,
            r.fc_2.biases@[0] == 0,
            forall|k: int| 0 <= k < r.fc_2.weights@.len() ==> #[trigger] r.fc_2.weights@[k] == 0,
    {
        LayerStack {
            fc_0: AffineLayer::new(L1, L2),
            fc_1: AffineLayer::new(2 * L2, L3),
            fc_2: AffineLayer::new(CONCAT, 1),
        }
    }

    /// How many bytes of weights and biases the stack holds.
    pub fn weight_bytes(&self) -> (r: usize)
        requires
            self.wf(),
        ensures
            r == 35204,
    {
        proof {
            self.lemma_sizes();
        }
        self.fc_0.weight_bytes() + self.fc_1.weight_bytes() + self.fc_2.weight_bytes()
    }

    pub proof fn lemma_sizes(&self)
        requires
            self.wf(),
        ensures
            self.fc_0.biases@.len() == 32,
            self.fc_0.weights@.len() == 32768,
            self.fc_1.biases@.len() == 32,
            self.fc_1.weights@.len() == 2048,
            self.fc_2.biases@.len() == 1,
            self.fc_2.weights@.len() == 128,
            blocks::fills(stack_layout(), self.params()),
    {
        assert(self.fc_0.output_dims * self.fc_0.padded_dims == 32 * 1024) by (nonlinear_arith)
            requires
                self.fc_0.output_dims == 32,
                self.fc_0.padded_dims == 1024,
        ;
        assert(self.fc_1.output_dims * self.fc_1.padded_dims == 32 * 64) by (nonlinear_arith)
            requires
                self.fc_1.output_dims == 32,
                self.fc_1.padded_dims == 64,
        ;
        assert(self.fc_2.output_dims * self.fc_2.padded_dims == 128) by (nonlinear_arith)
            requires
                self.fc_2.output_dims == 1,
                self.fc_2.padded_dims == 128,
        ;
        let vs = self.params();
        let lay = stack_layout();
        assert forall|i: int| 0 <= i < lay.len() implies #[trigger] vs[i].len() == lay[i].1
            && blocks::storable(lay[i].0, vs[i]) by {
            assert(i == 0 || i == 1 || i == 2 || i == 3 || i == 4 || i == 5);
        }
    }

    /// Read the parameters in the order of the file.
    #[verifier::rlimit(40)]
    pub fn read(&mut self, r: &mut NetReader) -> (res: Result<(), NetError>)
        requires
            old(self).wf(),
            old(r).wf(),
        ensures
            final(self).wf(),
            final(r).wf(),
            final(r).data@ == old(r).data@,
            (match res {
                Ok(_) => blocks::taken_upto(old(r).rest(), stack_layout(), 6) == Ok::<
                    (Seq<Seq<int>>, int),
                    NetError,
                >((final(self).params(), final(r).at - old(r).at)) && final(r).at >= old(r).at,
                Err(e) => blocks::taken_upto(old(r).rest(), stack_layout(), 6) == Err::<
                    (Seq<Seq<int>>, int),
                    NetError,
                >(e),
            }),
    {
        let ghost s = r.rest();
        let ghost base = r.at as int;
        let ghost lay = stack_layout();
        let ghost v0: Seq<Seq<int>> = Seq::empty();
        proof {
            self.lemma_sizes();
            blocks::lemma_none_taken(s, lay);
        }
        match self.fc_0.read(r) {
            Err(e) => {
                proof {
                    lemma_layer_fails(s, lay, 0, v0, 0, 32, 32768);
                }
                return Err(e);
            },
            Ok(_) => {},
        }
        let ghost v2 = v0.push(stream::ints32(self.fc_0.biases@)).push(
            stream::ints8(self.fc_0.weights@),
        );
        proof {
            self.lemma_sizes();
            assert(s.subrange(0, s.len() as int) =~= s);
            lemma_layer_read(s, lay, 0, v0, 0, 32, 32768, self.fc_0.biases@, self.fc_0.weights@);
            assert(r.rest() =~= s.subrange(32896, s.len() as int));
        }
        match self.fc_1.read(r) {
            Err(e) => {
                proof {
                    lemma_layer_fails(s, lay, 2, v2, 32896, 32, 2048);
                }
                return Err(e);
            },
            Ok(_) => {},
        }
        let ghost v4 = v2.push(stream::ints32(self.fc_1.biases@)).push(
            stream::ints8(self.fc_1.weights@),
        );
        proof {
            self.lemma_sizes();
            lemma_layer_read(
                s,
                lay,
                2,
                v2,
                32896,
                32,
                2048,
                self.fc_1.biases@,
                self.fc_1.weights@,
            );
            assert(r.rest() =~= s.subrange(35072, s.len() as int));
        }
        match self.fc_2.read(r) {
            Err(e) => {
                proof {
                    lemma_layer_fails(s, lay, 4, v4, 35072, 1, 128);
                }
                return Err(e);
            },
            Ok(_) => {},
        }
        proof {
            self.lemma_sizes();
            lemma_layer_read(s, lay, 4, v4, 35072, 1, 128, self.fc_2.biases@, self.fc_2.weights@);
            assert(self.params() =~= v4.push(stream::ints32(self.fc_2.biases@)).push(
                stream::ints8(self.fc_2.weights@),
            ));
        }
        Ok(())
    }

    /// Write the parameters in the form that [`LayerStack::read`] takes.
    pub fn write(&self, w: &mut NetWriter) -> (res: Result<(), NetError>)
        requires
            self.wf(),
        ensures
            res.is_ok(),
            final(w).out@ == old(w).out@ + blocks::stored_upto(stack_layout(), self.params(), 6),
    {
        let ghost start = w.out@;
        let ghost lay = stack_layout();
        let ghost vs = self.params();
        let _ = self.fc_0.write(w);
        let _ = self.fc_1.write(w);
        let _ = self.fc_2.write(w);
        proof {
            reveal_with_fuel(blocks::stored_upto, 7);
            assert(w.out@ =~= start + blocks::stored_upto(lay, vs, 6));
        }
        Ok(())
    }

    /// The positional score of a set of transformed features.
    #[verifier::spinoff_prover]
    #[verifier::rlimit(60)]
    pub fn propagate(&self, transformed: &[u8]) -> (r: i32)
        requires
            self.wf(),
            transformed@.len() == L1,
        ensures
            r == self.score(transformed@),
    {
        let mut a: Vec<i32> = Vec::new();
        while a.len() < L2
            invariant
                a@.len() <= L2,
            decreases L2 - a@.len(),
        {
            a.push(0);
        }
        let mut c = Vec::<i32>::new();
        while c.len() < L3
            invariant
                c@.len() <= L3,
            decreases L3 - c@.len(),
        {
            c.push(0);
        }
        self.fc_0.propagate_sparse(transformed, &mut a);
        assert(stream::ints32(a@) =~= outputs(&self.fc_0, transformed@));
        let mut concat = both(a.as_slice(), WEIGHT_SCALE_BITS + 1);
        let ghost first = concat@;
        self.fc_1.propagate(concat.as_slice(), &mut c);
        assert(stream::ints32(c@) =~= outputs(&self.fc_1, first));
        let mut second = both(c.as_slice(), WEIGHT_SCALE_BITS);
        let ghost tail = second@;
        concat.append(&mut second);
        assert(concat@ =~= first + tail);
        let last = self.fc_2.propagate_one(concat.as_slice());
        let fwd: i32 = last.wrapping_add(a[30].wrapping_sub(a[31]));
        proof {
            assert(outputs(&self.fc_0, transformed@)[30] == a@[30]);
            assert(outputs(&self.fc_0, transformed@)[31] == a@[31]);
            assert(fwd == layers::wrap32(
                self.fc_2.output(0, first + tail) + layers::wrap32(a@[30] - a@[31]),
            ));
        }
        if fwd < 0 {
            let n: i64 = -(fwd as i64) * 9600 / 16384;
            (-n) as i32
        } else {
            (fwd as i64 * 9600 / 16384) as i32
        }
    }
}

/// Both activations, the squared one first.
fn both(v: &[i32], shift: u32) -> (r: Vec<u8>)
    requires
        shift <= 8,
    ensures
        r@ == both_of(stream::ints32(v@), shift as nat),
{
    let mut r = sqr_clipped_relu(v, shift);
    let mut plain = clipped_relu(v, shift);
    let ghost a = r@;
    let ghost b = plain@;
    r.append(&mut plain);
    proof {
        let n = v@.len() as int;
        assert forall|i: int| 0 <= i < 2 * n implies #[trigger] r@[i] == both_of(
            stream::ints32(v@),
            shift as nat,
        )[i] by {
            if i < n {
                assert(r@[i] == a[i]);
            } else {
                assert(r@[i] == b[i - n]);
            }
        }
        assert(r@ =~= both_of(stream::ints32(v@), shift as nat));
    }
    r
}

/// The two blocks of a layer are there.
proof fn lemma_layer_read(
    s: Seq<u8>,
    lay: Seq<(Block, int)>,
    m: int,
    vs: Seq<Seq<int>>,
    at: int,
    n: int,
    k: int,
    biases: Seq<i32>,
    weights: Seq<i8>,
)
    requires
        0 <= m,
        m + 1 < lay.len(),
        0 <= n,
        0 <= k,
        lay[m] == (Block::Plain32, n),
        lay[m + 1] == (Block::Plain8, k),
        0 <= at,
        blocks::taken_upto(s, lay, m) == Ok::<(Seq<Seq<int>>, int), NetError>((vs, at)),
        at + 4 * n + k <= s.len(),
        ({
            let rest = s.subrange(at, s.len() as int);
            &&& stream::ints32(biases) == common::plain_values(rest, 4, 0x8000_0000, n)
            &&& stream::ints8(weights) == common::plain_values(
                rest.subrange(4 * n, rest.len() as int),
                1,
                128,
                k,
            )
        }),
    ensures
        blocks::taken_upto(s, lay, m + 2) == Ok::<(Seq<Seq<int>>, int), NetError>(
            (vs.push(stream::ints32(biases)).push(stream::ints8(weights)), at + 4 * n + k),
        ),
{
    reveal(blocks::taken);
    let rest = s.subrange(at, s.len() as int);
    blocks::lemma_next(s, lay, m, vs, at, stream::ints32(biases), 4 * n);
    assert(s.subrange(at + 4 * n, s.len() as int) =~= rest.subrange(4 * n, rest.len() as int));
    blocks::lemma_next(
        s,
        lay,
        m + 1,
        vs.push(stream::ints32(biases)),
        at + 4 * n,
        stream::ints8(weights),
        k,
    );
}

/// The bytes end inside the two blocks of a layer.
proof fn lemma_layer_fails(
    s: Seq<u8>,
    lay: Seq<(Block, int)>,
    m: int,
    vs: Seq<Seq<int>>,
    at: int,
    n: int,
    k: int,
)
    requires
        0 <= m,
        m + 1 < lay.len() == 6,
        0 <= n,
        0 <= k,
        lay[m] == (Block::Plain32, n),
        lay[m + 1] == (Block::Plain8, k),
        0 <= at <= s.len(),
        blocks::taken_upto(s, lay, m) == Ok::<(Seq<Seq<int>>, int), NetError>((vs, at)),
        s.len() < at + 4 * n + k,
    ensures
        blocks::taken_upto(s, lay, 6) == Err::<(Seq<Seq<int>>, int), NetError>(
            NetError::Truncated,
        ),
{
    reveal(blocks::taken);
    let rest = s.subrange(at, s.len() as int);
    if rest.len() < 4 * n {
        blocks::lemma_stop(s, lay, m, 6, vs, at, NetError::Truncated);
    } else {
        let v = common::plain_values(rest, 4, 0x8000_0000, n);
        blocks::lemma_next(s, lay, m, vs, at, v, 4 * n);
        blocks::lemma_stop(s, lay, m + 1, 6, vs.push(v), at + 4 * n, NetError::Truncated);
    }
}

/// Reading back what was written gives every parameter back.
pub proof fn law_stack_round_trip(stack: &LayerStack, rest: Seq<u8>)
    requires
        stack.wf(),
    ensures
        ({
            let bytes = blocks::stored_upto(stack_layout(), stack.params(), 6);
            blocks::taken_upto(bytes + rest, stack_layout(), 6) == Ok::<
                (Seq<Seq<int>>, int),
                NetError,
            >((stack.params(), bytes.len() as int))
        }),
{
    stack.lemma_sizes();
    blocks::law_layout_round_trip(stack_layout(), stack.params(), 6, rest);
    assert(stack.params().subrange(0, 6) =~= stack.params());
}

} // verus!
