//! The fully connected layers and their activations.
//!
//! Everything is integer arithmetic on a fixed quantisation: an affine layer computes a bias
//! plus a dot product in 32 bits, and an activation scales the result down and clamps it.

use vstd::prelude::*;
use crate::eval::nnue::common::{ceil_to_multiple, NetError};
use crate::eval::nnue::common;
use crate::eval::nnue::stream::{NetReader, NetWriter};
use crate::eval::nnue::stream;

verus! {

/// A number cut to 32 bits.
pub open spec fn wrap32(x: int) -> int {
    (x + 0x8000_0000) % 0x1_0000_0000 - 0x8000_0000
}

/// Adding in 32 bits is adding and cutting.
pub proof fn lemma_wrap32(a: int, b: int)
    ensures
        wrap32(wrap32(a) + b) == wrap32(a + b),
        -0x8000_0000 <= wrap32(a) < 0x8000_0000,
        -0x8000_0000 <= a < 0x8000_0000 ==> wrap32(a) == a,
{
}

/// The width that a layer's weight rows are stored at.
pub open spec fn padded_width(input: int) -> int {
    ((input + 31) / 32) * 32
}

/// The padded input width: the next multiple of 32.
pub fn padded(input: usize) -> (r: usize)
    requires
        input + 32 <= usize::MAX,
    ensures
        r == padded_width(input as int),
        input <= r < input + 32,
{
    ceil_to_multiple(input, 32)
}

/// A fully connected layer.
#[derive(Debug)]
pub struct AffineLayer {
    pub input_dims: usize,
    pub padded_dims: usize,
    pub output_dims: usize,
    pub biases: Vec<i32>,
    /// One padded row of weights for each output.
    pub weights: Vec<i8>,
    /// The same weights by input: every output's weight for one input, side by side.
    pub sparse: Vec<i8>,
}

impl AffineLayer {
    /// The sizes fit each other and the machine.
    pub open spec fn shaped(&self) -> bool {
        &&& self.input_dims + 32 <= usize::MAX
        &&& self.padded_dims == padded_width(self.input_dims as int)
        &&& self.biases@.len() == self.output_dims
        &&& self.weights@.len() == self.output_dims * self.padded_dims
        &&& self.sparse@.len() == self.input_dims * self.output_dims
    }

    /// The weight of input `i` for output `o`.
    pub open spec fn weight(&self, o: int, i: int) -> int {
        self.weights@[o * self.padded_dims + i] as int
    }

    /// The two copies of the weights agree.
    pub open spec fn wf(&self) -> bool {
        &&& self.shaped()
        &&& forall|o: int, i: int|
            0 <= o < self.output_dims && 0 <= i < self.input_dims ==> self.sparse@[i
                * self.output_dims + o] == #[trigger] self.weight(o, i)
    }

    /// The sum of the first `n` products for output `o`.
    pub open spec fn dot(&self, o: int, input: Seq<u8>, n: int) -> int
        decreases n,
    {
        if n <= 0 {
            0
        } else {
            self.dot(o, input, n - 1) + self.weight(o, n - 1) * input[n - 1]
        }
    }

    /// Output `o`: its bias plus the dot product, in 32 bits.
    pub open spec fn output(&self, o: int, input: Seq<u8>) -> int {
        wrap32(self.biases@[o] + self.dot(o, input, self.input_dims as int))
    }

    /// An unloaded layer: every parameter is zero.
    pub fn new(input_dims: usize, output_dims: usize) -> (r: AffineLayer)
        requires
            input_dims + 32 <= usize::MAX,
            output_dims * padded_width(input_dims as int) <= usize::MAX,
        ensures
            r.wf(),
            r.input_dims == input_dims,
            r.output_dims == output_dims,
            forall|o: int| 0 <= o < output_dims ==> #[trigger] r.biases@[o] == 0,
            forall|k: int| 0 <= k < r.weights@.len() ==> #[trigger] r.weights@[k] == 0,
    {
        let padded_dims: usize = padded(input_dims);
        let mut biases: Vec<i32> = Vec::new();
        while biases.len() < output_dims
            invariant
                biases@.len() <= output_dims,
                forall|o: int| 0 <= o < biases@.len() ==> #[trigger] biases@[o] == 0,
            decreases output_dims - biases@.len(),
        {
            biases.push(0);
        }
        proof {
            assert(input_dims * output_dims <= output_dims * padded_dims) by (nonlinear_arith)
                requires
                    input_dims <= padded_dims,
            ;
        }
        let weights = zeros(output_dims * padded_dims);
        let sparse = zeros(input_dims * output_dims);
        let r = AffineLayer { input_dims, padded_dims, output_dims, biases, weights, sparse };
        proof {
            assert forall|o: int, i: int|
                0 <= o < output_dims && 0 <= i < input_dims implies r.sparse@[i * output_dims + o]
                == #[trigger] r.weight(o, i) by {
                lemma_place(o, i, output_dims as int, padded_dims as int);
                lemma_place(i, o, input_dims as int, output_dims as int);
            }
        }
        r
    }

    /// Fill in the second copy of the weights.
    pub fn rebuild_sparse(&mut self)
        requires
            old(self).shaped(),
        ensures
            final(self).wf(),
            final(self).input_dims == old(self).input_dims,
            final(self).output_dims == old(self).output_dims,
            final(self).biases == old(self).biases,
            final(self).weights == old(self).weights,
    {
        let mut i: usize = 0;
        while i < self.input_dims
            invariant
                i <= self.input_dims,
                self.shaped(),
                self.input_dims == old(self).input_dims,
                self.output_dims == old(self).output_dims,
                self.biases == old(self).biases,
                self.weights == old(self).weights,
                forall|o: int, j: int|
                    0 <= o < self.output_dims && 0 <= j < i ==> self.sparse@[j * self.output_dims
                        + o] == #[trigger] self.weight(o, j),
            decreases self.input_dims - i,
        {
            let mut o: usize = 0;
            while o < self.output_dims
                invariant
                    i < self.input_dims,
                    o <= self.output_dims,
                    self.shaped(),
                    self.input_dims == old(self).input_dims,
                    self.output_dims == old(self).output_dims,
                    self.biases == old(self).biases,
                    self.weights == old(self).weights,
                    forall|p: int, j: int|
                        0 <= p < self.output_dims && 0 <= j < i ==> self.sparse@[j
                            * self.output_dims + p] == #[trigger] self.weight(p, j),
                    forall|p: int|
                        0 <= p < o ==> self.sparse@[i * self.output_dims + p]
                            == #[trigger] self.weight(p, i as int),
                decreases self.output_dims - o,
            {
                proof {
                    lemma_place(
                        o as int,
                        i as int,
                        self.output_dims as int,
                        self.padded_dims as int,
                    );
                    lemma_place(
                        i as int,
                        o as int,
                        self.input_dims as int,
                        self.output_dims as int,
                    );
                }
                let ghost before = *self;
                let size: usize = self.weights.len();
                let slots: usize = self.sparse.len();
                let w: i8 = self.weights[o * self.padded_dims + i];
                let at: usize = i * self.output_dims + o;
                self.sparse.set(at, w);
                proof {
                    assert forall|p: int, j: int|
                        0 <= p < self.output_dims && 0 <= j < i implies self.sparse@[j
                        * self.output_dims + p] == #[trigger] self.weight(p, j) by {
                        assert(before.weight(p, j) == self.weight(p, j));
                        lemma_apart(j, p, i as int, o as int, self.output_dims as int);
                        lemma_place(j, p, self.input_dims as int, self.output_dims as int);
                    }
                    assert forall|p: int| 0 <= p < o + 1 implies self.sparse@[i * self.output_dims
                        + p] == #[trigger] self.weight(p, i as int) by {
                        assert(before.weight(p, i as int) == self.weight(p, i as int));
                    }
                }
                o += 1;
            }
            proof {
                assert forall|p: int, j: int|
                    0 <= p < self.output_dims && 0 <= j < i + 1 implies self.sparse@[j
                    * self.output_dims + p] == #[trigger] self.weight(p, j) by {
                    if j == i {
                        assert(self.weight(p, i as int) == self.weight(p, j));
                    }
                }
            }
            i += 1;
        }
    }

    /// Read the layer's parameters: the biases, then the weight rows with their padding.
    pub fn read(&mut self, r: &mut NetReader) -> (res: Result<(), NetError>)
        requires
            old(self).wf(),
            old(r).wf(),
        ensures
            final(self).wf(),
            final(r).wf(),
            final(r).data@ == old(r).data@,
            final(self).input_dims == old(self).input_dims,
            final(self).output_dims == old(self).output_dims,
            (match res {
                Ok(_) => {
                    let n = old(self).output_dims as int;
                    let k = old(self).output_dims * old(self).padded_dims;
                    let rest = old(r).rest();
                    &&& rest.len() >= 4 * n + k
                    &&& stream::ints32(final(self).biases@) == common::plain_values(
                        rest,
                        4,
                        0x8000_0000,
                        n,
                    )
                    &&& stream::ints8(final(self).weights@) == common::plain_values(
                        rest.subrange(4 * n, rest.len() as int),
                        1,
                        128,
                        k,
                    )
                    &&& final(r).at == old(r).at + 4 * n + k
                },
                Err(e) => {
                    &&& e == NetError::Truncated
                    &&& old(r).rest().len() < 4 * old(self).output_dims + old(self).output_dims
                        * old(self).padded_dims
                },
            }),
    {
        let ghost rest = r.rest();
        let ghost n = self.output_dims as int;
        match r.i32s(&mut self.biases) {
            Err(e) => {
                assert(0 <= self.output_dims * self.padded_dims) by (nonlinear_arith);
                return Err(e);
            },
            Ok(_) => {},
        }
        assert(r.rest() =~= rest.subrange(4 * n, rest.len() as int));
        match r.i8s(&mut self.weights) {
            Err(e) => {
                self.rebuild_sparse();
                return Err(e);
            },
            Ok(_) => {},
        }
        self.rebuild_sparse();
        Ok(())
    }

    /// Write the layer in the form that [`AffineLayer::read`] takes.
    pub fn write(&self, w: &mut NetWriter) -> (res: Result<(), NetError>)
        ensures
            res.is_ok(),
            final(w).out@ == old(w).out@ + common::plain_bytes(
                stream::ints32(self.biases@),
                4,
                0x8000_0000,
            ) + common::plain_bytes(stream::ints8(self.weights@), 1, 128),
    {
        let _ = w.i32s(self.biases.as_slice());
        let _ = w.i8s(self.weights.as_slice());
        Ok(())
    }

    /// `output[o] = bias[o] + sum_i weight[o][i] * input[i]`, walked input by input.
    pub fn propagate(&self, input: &[u8], output: &mut Vec<i32>)
        requires
            self.wf(),
            input@.len() >= self.input_dims,
            old(output)@.len() == self.output_dims,
        ensures
            final(output)@.len() == self.output_dims,
            forall|o: int|
                0 <= o < self.output_dims ==> #[trigger] final(output)@[o] == self.output(o, input@),
    {
        self.seed(output);
        let mut i: usize = 0;
        while i < self.input_dims
            invariant
                i <= self.input_dims,
                self.wf(),
                input@.len() >= self.input_dims,
                output@.len() == self.output_dims,
                self.partial(output@, input@, i as int),
            decreases self.input_dims - i,
        {
            self.add_column(input, i, output);
            i += 1;
        }
    }

    /// The same as [`AffineLayer::propagate`], skipping the inputs that are zero: they
    /// contribute nothing to any output.
    pub fn propagate_sparse(&self, input: &[u8], output: &mut Vec<i32>)
        requires
            self.wf(),
            input@.len() >= self.input_dims,
            old(output)@.len() == self.output_dims,
        ensures
            final(output)@.len() == self.output_dims,
            forall|o: int|
                0 <= o < self.output_dims ==> #[trigger] final(output)@[o] == self.output(o, input@),
    {
        self.seed(output);
        let mut i: usize = 0;
        while i < self.input_dims
            invariant
                i <= self.input_dims,
                self.wf(),
                input@.len() >= self.input_dims,
                output@.len() == self.output_dims,
                self.partial(output@, input@, i as int),
            decreases self.input_dims - i,
        {
            if input[i] != 0 {
                self.add_column(input, i, output);
            } else {
                proof {
                    assert forall|o: int| 0 <= o < self.output_dims implies #[trigger] output@[o]
                        == wrap32(self.biases@[o] + self.dot(o, input@, i + 1)) by {
                        assert(self.dot(o, input@, i + 1) == self.dot(o, input@, i as int)
                            + self.weight(o, i as int) * input@[i as int]);
                    }
                }
            }
            i += 1;
        }
    }

    /// The output holds the sums of the first `n` inputs.
    spec fn partial(&self, output: Seq<i32>, input: Seq<u8>, n: int) -> bool {
        forall|o: int|
            0 <= o < self.output_dims ==> #[trigger] output[o] == wrap32(
                self.biases@[o] + self.dot(o, input, n),
            )
    }

    /// Start the sums from the biases.
    fn seed(&self, output: &mut Vec<i32>)
        requires
            self.wf(),
            old(output)@.len() == self.output_dims,
        ensures
            final(output)@.len() == self.output_dims,
            forall|input: Seq<u8>| self.partial(final(output)@, input, 0),
    {
        let mut o: usize = 0;
        while o < self.output_dims
            invariant
                o <= self.output_dims,
                self.wf(),
                output@.len() == self.output_dims,
                forall|p: int| 0 <= p < o ==> #[trigger] output@[p] == self.biases@[p],
            decreases self.output_dims - o,
        {
            output.set(o, self.biases[o]);
            o += 1;
        }
        proof {
            assert forall|input: Seq<u8>| self.partial(output@, input, 0) by {
                assert forall|p: int| 0 <= p < self.output_dims implies #[trigger] output@[p]
                    == wrap32(self.biases@[p] + self.dot(p, input, 0)) by {
                    lemma_wrap32(self.biases@[p] as int, 0);
                }
            }
        }
    }

    /// Add one input's products to the sums.
    fn add_column(&self, input: &[u8], i: usize, output: &mut Vec<i32>)
        requires
            self.wf(),
            i < self.input_dims,
            input@.len() >= self.input_dims,
            old(output)@.len() == self.output_dims,
            self.partial(old(output)@, input@, i as int),
        ensures
            final(output)@.len() == self.output_dims,
            self.partial(final(output)@, input@, i + 1),
    {
        let x: i32 = input[i] as i32;
        let ghost before = output@;
        let mut o: usize = 0;
        while o < self.output_dims
            invariant
                i < self.input_dims,
                o <= self.output_dims,
                self.wf(),
                x == input@[i as int],
                0 <= x <= 255,
                output@.len() == self.output_dims,
                before.len() == self.output_dims,
                self.partial(before, input@, i as int),
                forall|p: int| o <= p < self.output_dims ==> #[trigger] output@[p] == before[p],
                forall|p: int|
                    0 <= p < o ==> #[trigger] output@[p] == wrap32(
                        self.biases@[p] + self.dot(p, input@, i + 1),
                    ),
            decreases self.output_dims - o,
        {
            proof {
                lemma_place(i as int, o as int, self.input_dims as int, self.output_dims as int);
            }
            let slots: usize = self.sparse.len();
            let w: i32 = self.sparse[i * self.output_dims + o] as i32;
            proof {
                assert(self.weight(o as int, i as int) == w);
                assert(-0x8000 <= w * x <= 0x8000) by (nonlinear_arith)
                    requires
                        -128 <= w <= 127,
                        0 <= x <= 255,
                ;
                let a = self.biases@[o as int] + self.dot(o as int, input@, i as int);
                assert(before[o as int] == wrap32(a));
                lemma_wrap32(a, w * x);
                assert(self.dot(o as int, input@, i + 1) == self.dot(o as int, input@, i as int)
                    + w * x);
            }
            let sum: i32 = output[o].wrapping_add(w * x);
            output.set(o, sum);
            o += 1;
        }
    }

    /// `bias + sum_i weight[i] * input[i]`, for a layer with one output.
    pub fn propagate_one(&self, input: &[u8]) -> (r: i32)
        requires
            self.wf(),
            self.output_dims == 1,
            input@.len() >= self.input_dims,
        ensures
            r == self.output(0, input@),
    {
        let mut output: Vec<i32> = Vec::new();
        output.push(0);
        self.propagate(input, &mut output);
        output[0]
    }

    /// How many bytes of weights and biases the layer holds.
    pub fn weight_bytes(&self) -> (r: usize)
        requires
            self.biases@.len() * 4 + self.weights@.len() <= usize::MAX,
        ensures
            r == self.biases@.len() * 4 + self.weights@.len(),
    {
        self.biases.len() * 4 + self.weights.len()
    }

    /// How many outputs the layer has.
    pub fn output_dims(&self) -> (r: usize)
        ensures
            r == self.output_dims,
    {
        self.output_dims
    }
}

/// A place in a table of `rows` rows and `width` columns lies inside it.
pub proof fn lemma_place(row: int, col: int, rows: int, width: int)
    requires
        0 <= row < rows,
        0 <= col,
        col < width,
    ensures
        0 <= row * width,
        0 <= row * width + col < rows * width,
{
    assert(row * width + width <= rows * width && 0 <= row * width) by (nonlinear_arith)
        requires
            0 <= row < rows,
            0 <= width,
    ;
}

/// Two places in different rows are different.
proof fn lemma_apart(r1: int, c1: int, r2: int, c2: int, width: int)
    requires
        0 <= r1 < r2,
        0 <= c1 < width,
        0 <= c2 < width,
    ensures
        r1 * width + c1 < r2 * width + c2,
{
    assert(r1 * width + width <= r2 * width) by (nonlinear_arith)
        requires
            r1 < r2,
            0 <= width,
    ;
}

/// A vector of zeros.
pub fn zeros(n: usize) -> (r: Vec<i8>)
    ensures
        r@.len() == n,
        forall|k: int| 0 <= k < n ==> #[trigger] r@[k] == 0,
{
    let mut v: Vec<i8> = Vec::new();
    while v.len() < n
        invariant
            v@.len() <= n,
            forall|k: int| 0 <= k < v@.len() ==> #[trigger] v@[k] == 0,
        decreases n - v@.len(),
    {
        v.push(0);
    }
    v
}

/// Reading back what was written gives the parameters back.
pub proof fn law_layers_round_trip(biases: Seq<i32>, weights: Seq<i8>, rest: Seq<u8>)
    ensures
        ({
            let front = common::plain_bytes(stream::ints32(biases), 4, 0x8000_0000);
            let back = common::plain_bytes(stream::ints8(weights), 1, 128);
            let s = front + back + rest;
            &&& front.len() == 4 * biases.len()
            &&& back.len() == weights.len()
            &&& common::plain_values(s, 4, 0x8000_0000, biases.len() as int) == stream::ints32(
                biases,
            )
            &&& common::plain_values(
                s.subrange(4 * biases.len() as int, s.len() as int),
                1,
                128,
                weights.len() as int,
            ) == stream::ints8(weights)
        }),
{
    let b = stream::ints32(biases);
    let w = stream::ints8(weights);
    let front = common::plain_bytes(b, 4, 0x8000_0000);
    let back = common::plain_bytes(w, 1, 128);
    let s = front + back + rest;
    common::law_plain_blocks_round_trip(b, 4, 0x8000_0000);
    common::law_plain_blocks_round_trip(w, 1, 128);
    lemma_front_values(front, back + rest, 4, 0x8000_0000, b.len() as int);
    assert(s =~= front + (back + rest));
    lemma_front_values(back, rest, 1, 128, w.len() as int);
    assert(s.subrange(4 * biases.len() as int, s.len() as int) =~= back + rest);
}

/// What follows a block does not matter to its values.
pub proof fn lemma_front_values(a: Seq<u8>, b: Seq<u8>, width: int, half: int, n: int)
    requires
        width >= 1,
        0 <= n,
        a.len() == width * n,
    ensures
        common::plain_values(a + b, width, half, n) == common::plain_values(a, width, half, n),
{
    assert forall|i: int| 0 <= i < n implies #[trigger] common::plain_values(a + b, width, half, n)[i]
        == common::plain_values(a, width, half, n)[i] by {
        assert(0 <= width * i && width * i + width <= width * n) by (nonlinear_arith)
            requires
                0 <= i < n,
                width >= 1,
        ;
        assert((a + b).subrange(width * i, width * i + width) =~= a.subrange(
            width * i,
            width * i + width,
        ));
    }
    assert(common::plain_values(a + b, width, half, n) =~= common::plain_values(
        a,
        width,
        half,
        n,
    ));
}

// ---------------------------------------------------------------------------
// Activations
// ---------------------------------------------------------------------------

/// A number clamped to the range of an activation.
pub open spec fn clamp127(x: int) -> int {
    if x < 0 {
        0
    } else if x > 127 {
        127
    } else {
        x
    }
}

/// The plain activation: scaled down, rounding toward minus infinity, and clamped.
pub open spec fn relu(x: int, shift: nat) -> int {
    clamp127(x / (vstd::arithmetic::power2::pow2(shift) as int))
}

/// The squared activation: the square scaled down twice and by 128 more, and clamped.
pub open spec fn sqr_relu(x: int, shift: nat) -> int {
    clamp127((x * x) / (vstd::arithmetic::power2::pow2(2 * shift + 7) as int))
}

/// `output[i] = clamp(input[i] >> shift, 0, 127)`.
pub fn clipped_relu(input: &[i32], shift: u32) -> (output: Vec<u8>)
    requires
        shift < 32,
    ensures
        output@.len() == input@.len(),
        forall|i: int|
            0 <= i < input@.len() ==> #[trigger] output@[i] == relu(input@[i] as int, shift as nat),
{
    let mut output: Vec<u8> = Vec::new();
    while output.len() < input.len()
        invariant
            shift < 32,
            output@.len() <= input@.len(),
            forall|i: int|
                0 <= i < output@.len() ==> #[trigger] output@[i] == relu(
                    input@[i] as int,
                    shift as nat,
                ),
        decreases input@.len() - output@.len(),
    {
        let x: i32 = input[output.len()];
        let d = Ghost(vstd::arithmetic::power2::pow2(shift as nat) as int);
        proof {
            vstd::arithmetic::power2::lemma_pow2_pos(shift as nat);
            if x < 0 {
                assert(x as int / d@ < 0) by (nonlinear_arith)
                    requires
                        x < 0,
                        d@ >= 1,
                ;
            } else {
                vstd::bits::lemma_u64_shr_is_div(x as u64, shift as u64);
            }
        }
        let y: u8 = if x < 0 {
            0
        } else {
            let scaled: u64 = (x as u64) >> (shift as u64);
            if scaled > 127 {
                127
            } else {
                scaled as u8
            }
        };
        output.push(y);
    }
    output
}

/// `output[i] = min(127, (input[i] * input[i]) >> (2 * shift + 7))`.
///
/// The seven bits more stand for a division by 127 after squaring.
pub fn sqr_clipped_relu(input: &[i32], shift: u32) -> (output: Vec<u8>)
    requires
        shift <= 8,
    ensures
        output@.len() == input@.len(),
        forall|i: int|
            0 <= i < input@.len() ==> #[trigger] output@[i] == sqr_relu(
                input@[i] as int,
                shift as nat,
            ),
{
    let total: u32 = 2 * shift + 7;
    let mut output: Vec<u8> = Vec::new();
    while output.len() < input.len()
        invariant
            shift <= 8,
            total == 2 * shift + 7,
            output@.len() <= input@.len(),
            forall|i: int|
                0 <= i < output@.len() ==> #[trigger] output@[i] == sqr_relu(
                    input@[i] as int,
                    shift as nat,
                ),
        decreases input@.len() - output@.len(),
    {
        let x: i64 = input[output.len()] as i64;
        proof {
            assert(0 <= x * x <= 0x4000_0000_0000_0000) by (nonlinear_arith)
                requires
                    -0x8000_0000 <= x <= 0x8000_0000,
            ;
            vstd::bits::lemma_u64_shr_is_div((x * x) as u64, total as u64);
            vstd::arithmetic::power2::lemma_pow2_pos(total as nat);
        }
        let scaled: u64 = ((x * x) as u64) >> (total as u64);
        let y: u8 = if scaled > 127 {
            127
        } else {
            scaled as u8
        };
        output.push(y);
    }
    output
}

/// The squared activation does not see the sign.
pub proof fn law_squared_activation_is_symmetric(x: int, shift: nat)
    ensures
        sqr_relu(x, shift) == sqr_relu(-x, shift),
{
    assert(x * x == (-x) * (-x)) by (nonlinear_arith);
}

/// Both activations take zero to zero.
pub proof fn law_zero_is_a_fixed_point(shift: nat)
    ensures
        relu(0, shift) == 0,
        sqr_relu(0, shift) == 0,
{
    vstd::arithmetic::power2::lemma_pow2_pos(shift);
    vstd::arithmetic::power2::lemma_pow2_pos(2 * shift + 7);
}

} // verus!
