//! What the layers do with their inputs.

use vstd::prelude::*;
use crate::board::position::Position;
use crate::board::types;
use crate::board::types::Piece;
use crate::eval::nnue::layers;
use crate::eval::nnue::layers::AffineLayer;
use crate::eval::nnue::network;
use crate::eval::nnue::network::Network;
use crate::eval::nnue::stack;
use crate::eval::nnue::stack::LayerStack;
use crate::eval::nnue::transformer;

verus! {

// ---------------------------------------------------------------------------
// Activations
// ---------------------------------------------------------------------------

proof fn lemma_quotient(x: int, d: int)
    requires
        d > 0,
    ensures
        x / d * d <= x < (x / d + 1) * d,
        x >= 0 ==> x / d >= 0,
        x < 0 ==> x / d < 0,
{
    assert(x / d * d <= x < (x / d + 1) * d && (x >= 0 ==> x / d >= 0) && (x < 0 ==> x / d < 0))
        by (nonlinear_arith)
        requires
            d > 0,
    ;
}

/// The plain activation is the number of whole steps of `2^shift` in its input: none below zero, and
/// 127 at most.
pub proof fn law_the_activation_counts_steps(x: int, shift: nat)
    ensures
        ({
            let y = layers::relu(x, shift);
            let d = vstd::arithmetic::power2::pow2(shift) as int;
            &&& 0 <= y <= 127
            &&& x < d ==> y == 0
            &&& x >= 127 * d ==> y == 127
            &&& 0 <= x < 128 * d ==> y * d <= x < (y + 1) * d
        }),
{
    vstd::arithmetic::power2::lemma_pow2_pos(shift);
    let d = vstd::arithmetic::power2::pow2(shift) as int;
    let q = x / d;
    lemma_quotient(x, d);
    assert((x < d ==> q < 1) && (x >= 127 * d ==> q >= 127) && (x < 128 * d ==> q < 128))
        by (nonlinear_arith)
        requires
            d > 0,
            q * d <= x < (q + 1) * d,
    ;
}

/// The squared activation is the number of whole steps of `2^(2 * shift + 7)` in the square of its
/// input, 127 at most.
pub proof fn law_the_squared_activation_counts_steps(x: int, shift: nat)
    ensures
        ({
            let y = layers::sqr_relu(x, shift);
            let d = vstd::arithmetic::power2::pow2(2 * shift + 7) as int;
            &&& 0 <= y <= 127
            &&& x * x >= 127 * d ==> y == 127
            &&& x * x < 128 * d ==> y * d <= x * x < (y + 1) * d
        }),
{
    vstd::arithmetic::power2::lemma_pow2_pos(2 * shift + 7);
    let d = vstd::arithmetic::power2::pow2(2 * shift + 7) as int;
    let s = x * x;
    let q = s / d;
    assert(s >= 0) by (nonlinear_arith)
        requires
            s == x * x,
    ;
    lemma_quotient(s, d);
    assert((s >= 127 * d ==> q >= 127) && (s < 128 * d ==> q < 128)) by (nonlinear_arith)
        requires
            d > 0,
            q * d <= s < (q + 1) * d,
    ;
}

/// A greater input never has a smaller activation, the squared one by its size.
pub proof fn law_activations_grow(x: int, y: int, shift: nat)
    requires
        x <= y,
    ensures
        layers::relu(x, shift) <= layers::relu(y, shift),
        0 <= x ==> layers::sqr_relu(x, shift) <= layers::sqr_relu(y, shift),
{
    vstd::arithmetic::power2::lemma_pow2_pos(shift);
    vstd::arithmetic::power2::lemma_pow2_pos(2 * shift + 7);
    vstd::arithmetic::div_mod::lemma_div_is_ordered(
        x,
        y,
        vstd::arithmetic::power2::pow2(shift) as int,
    );
    if 0 <= x {
        assert(x * x <= y * y) by (nonlinear_arith)
            requires
                0 <= x <= y,
        ;
        vstd::arithmetic::div_mod::lemma_div_is_ordered(
            x * x,
            y * y,
            vstd::arithmetic::power2::pow2(2 * shift + 7) as int,
        );
    }
}

// ---------------------------------------------------------------------------
// Layers
// ---------------------------------------------------------------------------

proof fn lemma_dot_change(l: &AffineLayer, o: int, x: Seq<u8>, i: int, v: u8, n: int)
    requires
        0 <= i < x.len(),
        n <= x.len(),
    ensures
        l.dot(o, x.update(i, v), n) == l.dot(o, x, n) + (if i < n {
            l.weight(o, i) * (v - x[i])
        } else {
            0
        }),
    decreases n,
{
    if n > 0 {
        lemma_dot_change(l, o, x, i, v, n - 1);
        if i == n - 1 {
            let w = l.weight(o, i);
            assert(w * (v - x[i]) == w * v - w * x[i]) by (nonlinear_arith);
        }
    }
}

/// An input that grows by one moves an output by its weight, in 32 bits; an input beyond the layer's
/// width moves nothing.
pub proof fn law_an_input_counts_by_its_weight(l: &AffineLayer, o: int, x: Seq<u8>, i: int, v: u8)
    requires
        l.input_dims <= x.len(),
        0 <= i < x.len(),
    ensures
        i < l.input_dims ==> l.output(o, x.update(i, v)) == layers::wrap32(
            l.output(o, x) + l.weights@[o * l.padded_dims + i] * (v - x[i]),
        ),
        i >= l.input_dims ==> l.output(o, x.update(i, v)) == l.output(o, x),
{
    lemma_dot_change(l, o, x, i, v, l.input_dims as int);
    layers::lemma_wrap32(
        l.biases@[o] + l.dot(o, x, l.input_dims as int),
        l.weight(o, i) * (v - x[i]),
    );
}

proof fn lemma_dot_silent(l: &AffineLayer, o: int, x: Seq<u8>, n: int)
    requires
        n <= x.len(),
        forall|i: int| 0 <= i < n ==> #[trigger] x[i] == 0,
    ensures
        l.dot(o, x, n) == 0,
    decreases n,
{
    if n > 0 {
        lemma_dot_silent(l, o, x, n - 1);
        let w = l.weight(o, n - 1);
        assert(x[n - 1] == 0);
        assert(w * 0 == 0) by (nonlinear_arith);
    }
}

/// A layer that hears nothing answers with its biases.
pub proof fn law_silence_gives_the_biases(l: &AffineLayer, o: int, x: Seq<u8>)
    requires
        l.shaped(),
        l.input_dims <= x.len(),
        0 <= o < l.output_dims,
        forall|i: int| 0 <= i < l.input_dims ==> #[trigger] x[i] == 0,
    ensures
        l.output(o, x) == l.biases@[o],
{
    lemma_dot_silent(l, o, x, l.input_dims as int);
}

// ---------------------------------------------------------------------------
// A head
// ---------------------------------------------------------------------------

proof fn lemma_dot_single(l: &AffineLayer, x: Seq<u8>, i: int, n: int)
    requires
        n <= x.len(),
        0 <= i,
        forall|k: int| 0 <= k < n && k != i ==> #[trigger] l.weight(0, k) == 0,
    ensures
        l.dot(0, x, n) == (if i < n {
            l.weight(0, i) * x[i]
        } else {
            0
        }),
    decreases n,
{
    if n > 0 {
        lemma_dot_single(l, x, i, n - 1);
        if n - 1 != i {
            assert(l.weight(0, n - 1) == 0);
            let v = x[n - 1];
            assert(0 * v == 0) by (nonlinear_arith);
        }
    }
}

/// What input `i` of the last layer carries: the squared and the plain activations of the first
/// layer's outputs, then those of the second's.
pub open spec fn carried(st: &LayerStack, x: Seq<u8>, i: int) -> int {
    let a = stack::outputs(&st.fc_0, x);
    let b = stack::outputs(&st.fc_1, stack::both_of(a, 7));
    if i < 32 {
        layers::sqr_relu(a[i], 7)
    } else if i < 64 {
        layers::relu(a[i - 32], 7)
    } else if i < 96 {
        layers::sqr_relu(b[i - 64], 6)
    } else {
        layers::relu(b[i - 96], 6)
    }
}

/// A head whose last layer listens to a single input scores what that input carries, times its
/// weight, with the bypass of the first layer's last two outputs beside it; 16384 of the sum are
/// 9600 of the score.
#[verifier::spinoff_prover]
pub proof fn law_the_last_layer_hears_both_layers(st: &LayerStack, x: Seq<u8>, i: int)
    requires
        st.wf(),
        0 <= i < 128,
        st.fc_2.biases@[0] == 0,
        forall|k: int| 0 <= k < 128 && k != i ==> #[trigger] st.fc_2.weight(0, k) == 0,
        -0x4000_0000 <= st.fc_0.output(30, x) <= 0x4000_0000,
        -0x3fff_0000 <= st.fc_0.output(31, x) <= 0x3fff_0000,
    ensures
        st.score(x) == types::trunc_div(
            (st.fc_2.weight(0, i) * carried(st, x, i) + st.fc_0.output(30, x) - st.fc_0.output(
                31,
                x,
            )) * 9600,
            16384,
        ),
{
    let a = stack::outputs(&st.fc_0, x);
    let first = stack::both_of(a, 7);
    let b = stack::outputs(&st.fc_1, first);
    let second = stack::both_of(b, 6);
    let y = first + second;
    lemma_dot_single(&st.fc_2, y, i, 128);
    assert(a.len() == 32 && b.len() == 32 && y.len() == 128);
    if i < 64 {
        assert(y[i] == first[i]);
    } else {
        assert(y[i] == second[i - 64]);
    }
    if i < 32 {
        law_the_squared_activation_counts_steps(a[i], 7);
    } else if i < 64 {
        law_the_activation_counts_steps(a[i - 32], 7);
    } else if i < 96 {
        law_the_squared_activation_counts_steps(b[i - 64], 6);
    } else {
        law_the_activation_counts_steps(b[i - 96], 6);
    }
    let v = carried(st, x, i);
    assert(0 <= v <= 127 && y[i] == v);
    let w = st.fc_2.weight(0, i);
    assert(-128 <= w <= 127);
    assert(-16256 <= w * v <= 16256) by (nonlinear_arith)
        requires
            -128 <= w <= 127,
            0 <= v <= 127,
    ;
    assert(a[30] == st.fc_0.output(30, x) && a[31] == st.fc_0.output(31, x));
}

// ---------------------------------------------------------------------------
// Which head
// ---------------------------------------------------------------------------

/// The heads follow the number of pieces, four at a time: the kings alone, up to four pieces, have
/// the first, a full board the last of eight.
pub proof fn law_heads_follow_the_pieces(b: Seq<Piece>)
    requires
        1 <= network::pieces(b) <= 32,
    ensures
        0 <= network::bucket_of(b) < 8,
        4 * network::bucket_of(b) < network::pieces(b) <= 4 * network::bucket_of(b) + 4,
{
}

/// The score of a head in the engine's unit: a sixteenth of the head's, with its sign.
pub proof fn law_head_scores_are_scaled_alike(net: &Network, pos: &Position, k: int, v: int)
    ensures
        transformer::psqt_of(&net.transformer, pos.board@, pos.side_to_move, k) == 16
            * v ==> net.psqt_in(pos, k) == v,
        net.stacks@[k].score(
            transformer::transformed_of(
                &net.transformer,
                pos.board@,
                pos.side_to_move,
            ),
        ) == 16 * v ==> net.positional_in(pos, k) == v,
{
}

} // verus!
