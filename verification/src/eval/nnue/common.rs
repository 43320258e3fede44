//! Constants, and the byte encodings that a network file is made of.
//!
//! A network is a flat stream of bytes: little-endian words, plain blocks, and blocks
//! compressed as signed LEB128. The reader takes bytes off the front of a slice; the writer
//! produces exactly what the reader takes.

use vstd::prelude::*;
use vstd::array::array_fill_for_copy_types;
use vstd::string::StringExecFns;

verus! {

/// The format version word that every network begins with.
pub const VERSION: u32 = 0x6A44_8AFA;

/// Transformed feature dimensions for one side.
pub const L1: usize = 1024;

/// Outputs of the first fully connected layer.
pub const L2: usize = 32;

/// Outputs of the second fully connected layer.
pub const L3: usize = 32;

/// Material buckets of the piece-square head.
pub const PSQT_BUCKETS: usize = 8;

/// Independent output heads, selected by the same bucket.
pub const LAYER_STACKS: usize = 8;

/// Scales the final output.
pub const OUTPUT_SCALE: i64 = 16;

/// How far a layer's accumulator is shifted down before the activation.
pub const WEIGHT_SCALE_BITS: u32 = 6;

/// Clamp of a feature-transformer output before the pairwise product.
pub const FT_MAX_VAL: i32 = 255;

/// The quantised value of one inside the hidden layers.
pub const HIDDEN_ONE_VAL: i64 = 128;

/// The most that a compressed block's declared length may reserve before a byte is read.
pub const MAX_BLOCK_HINT: usize = 67_108_864;

/// The marker that precedes every compressed block: `COMPRESSED_LEB128`.
pub const LEB128_MAGIC: [u8; 17] = [
    67,
    79,
    77,
    80,
    82,
    69,
    83,
    83,
    69,
    68,
    95,
    76,
    69,
    66,
    49,
    50,
    56,
];

/// What went wrong while reading a network.
#[derive(Clone, Copy, Debug, PartialEq, Eq)]
pub enum NetError {
    /// The leading version word is not [`VERSION`].
    NotANet,
    /// The file is a network, but not for this architecture.
    WrongArchitecture { expected: u32, found: u32 },
    /// A component's own hash word did not match.
    WrongComponent { what: Component, expected: u32, found: u32 },
    /// The file ended before the structure did.
    Truncated,
    /// A compressed block did not begin with the marker.
    NotCompressed,
    /// The file has bytes after the last layer stack.
    TrailingData,
    /// A compressed block declared more bytes than its values take.
    BlockNotConsumed,
}

/// A part of the network with a hash word of its own.
#[derive(Clone, Copy, Debug, PartialEq, Eq)]
pub enum Component {
    FeatureTransformer,
    LayerStack,
}

/// A hexadecimal digit.
pub open spec fn hex_digit(d: int) -> char {
    if d < 10 {
        (48 + d) as char
    } else {
        (87 + d) as char
    }
}

/// The `n` lowest hexadecimal digits of a number, the highest first.
pub open spec fn hex_text(v: int, n: int) -> Seq<char>
    decreases n,
{
    if n <= 0 {
        Seq::empty()
    } else {
        hex_text(v / 16, n - 1).push(hex_digit(v % 16))
    }
}

/// A hash word as it is shown: eight digits behind a prefix.
pub open spec fn hash_text(v: u32) -> Seq<char> {
    "0x"@ + hex_text(v as int, 8)
}

/// The name of a component.
pub open spec fn component_text(what: Component) -> Seq<char> {
    match what {
        Component::FeatureTransformer => "feature transformer"@,
        Component::LayerStack => "layer stack"@,
    }
}

/// Append a hash word as it is shown.
pub fn push_hash(out: &mut String, v: u32)
    ensures
        final(out)@ == old(out)@ + hash_text(v),
{
    out.append("0x");
    let ghost start = out@;
    let mut n: u32 = 0;
    let mut scale: u32 = 0x1000_0000;
    let ghost mut high: int = 0;
    proof {
        reveal_with_fuel(pow16, 9);
        assert(pow16(8) == 0x1_0000_0000);
        assert(start + hex_text(0, 0) =~= start);
    }
    while n < 8
        invariant
            n <= 8,
            scale == pow16(7 - n),
            n < 8 ==> scale > 0,
            high == v as int / pow16(8 - n),
            out@ == start + hex_text(high, n as int),
        decreases 8 - n,
    {
        reveal_with_fuel(pow16, 9);
        let digit: u32 = (v / scale) % 16;
        let c: u8 = if digit < 10 {
            48 + digit as u8
        } else {
            87 + digit as u8
        };
        proof {
            let s = scale as int;
            let w = v as int;
            assert(pow16(8 - n) == 16 * s);
            assert(w / (16 * s) == (w / s) / 16) by (nonlinear_arith)
                requires
                    s > 0,
                    w >= 0,
            ;
            high = w / s;
            assert(hex_text(high, n + 1) == hex_text(high / 16, n as int).push(
                hex_digit(high % 16),
            ));
        }
        out.push(c as char);
        assert(out@ =~= start + hex_text(high, n + 1));
        scale = scale / 16;
        n += 1;
    }
    assert(pow16(0) == 1);
}

/// The powers of sixteen; zero below the first.
spec fn pow16(n: int) -> int
    decreases n,
{
    if n < 0 {
        0
    } else if n == 0 {
        1
    } else {
        16 * pow16(n - 1)
    }
}

impl NetError {
    /// The error in words.
    pub fn message(self) -> (r: String)
        ensures
            r@ == (match self {
                NetError::NotANet => "not an NNUE network file"@,
                NetError::WrongArchitecture { expected, found } => "network architecture "@
                    + hash_text(found) + " does not match "@ + hash_text(expected),
                NetError::WrongComponent { what, expected, found } => component_text(what)
                    + ": hash "@ + hash_text(found) + " does not match "@ + hash_text(expected),
                NetError::Truncated => "network file ends before its structure does"@,
                NetError::NotCompressed => "a weight block is missing its LEB128 marker"@,
                NetError::TrailingData => "network file has trailing data"@,
                NetError::BlockNotConsumed => "a weight block has bytes left after its last value"@,
            }),
    {
        match self {
            NetError::NotANet => "not an NNUE network file".to_string(),
            NetError::WrongArchitecture { expected, found } => {
                let mut s = "network architecture ".to_string();
                push_hash(&mut s, found);
                s.append(" does not match ");
                push_hash(&mut s, expected);
                s
            },
            NetError::WrongComponent { what, expected, found } => {
                let mut s = match what {
                    Component::FeatureTransformer => "feature transformer".to_string(),
                    Component::LayerStack => "layer stack".to_string(),
                };
                s.append(": hash ");
                push_hash(&mut s, found);
                s.append(" does not match ");
                push_hash(&mut s, expected);
                s
            },
            NetError::Truncated => "network file ends before its structure does".to_string(),
            NetError::NotCompressed => "a weight block is missing its LEB128 marker".to_string(),
            NetError::TrailingData => "network file has trailing data".to_string(),
            NetError::BlockNotConsumed => {
                "a weight block has bytes left after its last value".to_string()
            },
        }
    }
}

/// Round `n` up to a multiple of `base`.
pub fn ceil_to_multiple(n: usize, base: usize) -> (r: usize)
    requires
        base > 0,
        n + base <= usize::MAX,
    ensures
        r as int % base as int == 0,
        n <= r < n + base,
{
    let q: usize = (n + base - 1) / base;
    proof {
        let m = (n + base - 1) as int;
        assert(q * base <= m && m < q * base + base && (q * base) % (base as int) == 0)
            by (nonlinear_arith)
            requires
                q == m / base as int,
                base > 0,
                m >= 0,
        ;
    }
    q * base
}

/// An array on the heap with one value everywhere.
pub fn boxed<T: Copy, const N: usize>(fill: T) -> (r: Box<[T; N]>)
    ensures
        r@ == Seq::new(N as nat, |i: int| fill),
{
    let a = array_fill_for_copy_types::<T, N>(fill);
    assert(a@ =~= Seq::new(N as nat, |i: int| fill));
    Box::new(a)
}

/// The text that bytes are read as when everything in them that is not UTF-8 is replaced.
pub uninterp spec fn lossy_text(bytes: Seq<u8>) -> Seq<char>;

/// `String::from_utf8_lossy`: the text of the bytes, which is a function of the bytes alone.
/// Bytes that are UTF-8 are read as what they encode; how an invalid run is replaced is not
/// stated.
#[verifier::external_body]
pub(crate) fn decode_lossy(bytes: &[u8]) -> (r: String)
    ensures
        r@ == lossy_text(bytes@),
        vstd::utf8::valid_utf8(bytes@) ==> r@ == vstd::utf8::decode_utf8(bytes@),
{
    String::from_utf8_lossy(bytes).into_owned()
}

// ---------------------------------------------------------------------------
// Words
// ---------------------------------------------------------------------------

/// The little-endian number that the bytes make.
pub open spec fn le(s: Seq<u8>) -> int
    decreases s.len(),
{
    if s.len() == 0 {
        0
    } else {
        s[0] + 256 * le(s.drop_first())
    }
}

pub proof fn lemma_le_nonneg(s: Seq<u8>)
    ensures
        0 <= le(s),
    decreases s.len(),
{
    if s.len() > 0 {
        lemma_le_nonneg(s.drop_first());
    }
}

/// A number below `2^bits`, given as half of that, read as a signed one.
pub open spec fn signed(v: int, half: int) -> int {
    if v < half {
        v
    } else {
        v - 2 * half
    }
}

/// A signed number as an unsigned one of the same width.
pub open spec fn unsigned(v: int, half: int) -> int {
    if v < 0 {
        v + 2 * half
    } else {
        v
    }
}

/// The `n` little-endian bytes of a number.
pub open spec fn le_bytes(v: int, n: int) -> Seq<u8>
    decreases n,
{
    if n <= 0 {
        Seq::empty()
    } else {
        seq![(v % 256) as u8] + le_bytes(v / 256, n - 1)
    }
}

/// The values of `width` bytes each that a plain block holds.
pub open spec fn plain_values(s: Seq<u8>, width: int, half: int, n: int) -> Seq<int> {
    Seq::new(
        n as nat,
        |i: int| signed(le(s.subrange(width * i, width * i + width)), half),
    )
}

/// The bytes of a plain block.
pub open spec fn plain_bytes(v: Seq<int>, width: int, half: int) -> Seq<u8>
    decreases v.len(),
{
    if v.len() == 0 {
        Seq::empty()
    } else {
        plain_bytes(v.drop_last(), width, half) + le_bytes(unsigned(v.last(), half), width)
    }
}

pub proof fn lemma_le_bytes(v: int, n: int)
    requires
        0 <= n,
        0 <= v,
    ensures
        le_bytes(v, n).len() == n,
        n == 1 && v < 256 ==> le(le_bytes(v, n)) == v,
        n == 2 && v < 65536 ==> le(le_bytes(v, n)) == v,
        n == 3 && v < 0x100_0000 ==> le(le_bytes(v, n)) == v,
        n == 4 && v < 0x1_0000_0000 ==> le(le_bytes(v, n)) == v,
    decreases n,
{
    if n > 0 {
        lemma_le_bytes(v / 256, n - 1);
        let s = le_bytes(v, n);
        assert(s.drop_first() =~= le_bytes(v / 256, n - 1));
        if n == 1 {
            assert(le_bytes(v / 256, 0).len() == 0);
            assert(le(s.drop_first()) == 0);
        }
    }
}

/// A block of plain values gives the values back.
pub proof fn law_plain_blocks_round_trip(v: Seq<int>, width: int, half: int)
    requires
        (width == 1 && half == 128) || (width == 2 && half == 32768) || (width == 4 && half
            == 0x8000_0000),
        forall|i: int| 0 <= i < v.len() ==> -half <= #[trigger] v[i] < half,
    ensures
        plain_bytes(v, width, half).len() == width * v.len(),
        plain_values(plain_bytes(v, width, half), width, half, v.len() as int) == v,
    decreases v.len(),
{
    let b = plain_bytes(v, width, half);
    if v.len() == 0 {
        assert(plain_values(b, width, half, 0) =~= v);
    } else {
        let w = v.drop_last();
        let n = w.len() as int;
        law_plain_blocks_round_trip(w, width, half);
        lemma_le_bytes(unsigned(v.last(), half), width);
        let front = plain_bytes(w, width, half);
        let last = le_bytes(unsigned(v.last(), half), width);
        assert(b == front + last);
        assert(width * (n + 1) == width * n + width) by (nonlinear_arith);
        assert forall|i: int| 0 <= i < v.len() implies #[trigger] plain_values(
            b,
            width,
            half,
            v.len() as int,
        )[i] == v[i] by {
            if i == n {
                assert(b.subrange(width * i, width * i + width) =~= last);
            } else {
                assert(width * i + width <= width * n && 0 <= width * i) by (nonlinear_arith)
                    requires
                        0 <= i < n,
                        width >= 1,
                ;
                assert(b.subrange(width * i, width * i + width) =~= front.subrange(
                    width * i,
                    width * i + width,
                ));
                assert(plain_values(front, width, half, n)[i] == w[i]);
            }
        }
        assert(plain_values(b, width, half, v.len() as int) =~= v);
    }
}

// ---------------------------------------------------------------------------
// Signed LEB128
// ---------------------------------------------------------------------------

/// One group of seven bits joined to a word, with its place taken modulo the word's width.
pub open spec fn leb_join(acc: u32, byte: u8, k: int) -> u32 {
    acc | (((byte % 128) as u32) << (((7 * k) % 32) as u32))
}

/// The word that is complete once its last byte has been joined: a word shorter than 32 bits
/// whose last byte has its sign bit set is extended with ones.
pub open spec fn leb_close(acc: u32, byte: u8, k: int) -> u32 {
    if k < 4 && byte % 128 >= 64 {
        acc | !(((1u32 << ((7 * (k + 1)) as u32)) - 1) as u32)
    } else {
        acc
    }
}

/// The value whose bytes begin at `i`, with `k` bytes of it read into `acc`, and where the
/// next one begins.
pub open spec fn leb_value(s: Seq<u8>, i: int, k: int, acc: u32) -> Option<(u32, int)>
    decreases s.len() - i,
{
    if i < 0 || i >= s.len() {
        None
    } else {
        let joined = leb_join(acc, s[i], k);
        if s[i] < 128 {
            Some((leb_close(joined, s[i], k), i + 1))
        } else {
            leb_value(s, i + 1, k + 1, joined)
        }
    }
}

/// The first `n` values from `i` on, as words, and where the next one begins.
pub open spec fn leb_values(s: Seq<u8>, i: int, n: int) -> Option<(Seq<u32>, int)>
    decreases n,
{
    if n <= 0 {
        Some((Seq::empty(), i))
    } else {
        match leb_values(s, i, n - 1) {
            None => None,
            Some((v, j)) => match leb_value(s, j, 0, 0) {
                None => None,
                Some((w, k)) => Some((v.push(w), k)),
            },
        }
    }
}

/// The bytes of a value: groups of seven bits, the lowest first, until only copies of the
/// sign bit are left.
pub open spec fn leb_bytes(v: int) -> Seq<u8>
    decreases (if v < 0 {
        -v
    } else {
        v
    }),
{
    let low = v % 128;
    let rest = v / 128;
    if (rest == 0 && low < 64) || (rest == -1 && low >= 64) {
        seq![low as u8]
    } else {
        seq![(low + 128) as u8] + leb_bytes(rest)
    }
}

/// The bytes of a sequence of values.
pub open spec fn leb_block(v: Seq<int>) -> Seq<u8>
    decreases v.len(),
{
    if v.len() == 0 {
        Seq::empty()
    } else {
        leb_block(v.drop_last()) + leb_bytes(v.last())
    }
}

/// The place value of group `k`.
spec fn place128(k: int) -> int {
    if k == 0 {
        1
    } else if k == 1 {
        0x80
    } else if k == 2 {
        0x4000
    } else if k == 3 {
        0x20_0000
    } else if k == 4 {
        0x1000_0000
    } else {
        0x8_0000_0000
    }
}

/// Joining a group adds it at its place; the fifth group keeps its four lowest bits.
proof fn lemma_leb_join(acc: u32, byte: u8, k: int)
    requires
        0 <= k <= 4,
        acc < place128(k),
    ensures
        k < 4 ==> leb_join(acc, byte, k) == acc + (byte % 128) * place128(k),
        k == 4 ==> leb_join(acc, byte, k) == acc + (byte % 16) * place128(k),
{
    let p: u32 = (byte % 128) as u32;
    assert((acc < 1u32 ==> acc | (p << 0u32) == acc + p) && (acc < 0x80u32 ==> acc | (p << 7u32)
        == acc + p * 0x80) && (acc < 0x4000u32 ==> acc | (p << 14u32) == acc + p * 0x4000) && (acc
        < 0x20_0000u32 ==> acc | (p << 21u32) == acc + p * 0x20_0000) && (acc < 0x1000_0000u32
        ==> acc | (p << 28u32) == acc + (p % 16) * 0x1000_0000)) by (bit_vector)
        requires
            p < 128,
    ;
    assert((byte % 128) % 16 == byte % 16);
}

/// Extending the sign adds ones above the groups read.
proof fn lemma_leb_close(acc: u32, byte: u8, k: int)
    requires
        0 <= k < 4,
        acc < place128(k + 1),
        byte % 128 >= 64,
    ensures
        leb_close(acc, byte, k) == acc + 0x1_0000_0000 - place128(k + 1),
{
    assert((acc < 0x80u32 ==> acc | !(((1u32 << 7u32) - 1) as u32) == acc + 0x1_0000_0000 - 0x80) && (
    acc < 0x4000u32 ==> acc | !(((1u32 << 14u32) - 1) as u32) == acc + 0x1_0000_0000 - 0x4000) && (acc
        < 0x20_0000u32 ==> acc | !(((1u32 << 21u32) - 1) as u32) == acc + 0x1_0000_0000 - 0x20_0000)
        && (acc < 0x1000_0000u32 ==> acc | !(((1u32 << 28u32) - 1) as u32) == acc + 0x1_0000_0000
        - 0x1000_0000)) by (bit_vector);
}

/// A value's bytes, read from where they begin, give the value back.
proof fn lemma_leb_value(s: Seq<u8>, i: int, k: int, acc: u32, v: int)
    requires
        0 <= k <= 4,
        acc < place128(k),
        -0x8000_0000 <= acc + v * place128(k) < 0x8000_0000,
        0 <= i,
        i + leb_bytes(v).len() <= s.len(),
        forall|j: int| 0 <= j < leb_bytes(v).len() ==> #[trigger] s[i + j] == leb_bytes(v)[j],
    ensures
        ({
            let w = unsigned(acc + v * place128(k), 0x8000_0000);
            leb_value(s, i, k, acc) == Some((w as u32, i + leb_bytes(v).len()))
        }),
    decreases 5 - k,
{
    let low = v % 128;
    let rest = v / 128;
    let bytes = leb_bytes(v);
    assert(s[i + 0] == bytes[0]);
    let byte = s[i];
    assert(byte % 128 == low);
    lemma_leb_join(acc, byte, k);
    let joined = leb_join(acc, byte, k);
    let p = place128(k);
    assert(place128(k + 1) == 128 * p);
    assert(v * p == rest * (128 * p) + low * p) by (nonlinear_arith)
        requires
            v == 128 * rest + low,
    ;
    if k == 4 {
        assert(p == 0x1000_0000);
        assert(v * p == v * 0x1000_0000);
        assert(-8 <= v < 8);
        assert(byte % 16 == low % 16);
    } else {
        assert(low * p <= 127 * p) by (nonlinear_arith)
            requires
                0 <= low <= 127,
                p >= 1,
        ;
        assert(0 <= low * p) by (nonlinear_arith)
            requires
                0 <= low <= 127,
                p >= 1,
        ;
    }
    if (rest == 0 && low < 64) || (rest == -1 && low >= 64) {
        if k < 4 && low >= 64 {
            lemma_leb_close(joined, byte, k);
        }
        assert(leb_value(s, i, k, acc) == Some((leb_close(joined, byte, k), i + 1)));
    } else {
        assert(k < 4);
        let tail = leb_bytes(rest);
        assert(bytes =~= seq![(low + 128) as u8] + tail);
        assert forall|j: int| 0 <= j < tail.len() implies #[trigger] s[i + 1 + j] == tail[j] by {
            assert(s[i + (j + 1)] == bytes[j + 1]);
        }
        lemma_leb_value(s, i + 1, k + 1, joined, rest);
    }
}

/// The bytes of a sequence of values are what the sequence is read back from.
proof fn lemma_leb_block(s: Seq<u8>, v: Seq<int>)
    requires
        forall|i: int| 0 <= i < v.len() ==> -0x8000_0000 <= #[trigger] v[i] < 0x8000_0000,
        leb_block(v).len() <= s.len(),
        forall|j: int| 0 <= j < leb_block(v).len() ==> #[trigger] s[j] == leb_block(v)[j],
    ensures
        leb_values(s, 0, v.len() as int) == Some(
            (Seq::new(v.len(), |i: int| unsigned(v[i], 0x8000_0000) as u32), leb_block(v).len() as int),
        ),
    decreases v.len(),
{
    let f = |i: int| unsigned(v[i], 0x8000_0000) as u32;
    if v.len() == 0 {
        assert(leb_values(s, 0, 0) == Some((Seq::<u32>::empty(), 0int)));
        assert(Seq::new(0, f) =~= Seq::<u32>::empty());
    } else {
        let w = v.drop_last();
        let front = leb_block(w);
        let last = leb_bytes(v.last());
        assert(leb_block(v) == front + last);
        assert forall|j: int| 0 <= j < front.len() implies #[trigger] s[j] == front[j] by {
            assert(s[j] == leb_block(v)[j]);
        }
        lemma_leb_block(s, w);
        assert forall|j: int| 0 <= j < last.len() implies #[trigger] s[front.len() + j] == last[j] by {
            assert(s[front.len() + j] == leb_block(v)[front.len() + j]);
        }
        lemma_leb_value(s, front.len() as int, 0, 0, v.last());
        assert(Seq::new(v.len(), f) =~= Seq::new(
            w.len(),
            |i: int| unsigned(w[i], 0x8000_0000) as u32,
        ).push(unsigned(v.last(), 0x8000_0000) as u32));
    }
}

/// A block of compressed values gives the values back and leaves nothing over.
pub proof fn law_compressed_blocks_round_trip(v: Seq<int>)
    requires
        forall|i: int| 0 <= i < v.len() ==> -0x8000_0000 <= #[trigger] v[i] < 0x8000_0000,
    ensures
        leb_values(leb_block(v), 0, v.len() as int) == Some(
            (Seq::new(v.len(), |i: int| unsigned(v[i], 0x8000_0000) as u32), leb_block(v).len() as int),
        ),
{
    lemma_leb_block(leb_block(v), v);
}

} // verus!
