//! What a part's sparse index, its blocks and its codes promise of each other.

use vstd::prelude::*;
use vstd::arithmetic::power2;
use crate::platform::syzygy::pairs;
use crate::platform::syzygy::pairs::PairsData;

verus! {

// ---------------------------------------------------------------------------
// Blocks
// ---------------------------------------------------------------------------

/// How many values the first `n` blocks hold.
pub open spec fn before(d: &PairsData, b: Seq<u8>, n: int) -> int
    decreases n,
{
    if n <= 0 {
        0
    } else {
        before(d, b, n - 1) + d.block_extra(b, n - 1) + 1
    }
}

proof fn lemma_back(d: &PairsData, b: Seq<u8>, block: int, offset: int)
    requires
        0 <= block,
        0 <= before(d, b, block) + offset,
    ensures
        ({
            let r = d.walk_back(b, block, offset);
            &&& 0 <= r.0 <= block
            &&& 0 <= r.1
            &&& before(d, b, r.0) + r.1 == before(d, b, block) + offset
        }),
    decreases block,
{
    if offset < 0 && block > 0 {
        lemma_back(d, b, block - 1, offset + d.block_extra(b, block - 1) + 1);
    }
}

proof fn lemma_on(d: &PairsData, b: Seq<u8>, block: int, offset: int, last: int)
    requires
        0 <= block <= last,
        0 <= offset,
        before(d, b, block) + offset < before(d, b, last + 1),
    ensures
        ({
            let r = d.walk_on(b, block, offset, last);
            &&& block <= r.0 <= last
            &&& 0 <= r.1 <= d.block_extra(b, r.0)
            &&& before(d, b, r.0) + r.1 == before(d, b, block) + offset
        }),
    decreases last - block,
{
    if offset > d.block_extra(b, block) && block < last {
        lemma_on(d, b, block + 1, offset - d.block_extra(b, block) - 1, last);
    }
}

/// A value is in the block that it is located in: where the sparse index tells the truth of the
/// middle of a value's span, the values of the blocks before its block and its offset there come to
/// the value's number, and the block holds so many.
#[verifier::spinoff_prover]
pub proof fn law_values_are_where_they_are_located(d: &PairsData, b: Seq<u8>, idx: int)
    requires
        d.span > 0,
        d.block_length_size > 0,
        0 <= idx < before(d, b, d.block_length_size as int),
        ({
            let k = idx / (d.span as int);
            let near = pairs::le32(b, d.sparse_index + 6 * k);
            &&& 0 <= near < d.block_length_size
            &&& before(d, b, near) + pairs::le16(b, d.sparse_index + 6 * k + 4) == k * d.span
                + d.span as int / 2
        }),
    ensures
        ({
            let r = d.locate(b, idx);
            &&& 0 <= r.0 < d.block_length_size
            &&& 0 <= r.1 <= d.block_extra(b, r.0)
            &&& before(d, b, r.0) + r.1 == idx
        }),
{
    let span = d.span as int;
    let k = idx / span;
    let near = pairs::le32(b, d.sparse_index + 6 * k);
    let last = d.block_length_size - 1;
    let offset = pairs::le16(b, d.sparse_index + 6 * k + 4) + idx % span - span / 2;
    assert(k * span + idx % span == idx) by (nonlinear_arith)
        requires
            k == idx / span,
            span > 0,
    ;
    lemma_back(d, b, near, offset);
    let r = d.walk_back(b, near, offset);
    lemma_on(d, b, r.0, r.1, last);
}

proof fn lemma_before(d: &PairsData, b: Seq<u8>, m: int, n: int)
    requires
        0 <= m <= n,
    ensures
        before(d, b, m) + (n - m) <= before(d, b, n),
    decreases n,
{
    if n > m {
        lemma_before(d, b, m, n - 1);
    }
}

/// No two values are in one place.
pub proof fn law_places_are_not_shared(d: &PairsData, b: Seq<u8>, p: (int, int), q: (int, int))
    requires
        0 <= p.0,
        0 <= q.0,
        0 <= p.1 <= d.block_extra(b, p.0),
        0 <= q.1 <= d.block_extra(b, q.0),
        before(d, b, p.0) + p.1 == before(d, b, q.0) + q.1,
    ensures
        p == q,
{
    if p.0 < q.0 {
        lemma_before(d, b, p.0 + 1, q.0);
    }
    if q.0 < p.0 {
        lemma_before(d, b, q.0 + 1, p.0);
    }
}

// ---------------------------------------------------------------------------
// Codes
// ---------------------------------------------------------------------------

/// The first `n` bits of a window, as a number.
pub open spec fn head(buf: u64, n: int) -> int {
    buf as int / (power2::pow2((64 - n) as nat) as int)
}

/// The lowest code of every length fills a window with nothing behind it.
pub open spec fn based(d: &PairsData) -> bool {
    &&& 0 < d.base64@.len()
    &&& 1 <= d.min_sym_len
    &&& d.min_sym_len + d.base64@.len() <= 65
    &&& forall|i: int|
        0 <= i < d.base64@.len() ==> (#[trigger] d.base64@[i]) as int % (power2::pow2(
            (64 - (i + d.min_sym_len)) as nat,
        ) as int) == 0
}

proof fn lemma_multiple(x: int, p: int, q: int)
    requires
        p >= 1,
        q >= 1,
        x % (p * q) == 0,
        0 <= x,
    ensures
        x % p == 0,
{
    let n = x / (p * q);
    assert(p * q >= 1) by (nonlinear_arith)
        requires
            p >= 1,
            q >= 1,
    ;
    vstd::arithmetic::div_mod::lemma_fundamental_div_mod(x, p * q);
    assert(x == p * (q * n)) by (nonlinear_arith)
        requires
            x == (p * q) * n + 0,
    ;
    vstd::arithmetic::div_mod::lemma_mod_multiples_basic(q * n, p);
    assert(p * (q * n) == (q * n) * p) by (nonlinear_arith);
}

proof fn lemma_based(d: &PairsData, i: int, n: int)
    requires
        based(d),
        0 <= i <= n < d.base64@.len(),
    ensures
        d.base64@[i] as int % (power2::pow2((64 - (n + d.min_sym_len)) as nat) as int) == 0,
{
    let a = (64 - (n + d.min_sym_len)) as nat;
    let c = (n - i) as nat;
    power2::lemma_pow2_adds(a, c);
    power2::lemma_pow2_pos(a);
    power2::lemma_pow2_pos(c);
    assert(a + c == (64 - (i + d.min_sym_len)) as nat);
    assert(d.base64@[i] as int % (power2::pow2((64 - (i + d.min_sym_len)) as nat) as int) == 0);
    lemma_multiple(d.base64@[i] as int, power2::pow2(a) as int, power2::pow2(c) as int);
}

proof fn lemma_side(x: int, y: int, base: int, p: int)
    requires
        p >= 1,
        x / p == y / p,
        base % p == 0,
    ensures
        (x < base) == (y < base),
{
    assert((x < base) == (x / p < base / p)) by (nonlinear_arith)
        requires
            p >= 1,
            base % p == 0,
    ;
    assert((y < base) == (y / p < base / p)) by (nonlinear_arith)
        requires
            p >= 1,
            base % p == 0,
    ;
}

proof fn lemma_length(base64: Seq<u64>, buf: u64, i: int)
    requires
        0 <= i < base64.len(),
    ensures
        i <= pairs::length_from(base64, buf, i) < base64.len(),
        forall|k: int| i <= k < pairs::length_from(base64, buf, i) ==> buf < #[trigger] base64[k],
        pairs::length_from(base64, buf, i) + 1 < base64.len() ==> base64[pairs::length_from(
            base64,
            buf,
            i,
        )] <= buf,
    decreases base64.len() - i,
{
    if i + 1 < base64.len() && buf < base64[i] {
        lemma_length(base64, buf, i + 1);
    }
}

proof fn lemma_same_length(base64: Seq<u64>, buf: u64, other: u64, i: int)
    requires
        0 <= i < base64.len(),
        forall|k: int|
            i <= k <= pairs::length_from(base64, buf, i) ==> (buf < #[trigger] base64[k]) == (other
                < base64[k]),
    ensures
        pairs::length_from(base64, other, i) == pairs::length_from(base64, buf, i),
    decreases base64.len() - i,
{
    lemma_length(base64, buf, i);
    assert((buf < base64[i]) == (other < base64[i]));
    if i + 1 < base64.len() && buf < base64[i] {
        lemma_same_length(base64, buf, other, i + 1);
    }
}

#[verifier::spinoff_prover]
proof fn lemma_difference(x: int, base: int, p: int, full: int)
    requires
        p >= 1,
        0 <= base < full,
        0 <= x < full,
        base % p == 0,
        full % p == 0,
    ensures
        ((x - base) % full) / p == (if x >= base {
            x / p - base / p
        } else {
            x / p - base / p + full / p
        }),
{
    let c = base / p;
    let f = full / p;
    assert(base == c * p && full == f * p) by (nonlinear_arith)
        requires
            c == base / p,
            f == full / p,
            p >= 1,
            base % p == 0,
            full % p == 0,
    ;
    if x >= base {
        vstd::arithmetic::div_mod::lemma_small_mod((x - base) as nat, full as nat);
        assert((x - c * p) / p == x / p - c) by (nonlinear_arith)
            requires
                p >= 1,
        ;
    } else {
        vstd::arithmetic::div_mod::lemma_small_mod((x - base + full) as nat, full as nat);
        vstd::arithmetic::div_mod::lemma_mod_add_multiples_vanish(x - base, full);
        assert((x - c * p + f * p) / p == x / p - c + f) by (nonlinear_arith)
            requires
                p >= 1,
        ;
    }
}

#[verifier::spinoff_prover]
proof fn lemma_symbol(d: &PairsData, b: Seq<u8>, buf: u64)
    requires
        based(d),
    ensures
        ({
            let n = pairs::length_from(d.base64@, buf, 0);
            let m = d.code_bits(buf);
            &&& 0 <= n < d.base64@.len()
            &&& 1 <= m <= 64
            &&& n + 1 < d.base64@.len() ==> d.base64@[n] <= buf
            &&& d.symbol(b, buf) == pairs::le16(b, d.lowest_sym + 2 * n) + head(buf, m) - head(
                d.base64@[n],
                m,
            ) + (if d.base64@[n] <= buf {
                0
            } else {
                0x1_0000_0000_0000_0000int / (power2::pow2((64 - m) as nat) as int)
            })
        }),
{
    let n = pairs::length_from(d.base64@, buf, 0);
    let m = d.code_bits(buf);
    lemma_length(d.base64@, buf, 0);
    let s = (64 - m) as nat;
    let p = power2::pow2(s) as int;
    power2::lemma_pow2_pos(s);
    power2::lemma_pow2_pos(m as nat);
    power2::lemma_pow2_adds(s, m as nat);
    power2::lemma2_to64();
    power2::lemma2_to64_rest();
    assert(power2::pow2(64) == 0x1_0000_0000_0000_0000);
    let q = power2::pow2(m as nat) as int;
    assert(p * q == 0x1_0000_0000_0000_0000);
    vstd::arithmetic::div_mod::lemma_mod_multiples_basic(q, p);
    assert(q * p == p * q) by (nonlinear_arith);
    lemma_based(d, n, n);
    lemma_difference(buf as int, d.base64@[n] as int, p, 0x1_0000_0000_0000_0000);
}

/// A code ends where its length says: two windows that begin with the same code have the same symbol
/// and take the same number of bits, whatever follows.
#[verifier::spinoff_prover]
pub proof fn law_codes_are_read_to_their_end(d: &PairsData, b: Seq<u8>, buf: u64, other: u64)
    requires
        based(d),
        head(buf, d.code_bits(buf)) == head(other, d.code_bits(buf)),
    ensures
        d.code_bits(other) == d.code_bits(buf),
        d.symbol(b, other) == d.symbol(b, buf),
{
    let n = pairs::length_from(d.base64@, buf, 0);
    let m = d.code_bits(buf);
    lemma_symbol(d, b, buf);
    let p = power2::pow2((64 - m) as nat) as int;
    power2::lemma_pow2_pos((64 - m) as nat);
    assert forall|k: int| 0 <= k <= n implies (buf < #[trigger] d.base64@[k]) == (other
        < d.base64@[k]) by {
        lemma_based(d, k, n);
        lemma_side(buf as int, other as int, d.base64@[k] as int, p);
    }
    lemma_same_length(d.base64@, buf, other, 0);
    lemma_symbol(d, b, other);
    assert((buf < d.base64@[n]) == (other < d.base64@[n]));
}

/// Codes of one length are numbered without gaps: the next code of a length has the next symbol, and
/// different codes of a length have different symbols. The lowest code has the lowest symbol that
/// the part gives for the length.
pub proof fn law_codes_of_a_length_are_consecutive(d: &PairsData, b: Seq<u8>, buf: u64, other: u64)
    requires
        based(d),
        d.code_bits(buf) == d.code_bits(other),
        d.base64@[d.code_bits(buf) - d.min_sym_len] <= buf,
        d.base64@[d.code_bits(buf) - d.min_sym_len] <= other,
    ensures
        d.symbol(b, other) - d.symbol(b, buf) == head(other, d.code_bits(buf)) - head(
            buf,
            d.code_bits(buf),
        ),
        buf == d.base64@[d.code_bits(buf) - d.min_sym_len] ==> d.symbol(b, buf) == pairs::le16(
            b,
            d.lowest_sym + 2 * (d.code_bits(buf) - d.min_sym_len),
        ),
{
    lemma_symbol(d, b, buf);
    lemma_symbol(d, b, other);
}

/// A code has the shortest length whose lowest code is not above it.
pub proof fn law_shorter_codes_are_higher(d: &PairsData, buf: u64, i: int)
    requires
        based(d),
        0 <= i < d.base64@.len(),
        d.base64@[i] <= buf,
    ensures
        d.code_bits(buf) <= i + d.min_sym_len,
{
    lemma_length(d.base64@, buf, 0);
}

/// The symbol that is found holds the offset that is left: no further in than it has values, and no
/// further than was asked.
pub proof fn law_the_symbol_holds_the_offset(
    d: &PairsData,
    b: Seq<u8>,
    buf: u64,
    size: int,
    ptr: int,
    offset: int,
)
    requires
        0 <= offset,
    ensures
        ({
            let r = d.find_symbol(b, buf, size, ptr, offset);
            0 <= r.1 <= d.extra(r.0) && r.1 <= offset
        }),
    decreases offset,
{
    let sym = d.symbol(b, buf);
    let n = d.extra(sym) + 1;
    if offset >= n {
        let bits = d.code_bits(buf);
        let next = if bits < 64 {
            buf << (bits as u64)
        } else {
            0
        };
        let left = size - bits;
        if left > 32 {
            law_the_symbol_holds_the_offset(d, b, next, left, ptr, offset - n);
        } else {
            let shift = 32 - left;
            let filled = if 0 <= shift < 64 {
                next | ((pairs::be32(b, ptr) as u64) << (shift as u64))
            } else {
                next
            };
            law_the_symbol_holds_the_offset(d, b, filled, left + 32, ptr + 4, offset - n);
        }
    }
}

} // verus!
