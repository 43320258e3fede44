//! Facts about single bits of machine words.
//!
//! A 64-bit word stands for a set of squares. `bit` is membership; the lemmas here say what
//! each word operation does to membership, so that nothing above this module reasons about
//! words as numbers.

use vstd::prelude::*;

verus! {

/// Index `i` is a member of the set `b`.
#[verifier::opaque]
pub open spec fn bit(b: u64, i: int) -> bool {
    0 <= i < 64 && (b >> (i as u64)) & 1u64 == 1u64
}

/// The members of `b` from index `i` on, ascending.
pub open spec fn members_from(b: u64, i: int) -> Seq<int>
    decreases 64 - i,
{
    if i >= 64 {
        Seq::empty()
    } else if bit(b, i) {
        seq![i] + members_from(b, i + 1)
    } else {
        members_from(b, i + 1)
    }
}

/// The members of `b`, ascending.
pub open spec fn members(b: u64) -> Seq<int> {
    members_from(b, 0)
}

/// A member is an index below 64.
pub broadcast proof fn lemma_bit_range(b: u64, i: int)
    requires
        #[trigger] bit(b, i),
    ensures
        0 <= i < 64,
{
    reveal(bit);
}

proof fn lemma_word_ops(a: u64, b: u64, i: u64)
    requires
        i < 64,
    ensures
        (((a & b) >> i) & 1 == 1) == ((a >> i) & 1 == 1 && (b >> i) & 1 == 1),
        (((a | b) >> i) & 1 == 1) == ((a >> i) & 1 == 1 || (b >> i) & 1 == 1),
        (((a ^ b) >> i) & 1 == 1) == (((a >> i) & 1 == 1) != ((b >> i) & 1 == 1)),
        (((!a) >> i) & 1 == 1) == !((a >> i) & 1 == 1),
        (0u64 >> i) & 1 == 0,
        (0xffff_ffff_ffff_ffffu64 >> i) & 1 == 1,
{
    assert((((a & b) >> i) & 1 == 1) == ((a >> i) & 1 == 1 && (b >> i) & 1 == 1)
        && (((a | b) >> i) & 1 == 1) == ((a >> i) & 1 == 1 || (b >> i) & 1 == 1)
        && (((a ^ b) >> i) & 1 == 1) == (((a >> i) & 1 == 1) != ((b >> i) & 1 == 1))
        && (((!a) >> i) & 1 == 1) == !((a >> i) & 1 == 1) && (0u64 >> i) & 1 == 0
        && (0xffff_ffff_ffff_ffffu64 >> i) & 1 == 1) by (bit_vector)
        requires
            i < 64,
    ;
}

/// `&` is intersection.
pub broadcast proof fn lemma_bit_and(a: u64, b: u64, i: int)
    ensures
        #[trigger] bit(a & b, i) == (bit(a, i) && bit(b, i)),
{
    reveal(bit);
    if 0 <= i < 64 {
        lemma_word_ops(a, b, i as u64);
    }
}

/// `|` is union.
pub broadcast proof fn lemma_bit_or(a: u64, b: u64, i: int)
    ensures
        #[trigger] bit(a | b, i) == (bit(a, i) || bit(b, i)),
{
    reveal(bit);
    if 0 <= i < 64 {
        lemma_word_ops(a, b, i as u64);
    }
}

/// `^` is symmetric difference.
pub broadcast proof fn lemma_bit_xor(a: u64, b: u64, i: int)
    ensures
        #[trigger] bit(a ^ b, i) == (bit(a, i) != bit(b, i)),
{
    reveal(bit);
    if 0 <= i < 64 {
        lemma_word_ops(a, b, i as u64);
    }
}

/// `!` is complement.
pub broadcast proof fn lemma_bit_not(a: u64, i: int)
    ensures
        #[trigger] bit(!a, i) == (0 <= i < 64 && !bit(a, i)),
{
    reveal(bit);
    if 0 <= i < 64 {
        lemma_word_ops(a, a, i as u64);
    }
}

/// The zero word is the empty set.
pub broadcast proof fn lemma_bit_zero(i: int)
    ensures
        !(#[trigger] bit(0u64, i)),
{
    reveal(bit);
    if 0 <= i < 64 {
        lemma_word_ops(0, 0, i as u64);
    }
}

/// The word of all ones is the whole board.
pub broadcast proof fn lemma_bit_full(i: int)
    ensures
        #[trigger] bit(0xffff_ffff_ffff_ffffu64, i) == (0 <= i < 64),
{
    reveal(bit);
    if 0 <= i < 64 {
        lemma_word_ops(0, 0, i as u64);
    }
}

proof fn lemma_word_shifts(a: u64, k: u64, i: u64)
    requires
        k < 64,
        i < 64,
    ensures
        ((1u64 << k) >> i) & 1 == 1 <==> i == k,
        i >= k ==> ((a << k) >> i) & 1 == (a >> ((i - k) as u64)) & 1,
        i < k ==> ((a << k) >> i) & 1 == 0,
        i + k < 64 ==> ((a >> k) >> i) & 1 == (a >> ((i + k) as u64)) & 1,
        i + k >= 64 ==> ((a >> k) >> i) & 1 == 0,
{
    assert((((1u64 << k) >> i) & 1 == 1 <==> i == k) && (i >= k ==> ((a << k) >> i) & 1 == (a >> ((
    i - k) as u64)) & 1) && (i < k ==> ((a << k) >> i) & 1 == 0) && (i + k < 64 ==> ((a >> k) >> i)
        & 1 == (a >> ((i + k) as u64)) & 1) && (i + k >= 64 ==> ((a >> k) >> i) & 1 == 0))
        by (bit_vector)
        requires
            k < 64,
            i < 64,
    ;
}

/// `1 << k` is the singleton of `k`.
pub broadcast proof fn lemma_bit_one(k: u64, i: int)
    requires
        k < 64,
    ensures
        #[trigger] bit(1u64 << k, i) == (i == k),
{
    reveal(bit);
    if 0 <= i < 64 {
        lemma_word_shifts(0, k, i as u64);
    }
}

/// A left shift moves every member up.
pub broadcast proof fn lemma_bit_shl(a: u64, k: u64, i: int)
    requires
        k < 64,
    ensures
        #[trigger] bit(a << k, i) == (i < 64 && bit(a, i - k)),
{
    reveal(bit);
    if 0 <= i < 64 {
        lemma_word_shifts(a, k, i as u64);
    }
}

/// A right shift moves every member down.
pub broadcast proof fn lemma_bit_shr(a: u64, k: u64, i: int)
    requires
        k < 64,
    ensures
        #[trigger] bit(a >> k, i) == (i >= 0 && bit(a, i + k)),
{
    reveal(bit);
    if 0 <= i < 64 {
        lemma_word_shifts(a, k, i as u64);
    }
}

/// What each word operation does to membership.
pub broadcast group group_bits {
    lemma_bit_range,
    lemma_bit_and,
    lemma_bit_or,
    lemma_bit_xor,
    lemma_bit_not,
    lemma_bit_zero,
    lemma_bit_full,
    lemma_bit_one,
    lemma_bit_shl,
    lemma_bit_shr,
}

/// A word is not zero when it has a member, and its lowest member is its count of trailing
/// zeros.
pub proof fn lemma_lowest(b: u64)
    requires
        b != 0,
    ensures
        0 <= vstd::std_specs::bits::u64_trailing_zeros(b) < 64,
        bit(b, vstd::std_specs::bits::u64_trailing_zeros(b) as int),
        forall|j: int| #[trigger]
            bit(b, j) ==> j >= vstd::std_specs::bits::u64_trailing_zeros(b),
{
    vstd::std_specs::bits::axiom_u64_trailing_zeros(b);
    reveal(bit);
    let t = vstd::std_specs::bits::u64_trailing_zeros(b);
    assert forall|j: int| #[trigger] bit(b, j) implies j >= t by {
        if j < t {
            assert((b >> (j as u64)) & 1u64 == 0u64);
        }
    }
}

/// The highest member of a word that is not zero.
pub proof fn lemma_highest(b: u64)
    requires
        b != 0,
    ensures
        0 <= vstd::std_specs::bits::u64_leading_zeros(b) < 64,
        bit(b, 63 - vstd::std_specs::bits::u64_leading_zeros(b)),
        forall|j: int| #[trigger]
            bit(b, j) ==> j <= 63 - vstd::std_specs::bits::u64_leading_zeros(b),
{
    vstd::std_specs::bits::axiom_u64_leading_zeros(b);
    reveal(bit);
    let z = vstd::std_specs::bits::u64_leading_zeros(b);
    let h: u64 = (63 - z) as u64;
    lemma_word_ops(b, b, h);
    assert(((b >> h) & 1u64) == 0 || ((b >> h) & 1u64) == 1) by (bit_vector);
    assert forall|j: int| #[trigger] bit(b, j) implies j <= 63 - z by {
        if j > 63 - z {
            assert((b >> (j as u64)) & 1u64 == 0u64);
        }
    }
}

/// A word with a member is not zero.
pub proof fn lemma_member_nonzero(b: u64, i: int)
    requires
        bit(b, i),
    ensures
        b != 0,
{
    broadcast use lemma_bit_zero;

}

/// A word that is not zero has a member.
pub proof fn lemma_nonzero(b: u64)
    ensures
        b != 0 <==> exists|i: int| bit(b, i),
{
    broadcast use lemma_bit_zero;

    if b != 0 {
        lemma_lowest(b);
    }
}

/// Words with the same members are one word.
pub proof fn lemma_ext(a: u64, b: u64)
    requires
        forall|i: int| 0 <= i < 64 ==> #[trigger] bit(a, i) == bit(b, i),
    ensures
        a == b,
{
    broadcast use lemma_bit_xor;

    assert(a ^ b == 0 ==> a == b) by (bit_vector);
    if a ^ b != 0 {
        lemma_lowest(a ^ b);
        let t = vstd::std_specs::bits::u64_trailing_zeros(a ^ b) as int;
        assert(bit(a ^ b, t));
        assert(bit(a, t) == bit(b, t));
    }
}

/// `b & (b - 1)` drops the lowest member and nothing else.
pub proof fn lemma_drop_lowest(b: u64)
    requires
        b != 0,
    ensures
        forall|i: int| #[trigger]
            bit(b & ((b - 1) as u64), i) == (bit(b, i) && i
                != vstd::std_specs::bits::u64_trailing_zeros(b)),
{
    broadcast use group_bits;

    vstd::std_specs::bits::axiom_u64_trailing_zeros(b);
    lemma_lowest(b);
    let t = vstd::std_specs::bits::u64_trailing_zeros(b) as u64;
    let c: u64 = (b - 1) as u64;
    let u: u64 = (64 - t) as u64;
    assert(b & c == b ^ (1u64 << t)) by (bit_vector)
        requires
            b != 0,
            c == b - 1,
            t < 64,
            u == 64 - t,
            b << u == 0,
            (b >> t) & 1 == 1,
    ;
}

/// From the lowest member on, the member list starts with it and goes on with the rest.
pub proof fn lemma_members_pop(b: u64, rest: u64, t: int)
    requires
        bit(b, t),
        forall|j: int| #[trigger] bit(b, j) ==> j >= t,
        forall|i: int| #[trigger] bit(rest, i) == (bit(b, i) && i != t),
    ensures
        members(b) == seq![t] + members(rest),
{
    broadcast use lemma_bit_range;

    lemma_members_skip(b, 0, t);
    lemma_members_skip(rest, 0, t + 1);
    lemma_members_agree(b, rest, t + 1);
}

/// Indices that are not members leave no trace in the member list.
proof fn lemma_members_skip(b: u64, i: int, t: int)
    requires
        0 <= i <= t <= 64,
        forall|j: int| i <= j < t ==> !#[trigger] bit(b, j),
    ensures
        members_from(b, i) == members_from(b, t),
    decreases t - i,
{
    if i < t {
        lemma_members_skip(b, i + 1, t);
    }
}

/// Words that agree from `i` on have the same members from `i` on.
proof fn lemma_members_agree(a: u64, b: u64, i: int)
    requires
        0 <= i <= 64,
        forall|j: int| i <= j ==> #[trigger] bit(a, j) == bit(b, j),
    ensures
        members_from(a, i) == members_from(b, i),
    decreases 64 - i,
{
    if i < 64 {
        lemma_members_agree(a, b, i + 1);
    }
}

/// The member list of the empty set is empty, and no other is.
pub proof fn lemma_members_empty(b: u64)
    ensures
        b == 0 <==> members(b).len() == 0,
{
    broadcast use lemma_bit_zero;

    if b == 0 {
        lemma_members_skip(b, 0, 64);
    } else {
        lemma_lowest(b);
        lemma_members_skip(b, 0, vstd::std_specs::bits::u64_trailing_zeros(b) as int);
    }
}

/// The member list holds the members at or above `i`, in ascending order.
pub proof fn lemma_members_from_props(b: u64, i: int)
    requires
        0 <= i <= 64,
    ensures
        members_from(b, i).len() <= 64 - i,
        forall|k: int|
            0 <= k < members_from(b, i).len() ==> i <= #[trigger] members_from(b, i)[k] < 64 && bit(
                b,
                members_from(b, i)[k],
            ),
        forall|j: int|
            i <= j && #[trigger] bit(b, j) ==> exists|k: int|
                0 <= k < members_from(b, i).len() && members_from(b, i)[k] == j,
        forall|k: int, l: int|
            0 <= k < l < members_from(b, i).len() ==> members_from(b, i)[k] < members_from(b, i)[l],
    decreases 64 - i,
{
    broadcast use lemma_bit_range;

    if i < 64 {
        lemma_members_from_props(b, i + 1);
        let tail = members_from(b, i + 1);
        if bit(b, i) {
            let all = members_from(b, i);
            assert(all[0] == i);
            assert forall|k: int| 1 <= k < all.len() implies all[k] == tail[k - 1] by {}
            assert forall|j: int| i <= j && #[trigger] bit(b, j) implies exists|k: int|
                0 <= k < all.len() && all[k] == j by {
                if j > i {
                    let k = choose|k: int| 0 <= k < tail.len() && tail[k] == j;
                    assert(all[k + 1] == j);
                }
            }
        }
    }
}

/// The member list holds exactly the members, each once, ascending.
pub proof fn lemma_members(b: u64)
    ensures
        members(b).len() <= 64,
        forall|k: int|
            0 <= k < members(b).len() ==> 0 <= #[trigger] members(b)[k] < 64 && bit(
                b,
                members(b)[k],
            ),
        forall|j: int| #[trigger]
            bit(b, j) ==> exists|k: int| 0 <= k < members(b).len() && members(b)[k] == j,
        forall|k: int, l: int| 0 <= k < l < members(b).len() ==> members(b)[k] < members(b)[l],
{
    broadcast use lemma_bit_range;

    lemma_members_from_props(b, 0);
}

/// The low and high fields of a byte, as arithmetic.
pub proof fn lemma_u8_fields(v: u8)
    ensures
        v & 7 == v % 8,
        v >> 3 == v / 8,
{
    assert(v & 7 == v % 8 && v >> 3 == v / 8) by (bit_vector);
}

/// The fields of a packed move do not overlap.
pub proof fn lemma_move_pack(t: u16, p: u16, f: u16, d: u16)
    requires
        t < 4,
        p < 4,
        f < 64,
        d < 64,
    ensures
        ((t << 14u16) | (p << 12u16) | (f << 6u16) | d) == t * 16384 + p * 4096 + f * 64 + d,
{
    assert(((t << 14u16) | (p << 12u16) | (f << 6u16) | d) == t * 16384 + p * 4096 + f * 64 + d)
        by (bit_vector)
        requires
            t < 4,
            p < 4,
            f < 64,
            d < 64,
    ;
}

/// The a-file and the first rank, shifted.
pub proof fn lemma_lines(f: u64, i: int)
    requires
        f < 8,
    ensures
        bit(0x0101_0101_0101_0101u64 << f, i) == (0 <= i < 64 && i % 8 == f),
        bit(0xffu64 << ((8 * f) as u64), i) == (0 <= i < 64 && i / 8 == f),
{
    reveal(bit);
    if 0 <= i < 64 {
        let j = i as u64;
        let g: u64 = (8 * f) as u64;
        assert((((0x0101_0101_0101_0101u64 << f) >> j) & 1 == 1) == (j % 8 == f) && (((0xffu64 << g)
            >> j) & 1 == 1) == (j / 8 == f)) by (bit_vector)
            requires
                f < 8,
                j < 64,
                g == 8 * f,
        ;
    }
}

} // verus!
