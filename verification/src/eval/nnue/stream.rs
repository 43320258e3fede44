//! Reading a network's bytes off a slice, and writing them to a buffer.

use vstd::prelude::*;
use crate::eval::nnue::common::{NetError, LEB128_MAGIC};
use crate::eval::nnue::common;

verus! {

/// The numbers of a sequence of words.
pub open spec fn ints16(v: Seq<i16>) -> Seq<int> {
    Seq::new(v.len(), |i: int| v[i] as int)
}

/// The numbers of a sequence of bytes.
pub open spec fn ints8(v: Seq<i8>) -> Seq<int> {
    Seq::new(v.len(), |i: int| v[i] as int)
}

/// The numbers of a sequence of double words.
pub open spec fn ints32(v: Seq<i32>) -> Seq<int> {
    Seq::new(v.len(), |i: int| v[i] as int)
}

/// What a compressed block at the front of `s` holds: `n` words, and how many bytes the block
/// takes.
pub open spec fn read_block(s: Seq<u8>, n: int) -> Result<(Seq<u32>, int), NetError> {
    if s.len() < 17 {
        Err(NetError::Truncated)
    } else if s.subrange(0, 17) != LEB128_MAGIC@ {
        Err(NetError::NotCompressed)
    } else if s.len() < 21 {
        Err(NetError::Truncated)
    } else {
        let count = common::le(s.subrange(17, 21));
        if s.len() < 21 + count {
            Err(NetError::Truncated)
        } else {
            match common::leb_values(s.subrange(21, 21 + count), 0, n) {
                None => Err(NetError::Truncated),
                Some((v, j)) => if j == count {
                    Ok((v, 21 + count))
                } else {
                    Err(NetError::BlockNotConsumed)
                },
            }
        }
    }
}

/// A compressed block: the marker, the payload's length and the payload.
pub open spec fn block_of(v: Seq<int>) -> Seq<u8> {
    LEB128_MAGIC@ + common::le_bytes(common::leb_block(v).len() as int, 4) + common::leb_block(v)
}

/// A compressed block at the front of a stream gives its values back and takes its own bytes.
pub proof fn law_blocks_round_trip(v: Seq<i32>, rest: Seq<u8>)
    requires
        common::leb_block(ints32(v)).len() < 0x1_0000_0000,
    ensures
        ({
            let words = Seq::new(v.len(), |i: int| common::unsigned(v[i] as int, 0x8000_0000) as u32);
            let block = block_of(ints32(v));
            &&& read_block(block + rest, v.len() as int) == Ok::<(Seq<u32>, int), NetError>(
                (words, block.len() as int),
            )
            &&& forall|i: int| 0 <= i < v.len() ==> #[trigger] words[i] as i32 == v[i]
        }),
{
    let n = ints32(v);
    let payload = common::leb_block(n);
    let block = block_of(n);
    let s = block + rest;
    let words = Seq::new(v.len(), |i: int| common::unsigned(v[i] as int, 0x8000_0000) as u32);
    common::lemma_le_bytes(payload.len() as int, 4);
    common::law_compressed_blocks_round_trip(n);
    assert(s.subrange(0, 17) =~= LEB128_MAGIC@);
    assert(s.subrange(17, 21) =~= common::le_bytes(payload.len() as int, 4));
    assert(s.subrange(21, 21 + payload.len() as int) =~= payload);
    assert(words =~= Seq::new(n.len(), |i: int| common::unsigned(n[i], 0x8000_0000) as u32));
    assert forall|i: int| 0 <= i < v.len() implies #[trigger] words[i] as i32 == v[i] by {
        lemma_as_signed(words[i]);
    }
}

/// A word read as a signed number.
proof fn lemma_as_signed(w: u32)
    ensures
        w as i32 == common::signed(w as int, 0x8000_0000),
{
    assert((w < 0x8000_0000u32 ==> w as i32 == w) && (w >= 0x8000_0000u32 ==> w as i32 == w
        - 0x1_0000_0000)) by (bit_vector);
}

/// A reader that takes what a network holds off the front of a slice.
#[derive(Clone, Copy, Debug)]
pub struct NetReader<'a> {
    pub data: &'a [u8],
    pub at: usize,
}

impl<'a> NetReader<'a> {
    /// The bytes not yet read.
    pub open spec fn rest(&self) -> Seq<u8> {
        self.data@.subrange(self.at as int, self.data@.len() as int)
    }

    /// The place is inside the slice.
    pub open spec fn wf(&self) -> bool {
        self.at <= self.data@.len()
    }

    /// `later` is this reader, `n` bytes further on.
    pub open spec fn advanced(&self, later: &NetReader, n: int) -> bool {
        later.data@ == self.data@ && later.at == self.at + n
    }

    /// A reader at the front of the bytes.
    pub fn new(data: &'a [u8]) -> (r: NetReader<'a>)
        ensures
            r.wf(),
            r.rest() == data@,
            r.data@ == data@,
            r.at == 0,
    {
        assert(data@.subrange(0, data@.len() as int) =~= data@);
        NetReader { data, at: 0 }
    }

    /// The next `n` bytes.
    fn take(&mut self, n: usize) -> (r: Result<&'a [u8], NetError>)
        requires
            old(self).wf(),
        ensures
            final(self).wf(),
            (match r {
                Ok(s) => {
                    &&& n <= old(self).rest().len()
                    &&& s@ == old(self).rest().subrange(0, n as int)
                    &&& old(self).advanced(final(self), n as int)
                },
                Err(e) => {
                    &&& n > old(self).rest().len()
                    &&& e == NetError::Truncated
                    &&& *final(self) == *old(self)
                },
            }),
    {
        if self.data.len() - self.at < n {
            return Err(NetError::Truncated);
        }
        let s = vstd::slice::slice_subrange(self.data, self.at, self.at + n);
        assert(s@ =~= self.rest().subrange(0, n as int));
        self.at = self.at + n;
        Ok(s)
    }

    /// Read exactly as many bytes as the buffer holds, or fail.
    pub fn read_exact(&mut self, buf: &mut Vec<u8>) -> (r: Result<(), NetError>)
        requires
            old(self).wf(),
        ensures
            final(self).wf(),
            (match r {
                Ok(_) => {
                    let n = old(buf)@.len() as int;
                    &&& n <= old(self).rest().len()
                    &&& final(buf)@ == old(self).rest().subrange(0, n)
                    &&& old(self).advanced(final(self), n)
                },
                Err(e) => {
                    &&& old(buf)@.len() > old(self).rest().len()
                    &&& e == NetError::Truncated
                    &&& *final(self) == *old(self)
                    &&& *final(buf) == *old(buf)
                },
            }),
    {
        let n: usize = buf.len();
        match self.take(n) {
            Err(e) => Err(e),
            Ok(s) => {
                let mut i: usize = 0;
                while i < n
                    invariant
                        i <= n,
                        n == s@.len(),
                        buf@.len() == n,
                        forall|j: int| 0 <= j < i ==> #[trigger] buf@[j] == s@[j],
                    decreases n - i,
                {
                    buf.set(i, s[i]);
                    i += 1;
                }
                assert(buf@ =~= s@);
                Ok(())
            },
        }
    }

    /// One little-endian word.
    pub fn u32(&mut self) -> (r: Result<u32, NetError>)
        requires
            old(self).wf(),
        ensures
            final(self).wf(),
            (match r {
                Ok(v) => {
                    &&& old(self).rest().len() >= 4
                    &&& v == common::le(old(self).rest().subrange(0, 4))
                    &&& old(self).advanced(final(self), 4)
                },
                Err(e) => {
                    &&& old(self).rest().len() < 4
                    &&& e == NetError::Truncated
                    &&& *final(self) == *old(self)
                },
            }),
    {
        match self.take(4) {
            Err(e) => Err(e),
            Ok(s) => {
                proof {
                    lemma_le4(s@);
                }
                Ok(
                    s[0] as u32 + 0x100 * s[1] as u32 + 0x1_0000 * s[2] as u32 + 0x100_0000
                        * s[3] as u32,
                )
            },
        }
    }

    /// Fill the vector with little-endian numbers of two bytes.
    pub fn i16s(&mut self, out: &mut Vec<i16>) -> (r: Result<(), NetError>)
        requires
            old(self).wf(),
        ensures
            final(self).wf(),
            final(out)@.len() == old(out)@.len(),
            (match r {
                Ok(_) => {
                    let n = old(out)@.len() as int;
                    &&& 2 * n <= old(self).rest().len()
                    &&& ints16(final(out)@) == common::plain_values(
                        old(self).rest(),
                        2,
                        32768,
                        n,
                    )
                    &&& old(self).advanced(final(self), 2 * n)
                },
                Err(e) => {
                    &&& 2 * old(out)@.len() > old(self).rest().len()
                    &&& e == NetError::Truncated
                    &&& *final(self) == *old(self)
                    &&& *final(out) == *old(out)
                },
            }),
    {
        let n: usize = out.len();
        let size: usize = self.data.len();
        if (size - self.at) / 2 < n {
            return Err(NetError::Truncated);
        }
        let ghost start = self.rest();
        let mut i: usize = 0;
        while i < n
            invariant
                i <= n,
                n == out@.len(),
                self.wf(),
                start == self.rest(),
                size == self.data@.len(),
                2 * n <= start.len(),
                *self == *old(self),
                forall|j: int|
                    0 <= j < i ==> #[trigger] out@[j] == common::signed(
                        common::le(start.subrange(2 * j, 2 * j + 2)),
                        32768,
                    ),
            decreases n - i,
        {
            let p: usize = self.at + 2 * i;
            let low: i32 = self.data[p] as i32;
            let high: i32 = self.data[p + 1] as i32;
            let v: i32 = low + 256 * high;
            proof {
                lemma_le2(start.subrange(2 * i, 2 * i + 2));
            }
            let w: i32 = if v < 32768 {
                v
            } else {
                v - 65536
            };
            out.set(i, w as i16);
            i += 1;
        }
        assert(ints16(out@) =~= common::plain_values(start, 2, 32768, n as int));
        self.at = self.at + 2 * n;
        Ok(())
    }

    /// Fill the vector with numbers of one byte.
    pub fn i8s(&mut self, out: &mut Vec<i8>) -> (r: Result<(), NetError>)
        requires
            old(self).wf(),
        ensures
            final(self).wf(),
            final(out)@.len() == old(out)@.len(),
            (match r {
                Ok(_) => {
                    let n = old(out)@.len() as int;
                    &&& n <= old(self).rest().len()
                    &&& ints8(final(out)@) == common::plain_values(old(self).rest(), 1, 128, n)
                    &&& old(self).advanced(final(self), n)
                },
                Err(e) => {
                    &&& old(out)@.len() > old(self).rest().len()
                    &&& e == NetError::Truncated
                    &&& *final(self) == *old(self)
                    &&& *final(out) == *old(out)
                },
            }),
    {
        let n: usize = out.len();
        let size: usize = self.data.len();
        if size - self.at < n {
            return Err(NetError::Truncated);
        }
        let ghost start = self.rest();
        let mut i: usize = 0;
        while i < n
            invariant
                i <= n,
                n == out@.len(),
                self.wf(),
                start == self.rest(),
                size == self.data@.len(),
                n <= start.len(),
                *self == *old(self),
                forall|j: int|
                    0 <= j < i ==> #[trigger] out@[j] == common::signed(
                        common::le(start.subrange(1 * j, 1 * j + 1)),
                        128,
                    ),
            decreases n - i,
        {
            let v: i32 = self.data[self.at + i] as i32;
            proof {
                lemma_le1(start.subrange(1 * i, 1 * i + 1));
            }
            let w: i32 = if v < 128 {
                v
            } else {
                v - 256
            };
            out.set(i, w as i8);
            i += 1;
        }
        assert(ints8(out@) =~= common::plain_values(start, 1, 128, n as int));
        self.at = self.at + n;
        Ok(())
    }

    /// Fill the vector with little-endian numbers of four bytes.
    pub fn i32s(&mut self, out: &mut Vec<i32>) -> (r: Result<(), NetError>)
        requires
            old(self).wf(),
        ensures
            final(self).wf(),
            final(out)@.len() == old(out)@.len(),
            (match r {
                Ok(_) => {
                    let n = old(out)@.len() as int;
                    &&& 4 * n <= old(self).rest().len()
                    &&& ints32(final(out)@) == common::plain_values(
                        old(self).rest(),
                        4,
                        0x8000_0000,
                        n,
                    )
                    &&& old(self).advanced(final(self), 4 * n)
                },
                Err(e) => {
                    &&& 4 * old(out)@.len() > old(self).rest().len()
                    &&& e == NetError::Truncated
                    &&& *final(self) == *old(self)
                    &&& *final(out) == *old(out)
                },
            }),
    {
        let n: usize = out.len();
        let size: usize = self.data.len();
        if (size - self.at) / 4 < n {
            return Err(NetError::Truncated);
        }
        let ghost start = self.rest();
        let mut i: usize = 0;
        while i < n
            invariant
                i <= n,
                n == out@.len(),
                self.wf(),
                start == self.rest(),
                size == self.data@.len(),
                4 * n <= start.len(),
                *self == *old(self),
                forall|j: int|
                    0 <= j < i ==> #[trigger] out@[j] == common::signed(
                        common::le(start.subrange(4 * j, 4 * j + 4)),
                        0x8000_0000,
                    ),
            decreases n - i,
        {
            let p: usize = self.at + 4 * i;
            let v: u32 = self.data[p] as u32 + 0x100 * self.data[p + 1] as u32 + 0x1_0000
                * self.data[p + 2] as u32 + 0x100_0000 * self.data[p + 3] as u32;
            proof {
                lemma_le4(start.subrange(4 * i, 4 * i + 4));
                lemma_as_signed(v);
            }
            out.set(i, v as i32);
            i += 1;
        }
        assert(ints32(out@) =~= common::plain_values(start, 4, 0x8000_0000, n as int));
        self.at = self.at + 4 * n;
        Ok(())
    }

    /// True when nothing more is left to read.
    pub fn at_end(&self) -> (r: bool)
        requires
            self.wf(),
        ensures
            r == (self.rest().len() == 0),
    {
        self.at == self.data.len()
    }
}

proof fn lemma_le1(s: Seq<u8>)
    requires
        s.len() == 1,
    ensures
        common::le(s) == s[0],
{
    assert(s.drop_first().len() == 0);
    assert(common::le(s.drop_first()) == 0);
}

proof fn lemma_le2(s: Seq<u8>)
    requires
        s.len() == 2,
    ensures
        common::le(s) == s[0] + 256 * s[1],
{
    lemma_le1(s.drop_first());
}

proof fn lemma_le4(s: Seq<u8>)
    requires
        s.len() == 4,
    ensures
        common::le(s) == s[0] + 0x100 * s[1] + 0x1_0000 * s[2] + 0x100_0000 * s[3],
{
    let t = s.drop_first();
    lemma_le2(t.drop_first());
    assert(common::le(t) == t[0] + 256 * common::le(t.drop_first()));
}

// ---------------------------------------------------------------------------
// Compressed blocks
// ---------------------------------------------------------------------------

/// Join group number `k`, given modulo 32, to a word.
fn join_group(acc: u32, byte: u8, group: u32, Ghost(k): Ghost<int>) -> (r: u32)
    requires
        0 <= k,
        group == k % 32,
    ensures
        r == common::leb_join(acc, byte, k),
{
    let low: u32 = (byte % 128) as u32;
    let shift: u32 = (7 * group) % 32;
    assert((7 * k) % 32 == shift) by {
        vstd::arithmetic::div_mod::lemma_mod_multiples_vanish(7 * (k / 32), 7 * group as int, 32);
    }
    acc | (low << shift)
}

/// Complete a word whose last group is number `k`.
fn close_word(acc: u32, byte: u8, group: u32, long: bool, Ghost(k): Ghost<int>) -> (r: u32)
    requires
        0 <= k,
        group == k % 32,
        long == (k >= 4),
    ensures
        r == common::leb_close(acc, byte, k),
{
    if !long && byte % 128 >= 64 {
        let width: u32 = 7 * (group + 1);
        assert(1u32 << width >= 1) by (bit_vector)
            requires
                width < 32,
        ;
        let ones: u32 = (1u32 << width) - 1;
        acc | !ones
    } else {
        acc
    }
}

/// One value of a compressed payload: its word, and where the next one begins.
fn leb_word(s: &[u8], from: usize) -> (r: Option<(u32, usize)>)
    requires
        from <= s@.len(),
    ensures
        (match r {
            Some((w, j)) => common::leb_value(s@, from as int, 0, 0) == Some((w, j as int)) && from
                < j <= s@.len(),
            None => common::leb_value(s@, from as int, 0, 0).is_none(),
        }),
{
    let mut acc: u32 = 0;
    let mut i: usize = from;
    // The group's number, taken modulo 32, and whether more than four groups were read.
    let mut group: u32 = 0;
    let mut long: bool = false;
    while i < s.len()
        invariant
            from <= i <= s@.len(),
            group < 32,
            group == (i - from) % 32,
            long == (i - from >= 4),
            common::leb_value(s@, from as int, 0, 0) == common::leb_value(
                s@,
                i as int,
                i - from,
                acc,
            ),
        decreases s@.len() - i,
    {
        let byte: u8 = s[i];
        let joined: u32 = join_group(acc, byte, group, Ghost(i - from));
        if byte < 128 {
            return Some((close_word(joined, byte, group, long, Ghost(i - from)), i + 1));
        }
        acc = joined;
        i += 1;
        group = if group == 31 {
            0
        } else {
            group + 1
        };
        long = i - from >= 4;
    }
    None
}

/// As many words as are asked for from a payload, and how many bytes they took.
fn leb_words(s: &[u8], n: usize) -> (r: Option<(Vec<u32>, usize)>)
    ensures
        (match r {
            Some((v, j)) => common::leb_values(s@, 0, n as int) == Some((v@, j as int)) && v@.len()
                == n && j <= s@.len(),
            None => common::leb_values(s@, 0, n as int).is_none(),
        }),
{
    let mut v: Vec<u32> = Vec::new();
    let mut at: usize = 0;
    while v.len() < n
        invariant
            v@.len() <= n,
            at <= s@.len(),
            common::leb_values(s@, 0, v@.len() as int) == Some((v@, at as int)),
        decreases n - v@.len(),
    {
        let ghost before = v@;
        match leb_word(s, at) {
            Some((w, next)) => {
                v.push(w);
                at = next;
                proof {
                    assert(v@.drop_last() =~= before);
                    assert(common::leb_values(s@, 0, v@.len() as int) == Some((v@, at as int)));
                }
            },
            None => {
                proof {
                    lemma_values_stop(s@, before.len() as int + 1, n as int);
                }
                return None;
            },
        }
    }
    Some((v, at))
}

/// Where a payload ends too early for some values, it does for more.
proof fn lemma_values_stop(s: Seq<u8>, m: int, n: int)
    requires
        0 <= m <= n,
        common::leb_values(s, 0, m).is_none(),
    ensures
        common::leb_values(s, 0, n).is_none(),
    decreases n,
{
    if m < n {
        lemma_values_stop(s, m, n - 1);
    }
}

impl<'a> NetReader<'a> {
    /// The payload of the compressed block at the front.
    fn payload(&mut self) -> (r: Result<&'a [u8], NetError>)
        requires
            old(self).wf(),
        ensures
            final(self).wf(),
            final(self).data@ == old(self).data@,
            (match r {
                Ok(s) => {
                    let rest = old(self).rest();
                    let count = common::le(rest.subrange(17, 21));
                    &&& rest.len() >= 21
                    &&& rest.subrange(0, 17) == LEB128_MAGIC@
                    &&& rest.len() >= 21 + count
                    &&& s@.len() == count
                    &&& s@ == rest.subrange(21, 21 + count)
                    &&& final(self).at == old(self).at + 21 + count
                },
                Err(e) => {
                    let rest = old(self).rest();
                    let count = common::le(rest.subrange(17, 21));
                    if rest.len() < 17 {
                        e == NetError::Truncated
                    } else if rest.subrange(0, 17) != LEB128_MAGIC@ {
                        e == NetError::NotCompressed
                    } else {
                        e == NetError::Truncated && (rest.len() < 21 || rest.len() < 21 + count)
                    }
                },
            }),
    {
        let ghost rest = self.rest();
        let marker = match self.take(17) {
            Ok(s) => s,
            Err(e) => {
                return Err(e);
            },
        };
        let mut i: usize = 0;
        while i < 17
            invariant
                i <= 17,
                marker@.len() == 17,
                self.wf(),
                self.data@ == old(self).data@,
                marker@ == rest.subrange(0, 17),
                rest == old(self).rest(),
                rest.len() >= 17,
                forall|j: int| 0 <= j < i ==> #[trigger] marker@[j] == LEB128_MAGIC@[j],
            decreases 17 - i,
        {
            if marker[i] != LEB128_MAGIC[i] {
                assert(marker@[i as int] != LEB128_MAGIC@[i as int]);
                return Err(NetError::NotCompressed);
            }
            i += 1;
        }
        assert(marker@ =~= LEB128_MAGIC@);
        assert(self.rest() =~= rest.subrange(17, rest.len() as int));
        let count: u32 = match self.u32() {
            Ok(c) => c,
            Err(e) => {
                return Err(e);
            },
        };
        assert(rest.subrange(17, rest.len() as int).subrange(0, 4) =~= rest.subrange(17, 21));
        assert(self.rest() =~= rest.subrange(21, rest.len() as int));
        match self.take(count as usize) {
            Ok(s) => {
                assert(s@ =~= rest.subrange(21, 21 + count));
                Ok(s)
            },
            Err(e) => Err(e),
        }
    }

    /// The words of the compressed block at the front.
    fn words(&mut self, n: usize) -> (r: Result<Vec<u32>, NetError>)
        requires
            old(self).wf(),
        ensures
            final(self).wf(),
            final(self).data@ == old(self).data@,
            (match r {
                Ok(v) => {
                    &&& v@.len() == n
                    &&& read_block(old(self).rest(), n as int) matches Ok((w, taken)) && w == v@
                        && final(self).at == old(self).at + taken
                },
                Err(e) => read_block(old(self).rest(), n as int) == Err::<(Seq<u32>, int), NetError>(
                    e,
                ),
            }),
    {
        match self.payload() {
            Err(e) => Err(e),
            Ok(s) => match leb_words(s, n) {
                None => Err(NetError::Truncated),
                Some((v, taken)) => if taken == s.len() {
                    Ok(v)
                } else {
                    Err(NetError::BlockNotConsumed)
                },
            },
        }
    }

    /// Fill the vector from one compressed block.
    ///
    /// Seven payload bits per byte, the lowest group first. A value whose last byte has its
    /// sixth bit set is negative, unless 32 bits have been read: then it is complete.
    pub fn leb128(&mut self, out: &mut Vec<i32>) -> (r: Result<(), NetError>)
        requires
            old(self).wf(),
        ensures
            final(self).wf(),
            final(self).data@ == old(self).data@,
            final(out)@.len() == old(out)@.len(),
            (match r {
                Ok(_) => {
                    let n = old(out)@.len() as int;
                    read_block(old(self).rest(), n) matches Ok((w, taken)) && {
                        &&& final(self).at == old(self).at + taken
                        &&& forall|i: int| 0 <= i < n ==> #[trigger] final(out)@[i] == w[i] as i32
                    }
                },
                Err(e) => {
                    &&& read_block(old(self).rest(), old(out)@.len() as int) == Err::<
                        (Seq<u32>, int),
                        NetError,
                    >(e)
                    &&& *final(out) == *old(out)
                },
            }),
    {
        let n: usize = out.len();
        match self.words(n) {
            Err(e) => Err(e),
            Ok(w) => {
                let mut i: usize = 0;
                while i < n
                    invariant
                        i <= n,
                        w@.len() == n,
                        out@.len() == n,
                        forall|j: int| 0 <= j < i ==> #[trigger] out@[j] == w@[j] as i32,
                    decreases n - i,
                {
                    out.set(i, w[i] as i32);
                    i += 1;
                }
                Ok(())
            },
        }
    }

    /// Fill the vector from one compressed block, each value cut to two bytes.
    pub fn leb128_i16(&mut self, out: &mut Vec<i16>) -> (r: Result<(), NetError>)
        requires
            old(self).wf(),
        ensures
            final(self).wf(),
            final(self).data@ == old(self).data@,
            final(out)@.len() == old(out)@.len(),
            (match r {
                Ok(_) => {
                    let n = old(out)@.len() as int;
                    read_block(old(self).rest(), n) matches Ok((w, taken)) && {
                        &&& final(self).at == old(self).at + taken
                        &&& forall|i: int|
                            0 <= i < n ==> #[trigger] final(out)@[i] == (w[i] as i32) as i16
                    }
                },
                Err(e) => {
                    &&& read_block(old(self).rest(), old(out)@.len() as int) == Err::<
                        (Seq<u32>, int),
                        NetError,
                    >(e)
                    &&& *final(out) == *old(out)
                },
            }),
    {
        let n: usize = out.len();
        match self.words(n) {
            Err(e) => Err(e),
            Ok(w) => {
                let mut i: usize = 0;
                while i < n
                    invariant
                        i <= n,
                        w@.len() == n,
                        out@.len() == n,
                        forall|j: int| 0 <= j < i ==> #[trigger] out@[j] == (w@[j] as i32) as i16,
                    decreases n - i,
                {
                    out.set(i, (w[i] as i32) as i16);
                    i += 1;
                }
                Ok(())
            },
        }
    }

    /// Read one compressed block as `count` groups of `size` values of two bytes.
    pub fn leb128_i16_groups(&mut self, size: usize, count: usize) -> (r: Result<
        Vec<Vec<i16>>,
        NetError,
    >)
        requires
            old(self).wf(),
            size * count <= usize::MAX,
        ensures
            final(self).wf(),
            final(self).data@ == old(self).data@,
            (match r {
                Ok(g) => read_block(old(self).rest(), size * count) matches Ok((w, taken)) && {
                    &&& final(self).at == old(self).at + taken
                    &&& g@.len() == count
                    &&& forall|i: int|
                        0 <= i < count ==> (#[trigger] g@[i])@ == Seq::new(
                            size as nat,
                            |j: int| (w[size * i + j] as i32) as i16,
                        )
                },
                Err(e) => read_block(old(self).rest(), size * count) == Err::<
                    (Seq<u32>, int),
                    NetError,
                >(e),
            }),
    {
        let w = match self.words(size * count) {
            Err(e) => {
                return Err(e);
            },
            Ok(w) => w,
        };
        let mut groups: Vec<Vec<i16>> = Vec::new();
        while groups.len() < count
            invariant
                groups@.len() <= count,
                w@.len() == size * count,
                size * count <= usize::MAX,
                forall|i: int|
                    0 <= i < groups@.len() ==> (#[trigger] groups@[i])@ == Seq::new(
                        size as nat,
                        |j: int| (w@[size * i + j] as i32) as i16,
                    ),
            decreases count - groups@.len(),
        {
            let n: usize = groups.len();
            proof {
                assert(size * n + size <= size * count) by (nonlinear_arith)
                    requires
                        n < count,
                ;
            }
            let base: usize = size * n;
            let mut group: Vec<i16> = Vec::new();
            while group.len() < size
                invariant
                    group@.len() <= size,
                    base == size * n,
                    base + size <= w@.len(),
                    w@.len() <= usize::MAX,
                    forall|j: int|
                        0 <= j < group@.len() ==> #[trigger] group@[j] == (w@[base + j] as i32) as i16,
                decreases size - group@.len(),
            {
                let x: u32 = w[base + group.len()];
                group.push((x as i32) as i16);
            }
            assert(group@ =~= Seq::new(
                size as nat,
                |j: int| (w@[size * n + j] as i32) as i16,
            ));
            groups.push(group);
        }
        Ok(groups)
    }
}

// ---------------------------------------------------------------------------
// Writing
// ---------------------------------------------------------------------------

/// A writer that produces exactly what [`NetReader`] takes.
#[derive(Debug)]
pub struct NetWriter {
    pub out: Vec<u8>,
}

impl NetWriter {
    /// A writer with nothing written.
    pub fn new() -> (r: NetWriter)
        ensures
            r.out@ == Seq::<u8>::empty(),
    {
        NetWriter { out: Vec::new() }
    }

    /// Hand on what is buffered. The bytes are all in place already, and stay.
    pub fn flush(&mut self) -> (r: Result<(), NetError>)
        ensures
            r is Ok,
            final(self).out@ == old(self).out@,
    {
        Ok(())
    }

    /// Write every byte of the buffer.
    pub fn write_all(&mut self, buf: &[u8]) -> (r: Result<(), NetError>)
        ensures
            r.is_ok(),
            final(self).out@ == old(self).out@ + buf@,
    {
        let ghost start = self.out@;
        let mut i: usize = 0;
        assert(start + buf@.subrange(0, 0) =~= start);
        while i < buf.len()
            invariant
                i <= buf@.len(),
                self.out@ == start + buf@.subrange(0, i as int),
            decreases buf@.len() - i,
        {
            self.out.push(buf[i]);
            i += 1;
            assert(self.out@ =~= start + buf@.subrange(0, i as int));
        }
        assert(buf@.subrange(0, i as int) =~= buf@);
        Ok(())
    }

    /// Append the `n` lowest bytes of a number, the lowest first.
    fn push_le(&mut self, v: u32, n: usize)
        requires
            n <= 4,
        ensures
            final(self).out@ == old(self).out@ + common::le_bytes(v as int, n as int),
        decreases n,
    {
        let ghost start = self.out@;
        if n > 0 {
            self.out.push((v % 256) as u8);
            self.push_le(v / 256, n - 1);
            proof {
                let tail = common::le_bytes(v as int / 256, n - 1);
                assert(self.out@ =~= start + (seq![(v % 256) as u8] + tail));
            }
        } else {
            assert(self.out@ =~= start + common::le_bytes(v as int, 0));
        }
    }

    /// One little-endian word.
    pub fn u32(&mut self, v: u32) -> (r: Result<(), NetError>)
        ensures
            r.is_ok(),
            final(self).out@ == old(self).out@ + common::le_bytes(v as int, 4),
    {
        self.push_le(v, 4);
        Ok(())
    }

    /// Little-endian numbers of two bytes.
    pub fn i16s(&mut self, v: &[i16]) -> (r: Result<(), NetError>)
        ensures
            r.is_ok(),
            final(self).out@ == old(self).out@ + common::plain_bytes(ints16(v@), 2, 32768),
    {
        let ghost start = self.out@;
        let mut i: usize = 0;
        assert(start + common::plain_bytes(ints16(v@.subrange(0, 0)), 2, 32768) =~= start);
        while i < v.len()
            invariant
                i <= v@.len(),
                self.out@ == start + common::plain_bytes(ints16(v@.subrange(0, i as int)), 2, 32768),
            decreases v@.len() - i,
        {
            let ghost before = self.out@;
            let x: i32 = v[i] as i32;
            let w: u32 = if x < 0 {
                (x + 65536) as u32
            } else {
                x as u32
            };
            self.push_le(w, 2);
            i += 1;
            proof {
                let now = ints16(v@.subrange(0, i as int));
                assert(now.drop_last() =~= ints16(v@.subrange(0, i - 1)));
                assert(self.out@ =~= start + common::plain_bytes(now, 2, 32768));
            }
        }
        assert(v@.subrange(0, i as int) =~= v@);
        Ok(())
    }

    /// Numbers of one byte.
    pub fn i8s(&mut self, v: &[i8]) -> (r: Result<(), NetError>)
        ensures
            r.is_ok(),
            final(self).out@ == old(self).out@ + common::plain_bytes(ints8(v@), 1, 128),
    {
        let ghost start = self.out@;
        let mut i: usize = 0;
        assert(start + common::plain_bytes(ints8(v@.subrange(0, 0)), 1, 128) =~= start);
        while i < v.len()
            invariant
                i <= v@.len(),
                self.out@ == start + common::plain_bytes(ints8(v@.subrange(0, i as int)), 1, 128),
            decreases v@.len() - i,
        {
            let ghost before = self.out@;
            let x: i32 = v[i] as i32;
            let w: u32 = if x < 0 {
                (x + 256) as u32
            } else {
                x as u32
            };
            self.push_le(w, 1);
            i += 1;
            proof {
                let now = ints8(v@.subrange(0, i as int));
                assert(now.drop_last() =~= ints8(v@.subrange(0, i - 1)));
                assert(self.out@ =~= start + common::plain_bytes(now, 1, 128));
            }
        }
        assert(v@.subrange(0, i as int) =~= v@);
        Ok(())
    }

    /// Little-endian numbers of four bytes.
    pub fn i32s(&mut self, v: &[i32]) -> (r: Result<(), NetError>)
        ensures
            r.is_ok(),
            final(self).out@ == old(self).out@ + common::plain_bytes(ints32(v@), 4, 0x8000_0000),
    {
        let ghost start = self.out@;
        let mut i: usize = 0;
        assert(start + common::plain_bytes(ints32(v@.subrange(0, 0)), 4, 0x8000_0000) =~= start);
        while i < v.len()
            invariant
                i <= v@.len(),
                self.out@ == start + common::plain_bytes(
                    ints32(v@.subrange(0, i as int)),
                    4,
                    0x8000_0000,
                ),
            decreases v@.len() - i,
        {
            let ghost before = self.out@;
            let x: i64 = v[i] as i64;
            let w: u32 = if x < 0 {
                (x + 0x1_0000_0000) as u32
            } else {
                x as u32
            };
            self.push_le(w, 4);
            i += 1;
            proof {
                let now = ints32(v@.subrange(0, i as int));
                assert(now.drop_last() =~= ints32(v@.subrange(0, i - 1)));
                assert(self.out@ =~= start + common::plain_bytes(now, 4, 0x8000_0000));
            }
        }
        assert(v@.subrange(0, i as int) =~= v@);
        Ok(())
    }

    /// One compressed block. A payload too long for its length word is an error, found after
    /// the marker has been written.
    pub fn leb128(&mut self, v: &[i32]) -> (r: Result<(), NetError>)
        ensures
            r.is_ok() == (common::leb_block(ints32(v@)).len() < 0x1_0000_0000),
            (match r {
                Ok(_) => final(self).out@ == old(self).out@ + block_of(ints32(v@)),
                Err(e) => e == NetError::Truncated && final(self).out@ == old(self).out@
                    + LEB128_MAGIC@,
            }),
    {
        let ghost start = self.out@;
        let _ = self.write_all(vstd::array::array_as_slice(&LEB128_MAGIC));
        let payload = leb_payload(v);
        if payload.len() > 0xFFFF_FFFF {
            return Err(NetError::Truncated);
        }
        let _ = self.u32(payload.len() as u32);
        let _ = self.write_all(payload.as_slice());
        assert(self.out@ =~= start + block_of(ints32(v@)));
        Ok(())
    }

    /// One compressed block from numbers of two bytes.
    pub fn leb128_i16(&mut self, v: &[i16]) -> (r: Result<(), NetError>)
        ensures
            r.is_ok() == (common::leb_block(ints16(v@)).len() < 0x1_0000_0000),
            (match r {
                Ok(_) => final(self).out@ == old(self).out@ + block_of(ints16(v@)),
                Err(e) => e == NetError::Truncated && final(self).out@ == old(self).out@
                    + LEB128_MAGIC@,
            }),
    {
        let mut wide: Vec<i32> = Vec::new();
        while wide.len() < v.len()
            invariant
                wide@.len() <= v@.len(),
                forall|i: int| 0 <= i < wide@.len() ==> #[trigger] wide@[i] == v@[i],
            decreases v@.len() - wide@.len(),
        {
            let x: i32 = v[wide.len()] as i32;
            wide.push(x);
        }
        assert(ints32(wide@) =~= ints16(v@));
        self.leb128(wide.as_slice())
    }

    /// The same block from a vector that is given away.
    pub fn leb128_i16_from(&mut self, v: Vec<i16>) -> (r: Result<(), NetError>)
        ensures
            r.is_ok() == (common::leb_block(ints16(v@)).len() < 0x1_0000_0000),
            (match r {
                Ok(_) => final(self).out@ == old(self).out@ + block_of(ints16(v@)),
                Err(e) => e == NetError::Truncated && final(self).out@ == old(self).out@
                    + LEB128_MAGIC@,
            }),
    {
        self.leb128_i16(v.as_slice())
    }
}

/// The payload of a compressed block.
fn leb_payload(v: &[i32]) -> (r: Vec<u8>)
    ensures
        r@ == common::leb_block(ints32(v@)),
{
    let mut out: Vec<u8> = Vec::new();
    let mut i: usize = 0;
    assert(ints32(v@.subrange(0, 0)).len() == 0);
    while i < v.len()
        invariant
            i <= v@.len(),
            out@ == common::leb_block(ints32(v@.subrange(0, i as int))),
        decreases v@.len() - i,
    {
        let ghost before = out@;
        push_leb(&mut out, v[i]);
        i += 1;
        proof {
            let now = ints32(v@.subrange(0, i as int));
            assert(now.drop_last() =~= ints32(v@.subrange(0, i - 1)));
            assert(now.last() == v@[i - 1]);
        }
    }
    assert(v@.subrange(0, i as int) =~= v@);
    out
}

/// Append the bytes of one value.
fn push_leb(out: &mut Vec<u8>, value: i32)
    ensures
        final(out)@ == old(out)@ + common::leb_bytes(value as int),
{
    let ghost start = out@;
    let mut x: i64 = value as i64;
    let ghost mut done = Seq::<u8>::empty();
    assert(start + done =~= start);
    assert(done + common::leb_bytes(value as int) =~= common::leb_bytes(value as int));
    loop
        invariant
            -0x8000_0000 <= x < 0x8000_0000,
            start == old(out)@,
            out@ == start + done,
            done + common::leb_bytes(x as int) == common::leb_bytes(value as int),
        decreases (if x < 0 {
            -x
        } else {
            x as int
        }),
    {
        // Offset by a multiple of 128, so that both parts are of a number that is not
        // negative.
        let y: u64 = (x + 0x8_0000_0000) as u64;
        let low: u8 = (y % 128) as u8;
        let rest: i64 = (y / 128) as i64 - 0x1000_0000;
        assert(low == x as int % 128 && rest == x as int / 128);
        if (rest == 0 && low < 64) || (rest == -1 && low >= 64) {
            out.push(low);
            assert(common::leb_bytes(x as int) =~= seq![low]);
            assert(out@ =~= start + common::leb_bytes(value as int));
            return;
        }
        out.push(low + 128);
        proof {
            let byte = (low + 128) as u8;
            let tail = common::leb_bytes(rest as int);
            assert(common::leb_bytes(x as int) == seq![byte] + tail);
            assert(done.push(byte) + tail =~= done + (seq![byte] + tail));
            assert(out@ =~= start + done.push(byte));
            done = done.push(byte);
        }
        x = rest;
    }
}

} // verus!
