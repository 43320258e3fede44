//! The compressed values of a table, and how one of them is read.
//!
//! The values are compressed by recursive pairing: a symbol stands for two others, down to
//! symbols that stand for one value. The symbols are written in a canonical prefix code, in
//! blocks that a sparse index leads to. What a file says about itself is not trusted: a read
//! past its end gives zero, and every walk is bounded.

use vstd::prelude::*;
use crate::platform::syzygy::tables::IndexTables;
use crate::platform::syzygy::tables;

verus! {

/// The table holds one side to move only.
pub const FLAG_STM: u8 = 1;

/// The values are mapped through a table of their own.
pub const FLAG_MAPPED: u8 = 2;

/// The distance of a win is in plies.
pub const FLAG_WIN_PLIES: u8 = 4;

/// The distance of a loss is in plies.
pub const FLAG_LOSS_PLIES: u8 = 8;

/// The map has two bytes for each value.
pub const FLAG_WIDE: u8 = 16;

/// Every position has the same value.
pub const FLAG_SINGLE_VALUE: u8 = 128;

/// The length table's mark for a bucket with codes of two lengths.
pub const NO_FAST_LEN: u8 = 255;

/// The most leading bits that the length table is indexed by.
pub const LEN_TAB_MAX_BITS: u8 = 12;

/// A flag is set.
pub open spec fn is_set(flags: u8, f: u8) -> bool {
    (flags / f) % 2 == 1
}

/// Whether a flag is set.
pub fn has_flag(flags: u8, f: u8) -> (r: bool)
    requires
        f > 0,
    ensures
        r == is_set(flags, f),
{
    (flags / f) % 2 == 1
}

/// Everything that is needed to read one part of a table.
#[derive(Clone, Debug)]
pub struct PairsData {
    pub flags: u8,
    pub max_sym_len: u8,
    /// The value itself in a table with a single one.
    pub min_sym_len: u8,
    pub blocks_num: u32,
    pub sizeof_block: u64,
    pub span: u64,
    pub lowest_sym: u64,
    /// Where the pairing tree is: three bytes for each symbol, two children of 12 bits.
    pub btree: u64,
    pub block_length: u128,
    pub block_length_size: u32,
    pub sparse_index: u128,
    pub sparse_index_size: u64,
    /// Where the compressed values are.
    pub data: u128,
    /// The lowest code of each length, padded to 64 bits.
    pub base64: Vec<u64>,
    /// For the leading bits of a code, the place of its length in `base64`.
    pub len_tab: Vec<u8>,
    pub len_tab_shift: u64,
    /// How many values each symbol stands for, less one.
    pub symlen: Vec<u8>,
    /// The order of the pieces.
    pub pieces: [u8; 7],
    /// What each group of pieces is multiplied by.
    pub group_idx: [u64; 8],
    /// How many pieces each group has, with a zero behind the last.
    pub group_len: [i32; 8],
    /// Where the map of each outcome starts.
    pub map_idx: [u16; 4],
}

impl Default for PairsData {
    /// Nothing at all.
    fn default() -> (r: PairsData)
        ensures
            r.flags == 0,
            r.max_sym_len == 0,
            r.min_sym_len == 0,
            r.blocks_num == 0,
            r.span == 0,
            r.lowest_sym == 0,
            r.btree == 0,
            r.block_length_size == 0,
            r.sparse_index_size == 0,
            r.len_tab_shift == 0,
            r.sparse_index == 0,
            r.block_length == 0,
            r.data == 0,
            r.sizeof_block == 0,
            r.base64@.len() == 0,
            r.len_tab@.len() == 0,
            r.symlen@.len() == 0,
            forall|i: int| 0 <= i < 8 ==> #[trigger] r.group_len@[i] == 0,
            forall|i: int| 0 <= i < 8 ==> #[trigger] r.group_idx@[i] == 0,
            forall|i: int| 0 <= i < 7 ==> #[trigger] r.pieces@[i] == 0,
            forall|i: int| 0 <= i < 4 ==> #[trigger] r.map_idx@[i] == 0,
    {
        PairsData {
            flags: 0,
            max_sym_len: 0,
            min_sym_len: 0,
            blocks_num: 0,
            sizeof_block: 0,
            span: 0,
            lowest_sym: 0,
            btree: 0,
            block_length: 0,
            block_length_size: 0,
            sparse_index: 0,
            sparse_index_size: 0,
            data: 0,
            base64: Vec::new(),
            len_tab: Vec::new(),
            len_tab_shift: 0,
            symlen: Vec::new(),
            pieces: [0; 7],
            group_idx: [0; 8],
            group_len: [0; 8],
            map_idx: [0; 4],
        }
    }
}

// ---------------------------------------------------------------------------
// Reading
// ---------------------------------------------------------------------------

/// The little-endian number of two bytes, or zero past the end.
pub open spec fn le16(b: Seq<u8>, off: int) -> int {
    if 0 <= off && off + 2 <= b.len() {
        b[off] + 0x100 * b[off + 1]
    } else {
        0
    }
}

/// The little-endian number of four bytes, or zero past the end.
pub open spec fn le32(b: Seq<u8>, off: int) -> int {
    if 0 <= off && off + 4 <= b.len() {
        b[off] + 0x100 * b[off + 1] + 0x1_0000 * b[off + 2] + 0x100_0000 * b[off + 3]
    } else {
        0
    }
}

/// The big-endian number of four bytes, or zero past the end.
pub open spec fn be32(b: Seq<u8>, off: int) -> int {
    if 0 <= off && off + 4 <= b.len() {
        b[off + 3] + 0x100 * b[off + 2] + 0x1_0000 * b[off + 1] + 0x100_0000 * b[off]
    } else {
        0
    }
}

/// The big-endian number of eight bytes, or zero past the end.
pub open spec fn be64(b: Seq<u8>, off: int) -> int {
    if 0 <= off && off + 8 <= b.len() {
        be32(b, off + 4) + 0x1_0000_0000 * be32(b, off)
    } else {
        0
    }
}

/// Read a little-endian number of two bytes.
pub fn u16_le(b: &[u8], off: u128) -> (r: u16)
    ensures
        r == le16(b@, off as int),
{
    let n: usize = b.len();
    if n >= 2 && off <= (n - 2) as u128 {
        let i = off as usize;
        b[i] as u16 + 0x100 * b[i + 1] as u16
    } else {
        0
    }
}

/// Read a little-endian number of four bytes.
pub fn u32_le(b: &[u8], off: u128) -> (r: u32)
    ensures
        r == le32(b@, off as int),
{
    let n: usize = b.len();
    if n >= 4 && off <= (n - 4) as u128 {
        let i = off as usize;
        b[i] as u32 + 0x100 * b[i + 1] as u32 + 0x1_0000 * b[i + 2] as u32 + 0x100_0000 * b[i
            + 3] as u32
    } else {
        0
    }
}

/// Read a big-endian number of four bytes.
pub fn u32_be(b: &[u8], off: u128) -> (r: u32)
    ensures
        r == be32(b@, off as int),
{
    let n: usize = b.len();
    if n >= 4 && off <= (n - 4) as u128 {
        let i = off as usize;
        b[i + 3] as u32 + 0x100 * b[i + 2] as u32 + 0x1_0000 * b[i + 1] as u32 + 0x100_0000
            * b[i] as u32
    } else {
        0
    }
}

/// Read a big-endian number of eight bytes.
pub fn u64_be(b: &[u8], off: u128) -> (r: u64)
    ensures
        r == be64(b@, off as int),
{
    let n: usize = b.len();
    if n >= 8 && off <= (n - 8) as u128 {
        u32_be(b, off + 4) as u64 + 0x1_0000_0000 * u32_be(b, off) as u64
    } else {
        0
    }
}

// ---------------------------------------------------------------------------
// Symbols
// ---------------------------------------------------------------------------

impl PairsData {
    /// Where a symbol's three bytes are.
    pub open spec fn node(&self, sym: int) -> int {
        self.btree + 3 * sym
    }

    /// The left child of a symbol, or the value of one that stands for a single value.
    pub open spec fn left_of(&self, b: Seq<u8>, sym: int) -> int {
        let o = self.node(sym);
        if 0 <= o && o + 3 <= b.len() {
            0x100 * (b[o + 1] % 16) + b[o]
        } else {
            0
        }
    }

    /// The right child of a symbol; 4095 for one that stands for a single value.
    pub open spec fn right_of(&self, b: Seq<u8>, sym: int) -> int {
        let o = self.node(sym);
        if 0 <= o && o + 3 <= b.len() {
            0x10 * b[o + 2] + b[o + 1] as int / 16
        } else {
            0xFFF
        }
    }

    /// How many values a symbol stands for, less one; a symbol that does not exist stands for
    /// one.
    pub open spec fn extra(&self, sym: int) -> int {
        if 0 <= sym < self.symlen@.len() {
            self.symlen@[sym] as int
        } else {
            0
        }
    }

    /// The left child of a symbol.
    pub fn left(&self, b: &[u8], sym: u128) -> (r: usize)
        requires
            sym < 0x1_0000_0000_0000_0000_0000,
        ensures
            r == self.left_of(b@, sym as int),
            r <= 0xFFF,
    {
        let o: u128 = self.btree as u128 + 3 * sym;
        let n: usize = b.len();
        if n >= 3 && o <= (n - 3) as u128 {
            let i = o as usize;
            0x100 * (b[i + 1] % 16) as usize + b[i] as usize
        } else {
            0
        }
    }

    /// The right child of a symbol.
    pub fn right(&self, b: &[u8], sym: u128) -> (r: usize)
        requires
            sym < 0x1_0000_0000_0000_0000_0000,
        ensures
            r == self.right_of(b@, sym as int),
            r <= 0xFFF,
    {
        let o: u128 = self.btree as u128 + 3 * sym;
        let n: usize = b.len();
        if n >= 3 && o <= (n - 3) as u128 {
            let i = o as usize;
            0x10 * b[i + 2] as usize + (b[i + 1] / 16) as usize
        } else {
            0xFFF
        }
    }

    /// How many values a symbol stands for, less one.
    fn symlen_of(&self, sym: u128) -> (r: u8)
        ensures
            r == self.extra(sym as int),
    {
        if sym < self.symlen.len() as u128 {
            self.symlen[sym as usize]
        } else {
            0
        }
    }

    /// The value at `offset` among those that a symbol stands for, found by going to the left
    /// or to the right at most `steps` times.
    pub open spec fn descend(&self, b: Seq<u8>, sym: int, offset: int, steps: int) -> int
        decreases steps,
    {
        if self.extra(sym) == 0 || steps <= 0 {
            self.left_of(b, sym)
        } else {
            let l = self.left_of(b, sym);
            if offset < self.extra(l) + 1 {
                self.descend(b, l, offset, steps - 1)
            } else {
                self.descend(b, self.right_of(b, sym), offset - (self.extra(l) + 1), steps - 1)
            }
        }
    }

    /// Every symbol that stands for more than one value stands for those of its two children,
    /// which come below it in some order.
    pub open spec fn ordered(&self, b: Seq<u8>, rank: spec_fn(int) -> int) -> bool {
        forall|s: int|
            0 <= s < self.symlen@.len() && #[trigger] self.right_of(b, s) != 0xFFF ==> {
                let l = self.left_of(b, s);
                let r = self.right_of(b, s);
                &&& l < self.symlen@.len()
                &&& r < self.symlen@.len()
                &&& 0 <= rank(l) < rank(s)
                &&& 0 <= rank(r) < rank(s)
            }
    }

    /// The count of every symbol is the sum of its children's.
    pub open spec fn summed(&self, b: Seq<u8>) -> bool {
        forall|s: int|
            0 <= s < self.symlen@.len() ==> self.settled(b, self.symlen@, s)
    }

    /// The count of a symbol is the sum of its children's.
    pub open spec fn settled(&self, b: Seq<u8>, counts: Seq<u8>, s: int) -> bool {
        if self.right_of(b, s) == 0xFFF {
            counts[s] == 0
        } else {
            let l = self.left_of(b, s);
            let r = self.right_of(b, s);
            &&& l < counts.len()
            &&& r < counts.len()
            &&& counts[s] == (counts[l] + counts[r] + 1) % 256
        }
    }

    /// The values that a symbol stands for.
    pub open spec fn values(&self, b: Seq<u8>, rank: spec_fn(int) -> int, s: int) -> Seq<int>
        decreases rank(s),
        when self.ordered(b, rank) && 0 <= s < self.symlen@.len() && 0 <= rank(s)
    {
        if self.right_of(b, s) == 0xFFF {
            seq![self.left_of(b, s)]
        } else {
            self.values(b, rank, self.left_of(b, s)) + self.values(b, rank, self.right_of(b, s))
        }
    }
}

/// Where the counts are sums and none of them is cut, going down the tree finds the value that
/// the symbol holds at the offset.
pub proof fn law_descent_finds_the_value(
    d: &PairsData,
    b: Seq<u8>,
    rank: spec_fn(int) -> int,
    s: int,
    offset: int,
    steps: int,
)
    requires
        d.ordered(b, rank),
        0 <= s < d.symlen@.len(),
        0 <= rank(s) < steps,
        forall|t: int|
            0 <= t < d.symlen@.len() ==> (#[trigger] d.symlen@[t]) + 1 == d.values(b, rank, t).len(),
        0 <= offset <= d.symlen@[s],
    ensures
        d.descend(b, s, offset, steps) == d.values(b, rank, s)[offset],
    decreases steps,
{
    assert(d.symlen@[s] + 1 == d.values(b, rank, s).len());
    if d.right_of(b, s) != 0xFFF {
        let l = d.left_of(b, s);
        let r = d.right_of(b, s);
        assert(d.symlen@[l] + 1 == d.values(b, rank, l).len());
        assert(d.symlen@[r] + 1 == d.values(b, rank, r).len());
        if offset < d.symlen@[l] + 1 {
            law_descent_finds_the_value(d, b, rank, l, offset, steps - 1);
        } else {
            law_descent_finds_the_value(d, b, rank, r, offset - (d.symlen@[l] + 1), steps - 1);
        }
    }
}

// ---------------------------------------------------------------------------
// Codes
// ---------------------------------------------------------------------------

/// The place of the length of the code at the head of `buf`, from `i` on: the first whose
/// lowest code is not above it.
pub open spec fn length_from(base64: Seq<u64>, buf: u64, i: int) -> int
    decreases base64.len() - i,
{
    if i + 1 < base64.len() && buf < base64[i] {
        length_from(base64, buf, i + 1)
    } else {
        i
    }
}

proof fn lemma_length_from(base64: Seq<u64>, buf: u64, i: int)
    requires
        0 <= i,
        i < base64.len(),
    ensures
        i <= length_from(base64, buf, i) < base64.len(),
    decreases base64.len() - i,
{
    if i + 1 < base64.len() && buf < base64[i] {
        lemma_length_from(base64, buf, i + 1);
    }
}

/// A code between two others does not have a length outside theirs.
proof fn lemma_length_between(base64: Seq<u64>, lo: u64, buf: u64, hi: u64, i: int)
    requires
        lo <= buf <= hi,
        0 <= i < base64.len(),
    ensures
        length_from(base64, hi, i) <= length_from(base64, buf, i) <= length_from(base64, lo, i),
    decreases base64.len() - i,
{
    if i + 1 < base64.len() {
        lemma_length_between(base64, lo, buf, hi, i + 1);
        lemma_length_from(base64, lo, i + 1);
        lemma_length_from(base64, buf, i + 1);
    }
}

/// The place of the length of the code at the head of `buf`.
fn walk_len(base64: &Vec<u64>, buf: u64) -> (r: usize)
    requires
        base64@.len() > 0,
    ensures
        r == length_from(base64@, buf, 0),
        r < base64@.len(),
{
    let mut i: usize = 0;
    while i < base64.len() - 1 && buf < base64[i]
        invariant
            i < base64@.len(),
            length_from(base64@, buf, 0) == length_from(base64@, buf, i as int),
        decreases base64@.len() - i,
    {
        i += 1;
    }
    i
}

/// How many leading bits the length table is for.
pub open spec fn fast_bits(max_sym_len: int) -> int {
    if max_sym_len < 1 {
        1
    } else if max_sym_len > LEN_TAB_MAX_BITS {
        LEN_TAB_MAX_BITS as int
    } else {
        max_sym_len
    }
}

/// The place of the length that the codes with the leading bits `k` have, or the mark where the
/// lowest and the highest of them differ.
pub open spec fn bucket_length(base64: Seq<u64>, shift: u64, k: u64) -> int {
    let low = k << shift;
    let high = low | ((1u64 << shift) - 1) as u64;
    if length_from(base64, low, 0) == length_from(base64, high, 0) {
        length_from(base64, low, 0)
    } else {
        NO_FAST_LEN as int
    }
}

impl PairsData {
    /// The length table: one bucket for every value of the leading bits, with the length that
    /// its lowest and its highest code have in common, or the mark.
    pub open spec fn len_tab_built(&self) -> bool {
        let bits = fast_bits(self.max_sym_len as int);
        &&& self.len_tab_shift == 64 - bits
        &&& self.len_tab@.len() == vstd::arithmetic::power2::pow2(bits as nat)
        &&& forall|k: int|
            0 <= k < self.len_tab@.len() ==> #[trigger] self.len_tab@[k] == bucket_length(
                self.base64@,
                self.len_tab_shift,
                k as u64,
            )
    }

    /// A bucket of the length table that gives a length gives that of every code in it.
    pub open spec fn fast_ok(&self) -> bool {
        &&& self.len_tab_shift < 64
        &&& forall|buf: u64|
            ({
                let k = #[trigger] (buf >> self.len_tab_shift);
                k < self.len_tab@.len() && self.len_tab@[k as int] != NO_FAST_LEN
                    ==> self.len_tab@[k as int] == length_from(self.base64@, buf, 0)
            })
    }

    /// The part's places are within a number that no file reaches.
    pub open spec fn placed(&self) -> bool {
        &&& self.sparse_index <= 0x4000_0000_0000_0000_0000_0000_0000
        &&& self.block_length <= 0x4000_0000_0000_0000_0000_0000_0000
        &&& self.data <= 0x4000_0000_0000_0000_0000_0000_0000
    }

    /// The part can be read: its one value, or its codes and its index.
    pub open spec fn readable(&self) -> bool {
        is_set(self.flags, FLAG_SINGLE_VALUE) || {
            &&& self.span > 0
            &&& 0 < self.base64@.len() <= 64
            &&& 1 <= self.min_sym_len
            &&& self.min_sym_len + self.base64@.len() <= 65
            &&& self.placed()
            &&& self.fast_ok()
        }
    }

    /// The symbol of the code at the head of `buf`.
    pub open spec fn symbol(&self, b: Seq<u8>, buf: u64) -> int {
        let n = length_from(self.base64@, buf, 0);
        let code = (buf - self.base64@[n]) % 0x1_0000_0000_0000_0000;
        code / (vstd::arithmetic::power2::pow2((64 - (n + self.min_sym_len)) as nat) as int) + le16(
            b,
            self.lowest_sym + 2 * n,
        )
    }

    /// How many bits the code at the head of `buf` takes.
    pub open spec fn code_bits(&self, buf: u64) -> int {
        length_from(self.base64@, buf, 0) + self.min_sym_len
    }

    /// The symbol that holds the value at `offset` from here on, and the offset in it. The
    /// window holds `size` bits that have not been read, and is filled up from `ptr`.
    pub open spec fn find_symbol(&self, b: Seq<u8>, buf: u64, size: int, ptr: int, offset: int) -> (
        int,
        int,
    )
        decreases offset,
    {
        let sym = self.symbol(b, buf);
        let n = self.extra(sym) + 1;
        if offset < n || n <= 0 {
            (sym, offset)
        } else {
            let bits = self.code_bits(buf);
            let next = if bits < 64 {
                buf << (bits as u64)
            } else {
                0
            };
            let left = size - bits;
            if left > 32 {
                self.find_symbol(b, next, left, ptr, offset - n)
            } else {
                let shift = 32 - left;
                let filled = if 0 <= shift < 64 {
                    next | ((be32(b, ptr) as u64) << (shift as u64))
                } else {
                    next
                };
                self.find_symbol(b, filled, left + 32, ptr + 4, offset - n)
            }
        }
    }

    /// The values of a block, less one.
    pub open spec fn block_extra(&self, b: Seq<u8>, block: int) -> int {
        le16(b, self.block_length + 2 * block)
    }

    /// Back to the block that holds an offset before this one.
    pub open spec fn walk_back(&self, b: Seq<u8>, block: int, offset: int) -> (int, int)
        decreases block,
    {
        if offset < 0 && block > 0 {
            self.walk_back(b, block - 1, offset + self.block_extra(b, block - 1) + 1)
        } else {
            (block, offset)
        }
    }

    /// On to the block that holds an offset behind this one, no further than the last.
    pub open spec fn walk_on(&self, b: Seq<u8>, block: int, offset: int, last: int) -> (int, int)
        decreases last - block,
    {
        if offset > self.block_extra(b, block) && block < last {
            self.walk_on(b, block + 1, offset - self.block_extra(b, block) - 1, last)
        } else {
            (block, offset)
        }
    }

    /// The block that holds the value `idx`, and the offset in it.
    pub open spec fn locate(&self, b: Seq<u8>, idx: int) -> (int, int) {
        let k = idx / (self.span as int);
        let last = if self.block_length_size == 0 {
            0
        } else {
            self.block_length_size - 1
        };
        let near = le32(b, self.sparse_index + 6 * k);
        let start = if near < last {
            near
        } else {
            last
        };
        let offset = le16(b, self.sparse_index + 6 * k + 4) + idx % (self.span as int)
            - self.span as int / 2;
        let (block, rest) = self.walk_back(b, start, offset);
        self.walk_on(b, block, rest, last)
    }

    /// The value `idx` of the part.
    pub open spec fn value_at(&self, b: Seq<u8>, idx: int) -> int {
        if is_set(self.flags, FLAG_SINGLE_VALUE) {
            self.min_sym_len as int
        } else {
            let (block, offset) = self.locate(b, idx);
            let at = self.data + block * self.sizeof_block;
            let (sym, inner) = self.find_symbol(b, be64(b, at) as u64, 64, at + 8, offset);
            self.descend(b, sym, inner, self.symlen@.len() as int + 1)
        }
    }
}

/// The place of the length of the code at the head of `buf`, from the length table where it
/// gives one.
fn code_place(d: &PairsData, buf: u64) -> (r: usize)
    requires
        d.base64@.len() > 0,
        d.fast_ok(),
    ensures
        r == length_from(d.base64@, buf, 0),
        r < d.base64@.len(),
{
    proof {
        lemma_length_from(d.base64@, buf, 0);
    }
    let k = buf >> d.len_tab_shift;
    if k < d.len_tab.len() as u64 {
        let n = d.len_tab[k as usize];
        if n != NO_FAST_LEN {
            return n as usize;
        }
    }
    walk_len(&d.base64, buf)
}

/// The symbol of the code at the head of `buf`, and the bits that the code takes.
fn read_symbol(d: &PairsData, b: &[u8], buf: u64) -> (r: (u128, u64))
    requires
        d.readable(),
        !is_set(d.flags, FLAG_SINGLE_VALUE),
    ensures
        r.0 == d.symbol(b@, buf),
        r.1 == d.code_bits(buf),
        1 <= r.1 <= 64,
        r.0 < 0x1_0000_0000_0001_0000,
{
    let n = code_place(d, buf);
    let bits: u64 = n as u64 + d.min_sym_len as u64;
    let shift: u64 = 64 - bits;
    let code = buf.wrapping_sub(d.base64[n]);
    proof {
        vstd::bits::lemma_u64_shr_is_div(code, shift);
        assert(code == (buf - d.base64@[n as int]) % 0x1_0000_0000_0000_0000);
    }
    let low = u16_le(b, d.lowest_sym as u128 + 2 * n as u128);
    ((code >> shift) as u128 + low as u128, bits)
}

/// The block that holds the value `idx`, and the offset in it.
fn locate_block(d: &PairsData, b: &[u8], idx: u64) -> (r: (u32, i128))
    requires
        d.span > 0,
        d.placed(),
    ensures
        (r.0 as int, r.1 as int) == d.locate(b@, idx as int),
        -0x2_0000_0000_0000_0000 <= r.1 <= 0x2_0000_0000_0000_0000,
{
    let k: u64 = idx / d.span;
    let last: u32 = if d.block_length_size == 0 {
        0
    } else {
        d.block_length_size - 1
    };
    let near = u32_le(b, d.sparse_index + 6 * k as u128);
    let mut block: u32 = if near < last {
        near
    } else {
        last
    };
    let mut offset: i128 = u16_le(b, d.sparse_index + 6 * k as u128 + 4) as i128 + (idx
        % d.span) as i128 - (d.span / 2) as i128;
    let ghost start = (block as int, offset as int);
    while offset < 0 && block > 0
        invariant
            block <= last,
            d.placed(),
            d.walk_back(b@, start.0, start.1) == d.walk_back(b@, block as int, offset as int),
            -0x2_0000_0000_0000_0000 <= offset <= 0x1_0000_0000_0002_0000,
        decreases block,
    {
        block -= 1;
        offset = offset + u16_le(b, d.block_length + 2 * block as u128) as i128 + 1;
    }
    let ghost middle = (block as int, offset as int);
    let mut on: bool = true;
    while on
        invariant
            block <= last,
            d.placed(),
            d.walk_on(b@, middle.0, middle.1, last as int) == d.walk_on(
                b@,
                block as int,
                offset as int,
                last as int,
            ),
            !on ==> !(offset > d.block_extra(b@, block as int) && block < last),
            -0x2_0000_0000_0000_0000 <= offset <= 0x1_0000_0000_0002_0000,
        decreases last - block, on as int,
    {
        let extra = u16_le(b, d.block_length + 2 * block as u128) as i128;
        if offset > extra && block < last {
            offset = offset - extra - 1;
            block += 1;
        } else {
            on = false;
        }
    }
    (block, offset)
}

/// The window after a code of `bits` bits has been taken from it.
fn consume(buf: u64, bits: u64) -> (r: u64)
    requires
        bits <= 64,
    ensures
        r == if bits < 64 {
            buf << bits
        } else {
            0
        },
{
    if bits < 64 {
        buf << bits
    } else {
        0
    }
}

/// The value `idx` of a part, out of the bytes of its file.
pub fn decompress(d: &PairsData, bytes: &[u8], idx: u64) -> (r: i32)
    requires
        d.readable(),
    ensures
        r == d.value_at(bytes@, idx as int),
        0 <= r <= 0xFFF,
{
    if has_flag(d.flags, FLAG_SINGLE_VALUE) {
        return d.min_sym_len as i32;
    }
    let (block, start) = locate_block(d, bytes, idx);
    assert(block * d.sizeof_block <= 0x1_0000_0000 * 0x1_0000_0000_0000_0000) by (nonlinear_arith)
        requires
            block <= 0xFFFF_FFFF,
            d.sizeof_block <= 0xFFFF_FFFF_FFFF_FFFF,
    ;
    let at: u128 = d.data + block as u128 * d.sizeof_block as u128;
    let mut buf: u64 = u64_be(bytes, at);
    let mut ptr: u128 = at + 8;
    let mut size: i128 = 64;
    let mut offset: i128 = start;
    let ghost found = d.find_symbol(bytes@, buf, 64, at + 8, start as int);
    let (mut sym, mut bits) = read_symbol(d, bytes, buf);
    let mut extra: i128 = d.symlen_of(sym) as i128 + 1;
    while offset >= extra
        invariant
            d.readable(),
            !is_set(d.flags, FLAG_SINGLE_VALUE),
            sym == d.symbol(bytes@, buf),
            bits == d.code_bits(buf),
            1 <= bits <= 64,
            sym < 0x1_0000_0000_0001_0000,
            extra == d.extra(sym as int) + 1,
            1 <= extra <= 256,
            offset <= start <= 0x2_0000_0000_0000_0000,
            start < 0 ==> offset == start,
            start >= 0 ==> offset >= 0,
            64 - 64 * (start - offset) <= size <= 64,
            at + 8 <= ptr <= at + 8 + 4 * (start - offset),
            at <= 0x1_0000_0000_0000_0000_0000_0000_0000,
            found == d.find_symbol(bytes@, buf, size as int, ptr as int, offset as int),
        decreases offset,
    {
        offset -= extra;
        buf = consume(buf, bits);
        size -= bits as i128;
        if size <= 32 {
            let shift: i128 = 32 - size;
            size += 32;
            if shift < 64 {
                buf = buf | ((u32_be(bytes, ptr) as u64) << (shift as u64));
            }
            ptr += 4;
        }
        let (s, n) = read_symbol(d, bytes, buf);
        sym = s;
        bits = n;
        extra = d.symlen_of(sym) as i128 + 1;
    }
    let mut steps: u128 = d.symlen.len() as u128 + 1;
    let ghost value = d.descend(bytes@, sym as int, offset as int, steps as int);
    while d.symlen_of(sym) != 0 && steps > 0
        invariant
            sym < 0x1_0000_0000_0001_0000,
            offset >= -0x2_0000_0000_0000_0000 - 256 * (d.symlen@.len() + 1 - steps),
            offset <= 0x2_0000_0000_0000_0000,
            steps <= d.symlen@.len() + 1,
            value == d.descend(bytes@, sym as int, offset as int, steps as int),
        decreases steps,
    {
        steps -= 1;
        let l: u128 = d.left(bytes, sym) as u128;
        let extra: i128 = d.symlen_of(l) as i128 + 1;
        if offset < extra {
            sym = l;
        } else {
            offset -= extra;
            sym = d.right(bytes, sym) as u128;
        }
    }
    d.left(bytes, sym) as i32
}

// ---------------------------------------------------------------------------
// The length table
// ---------------------------------------------------------------------------

proof fn lemma_bucket(buf: u64, s: u64, within: u64)
    requires
        0 < s < 64,
        within == (1u64 << s) - 1,
    ensures
        ((buf >> s) << s) <= buf,
        buf <= ((buf >> s) << s) | within,
{
    assert(((buf >> s) << s) <= buf && buf <= ((buf >> s) << s) | within) by (bit_vector)
        requires
            0 < s < 64,
            within == (1u64 << s) - 1,
    ;
}

proof fn lemma_one(s: u64)
    requires
        s < 64,
    ensures
        1u64 << s >= 1,
{
    assert(1u64 << s >= 1) by (bit_vector)
        requires
            s < 64,
    ;
}

/// Fill the length table: for every value of the leading bits, the place of the length when
/// the lowest and the highest code that start with them have the same, and the mark when they
/// do not.
pub fn build_len_tab(d: &mut PairsData)
    requires
        0 < old(d).base64@.len() <= 64,
    ensures
        final(d).len_tab_built(),
        final(d).fast_ok(),
        *final(d) == (PairsData {
            len_tab: final(d).len_tab,
            len_tab_shift: final(d).len_tab_shift,
            ..*old(d)
        }),
{
    let bits: u64 = if d.max_sym_len < 1 {
        1
    } else if d.max_sym_len > LEN_TAB_MAX_BITS {
        12
    } else {
        d.max_sym_len as u64
    };
    let shift: u64 = 64 - bits;
    let count: u64 = 1u64 << bits;
    proof {
        lemma_one(shift);
        vstd::bits::lemma_u64_pow2_no_overflow(bits as nat);
        vstd::bits::lemma_u64_shl_is_mul(1, bits);
    }
    let within: u64 = (1u64 << shift) - 1;
    let mut tab: Vec<u8> = Vec::new();
    let mut bucket: u64 = 0;
    while bucket < count
        invariant
            bucket <= count,
            tab@.len() == bucket,
            0 < d.base64@.len() <= 64,
            0 < shift < 64,
            within == (1u64 << shift) - 1,
            forall|k: int|
                0 <= k < bucket ==> #[trigger] tab@[k] == bucket_length(
                    d.base64@,
                    shift,
                    k as u64,
                ),
            forall|buf: u64|
                ({
                    let k = #[trigger] (buf >> shift);
                    k < bucket && tab@[k as int] != NO_FAST_LEN ==> tab@[k as int] == length_from(
                        d.base64@,
                        buf,
                        0,
                    )
                }),
        decreases count - bucket,
    {
        let lo: u64 = bucket << shift;
        let n = walk_len(&d.base64, lo);
        let m = walk_len(&d.base64, lo | within);
        proof {
            assert forall|buf: u64| n == m && #[trigger] (buf >> shift) == bucket implies n
                == length_from(d.base64@, buf, 0) by {
                lemma_bucket(buf, shift, within);
                lemma_length_between(d.base64@, lo, buf, lo | within, 0);
            }
        }
        if n == m {
            tab.push(n as u8);
        } else {
            tab.push(NO_FAST_LEN);
        }
        bucket += 1;
    }
    d.len_tab = tab;
    d.len_tab_shift = shift;
}

// ---------------------------------------------------------------------------
// Counting the values of the symbols
// ---------------------------------------------------------------------------

/// How many entries are false.
pub open spec fn unseen(v: Seq<bool>) -> int
    decreases v.len(),
{
    if v.len() == 0 {
        0
    } else {
        unseen(v.drop_last()) + (if v.last() {
            0int
        } else {
            1int
        })
    }
}

pub proof fn lemma_unseen(v: Seq<bool>, i: int)
    requires
        0 <= i < v.len(),
        !v[i],
    ensures
        unseen(v.update(i, true)) == unseen(v) - 1,
    decreases v.len(),
{
    if i == v.len() - 1 {
        assert(v.update(i, true).drop_last() =~= v.drop_last());
    } else {
        assert(v.update(i, true).drop_last() =~= v.drop_last().update(i, true));
        lemma_unseen(v.drop_last(), i);
    }
}

pub proof fn lemma_unseen_positive(v: Seq<bool>)
    ensures
        unseen(v) >= 0,
    decreases v.len(),
{
    if v.len() > 0 {
        lemma_unseen_positive(v.drop_last());
    }
}

/// The left child of a symbol of the tree at `at`.
pub open spec fn left_at(b: Seq<u8>, at: int, sym: int) -> int {
    let o = at + 3 * sym;
    if 0 <= o && o + 3 <= b.len() {
        0x100 * (b[o + 1] % 16) + b[o]
    } else {
        0
    }
}

/// The right child of a symbol of the tree at `at`; 4095 for one that stands for a single value.
pub open spec fn right_at(b: Seq<u8>, at: int, sym: int) -> int {
    let o = at + 3 * sym;
    if 0 <= o && o + 3 <= b.len() {
        0x10 * b[o + 2] + b[o + 1] as int / 16
    } else {
        0xFFF
    }
}

/// The stack with a symbol on it, unless it has been visited.
pub open spec fn pushed(stack: Seq<(usize, bool)>, visited: Seq<bool>, s: int) -> Seq<(usize, bool)> {
    if visited[s] {
        stack
    } else {
        stack.push((s as usize, false))
    }
}

/// What has been visited and counted when the walk of the tree at `at` has come to the end of
/// its stack; `None` when it meets a symbol with a child that does not exist. A symbol waits
/// behind its children, the left one first; one that contains itself is counted with what its
/// own count is by then.
pub open spec fn walked(
    b: Seq<u8>,
    at: int,
    stack: Seq<(usize, bool)>,
    visited: Seq<bool>,
    counts: Seq<u8>,
) -> Option<(Seq<bool>, Seq<u8>)>
    decreases 3 * unseen(visited) + stack.len(),
{
    if stack.len() == 0 || stack.last().0 >= visited.len() {
        Some((visited, counts))
    } else {
        let rest = stack.drop_last();
        let s = stack.last().0 as int;
        let left = left_at(b, at, s);
        let right = right_at(b, at, s);
        proof {
            lemma_unseen_positive(visited);
            if !visited[s] {
                lemma_unseen(visited, s);
                lemma_unseen_positive(visited.update(s, true));
            }
        }
        if stack.last().1 {
            let sum = ((counts[left] + counts[right] + 1) % 256) as u8;
            walked(b, at, rest, visited, counts.update(s, sum))
        } else if visited[s] {
            walked(b, at, rest, visited, counts)
        } else if right == 0xFFF {
            walked(b, at, rest, visited.update(s, true), counts.update(s, 0))
        } else if left >= visited.len() || right >= visited.len() {
            None
        } else {
            let seen = visited.update(s, true);
            let waiting = rest.push((s as usize, true));
            walked(b, at, pushed(pushed(waiting, seen, right), seen, left), seen, counts)
        }
    }
}

/// What has been visited and counted after the walks from the symbols `s` on.
pub open spec fn walked_from(
    b: Seq<u8>,
    at: int,
    s: int,
    visited: Seq<bool>,
    counts: Seq<u8>,
) -> Option<(Seq<bool>, Seq<u8>)>
    decreases visited.len() - s,
{
    if s >= visited.len() {
        Some((visited, counts))
    } else if visited[s] {
        walked_from(b, at, s + 1, visited, counts)
    } else {
        match walked(b, at, seq![(s as usize, false)], visited, counts) {
            Some((v, c)) => if v.len() == visited.len() {
                walked_from(b, at, s + 1, v, c)
            } else {
                None
            },
            None => None,
        }
    }
}

/// How many values each of the `n` symbols of the tree at `at` stands for, less one, modulo 256.
pub open spec fn symbol_counts(b: Seq<u8>, at: int, n: int) -> Option<Seq<u8>> {
    match walked_from(
        b,
        at,
        0,
        Seq::new(n as nat, |s: int| false),
        Seq::new(n as nat, |s: int| 0u8),
    ) {
        Some((v, c)) => Some(c),
        None => None,
    }
}

impl PairsData {
    /// A symbol stands for two others, one of which does not exist among `n`.
    pub open spec fn broken(&self, b: Seq<u8>, n: int, s: int) -> bool {
        self.right_of(b, s) != 0xFFF && (self.left_of(b, s) >= n || self.right_of(b, s) >= n)
    }

    /// No symbol contains itself.
    pub open spec fn acyclic(&self, b: Seq<u8>) -> bool {
        exists|rank: spec_fn(int) -> int| self.ordered(b, rank)
    }

    /// Every symbol that has been visited is counted, and so are its children.
    pub open spec fn counted(&self, b: Seq<u8>, visited: Seq<bool>) -> bool {
        forall|s: int|
            0 <= s < self.symlen@.len() && #[trigger] visited[s] ==> {
                &&& self.settled(b, self.symlen@, s)
                &&& self.right_of(b, s) != 0xFFF ==> visited[self.left_of(b, s)]
                    && visited[self.right_of(b, s)]
            }
    }
}

/// A symbol waits on the stack for its children.
spec fn waits(stack: Seq<(usize, bool)>, s: int) -> bool {
    exists|i: int| 0 <= i < stack.len() && (#[trigger] stack[i]).1 && stack[i].0 == s
}

/// A symbol's count is final.
spec fn done(visited: Seq<bool>, stack: Seq<(usize, bool)>, s: int) -> bool {
    visited[s] && !waits(stack, s)
}

/// A symbol has been visited or will be before the stack is down to `i`.
spec fn due(visited: Seq<bool>, stack: Seq<(usize, bool)>, i: int, c: int) -> bool {
    visited[c] || exists|j: int| i < j < stack.len() && !(#[trigger] stack[j]).1 && stack[j].0 == c
}

/// What holds between two steps of the walk, where no symbol contains itself: the counts that
/// are done are sums of counts that are done; what is above a waiting symbol is below it in
/// the order; and the children of a waiting symbol are due before it.
spec fn steady(
    d: &PairsData,
    b: Seq<u8>,
    rank: spec_fn(int) -> int,
    visited: Seq<bool>,
    stack: Seq<(usize, bool)>,
) -> bool {
    &&& forall|s: int|
        0 <= s < d.symlen@.len() && #[trigger] done(visited, stack, s) ==> {
            &&& d.settled(b, d.symlen@, s)
            &&& d.right_of(b, s) != 0xFFF ==> done(visited, stack, d.left_of(b, s)) && done(
                visited,
                stack,
                d.right_of(b, s),
            )
        }
    &&& forall|i: int, j: int|
        0 <= i < j < stack.len() && (#[trigger] stack[i]).1 ==> rank(
            (#[trigger] stack[j]).0 as int,
        ) < rank(stack[i].0 as int)
    &&& forall|i: int|
        0 <= i < stack.len() && (#[trigger] stack[i]).1 ==> {
            let s = stack[i].0 as int;
            &&& visited[s]
            &&& due(visited, stack, i, d.left_of(b, s))
            &&& due(visited, stack, i, d.right_of(b, s))
        }
}

/// What holds of the stack whatever the tree is.
spec fn in_range(d: &PairsData, b: Seq<u8>, visited: Seq<bool>, stack: Seq<(usize, bool)>) -> bool {
    let n = d.symlen@.len() as int;
    &&& visited.len() == n
    &&& forall|i: int|
        0 <= i < stack.len() ==> (#[trigger] stack[i]).0 < n && (stack[i].1 ==> {
            &&& d.right_of(b, stack[i].0 as int) != 0xFFF
            &&& d.left_of(b, stack[i].0 as int) < n
            &&& d.right_of(b, stack[i].0 as int) < n
        })
    &&& forall|s: int| 0 <= s < n && #[trigger] visited[s] ==> !d.broken(b, n, s)
}

/// The walk's last step on a waiting symbol: its children are done, so it is.
proof fn lemma_step_sum(
    d: &PairsData,
    e: &PairsData,
    b: Seq<u8>,
    rank: spec_fn(int) -> int,
    visited: Seq<bool>,
    stack: Seq<(usize, bool)>,
)
    requires
        stack.len() > 0,
        stack.last().1,
        in_range(d, b, visited, stack),
        d.ordered(b, rank),
        steady(d, b, rank, visited, stack),
        e.btree == d.btree,
        ({
            let s = stack.last().0 as int;
            e.symlen@ == d.symlen@.update(
                s,
                ((d.symlen@[d.left_of(b, s)] + d.symlen@[d.right_of(b, s)] + 1) % 256) as u8,
            )
        }),
    ensures
        steady(e, b, rank, visited, stack.drop_last()),
{
    let top = stack.len() - 1;
    let s = stack[top].0 as int;
    let rest = stack.drop_last();
    let l = d.left_of(b, s);
    let r = d.right_of(b, s);
    assert(d.ordered(b, rank) && 0 <= s < d.symlen@.len() && d.right_of(b, s) != 0xFFF);
    assert(due(visited, stack, top, l) && due(visited, stack, top, r));
    assert forall|t: int| 0 <= t < d.symlen@.len() && t != s implies waits(rest, t) == waits(
        stack,
        t,
    ) by {
        if waits(stack, t) {
            let i = choose|i: int| 0 <= i < stack.len() && (#[trigger] stack[i]).1 && stack[i].0 == t;
            assert(rest[i].1 && rest[i].0 == t);
        }
        if waits(rest, t) {
            let i = choose|i: int| 0 <= i < rest.len() && (#[trigger] rest[i]).1 && rest[i].0 == t;
            assert(stack[i].1 && stack[i].0 == t);
        }
    }
    assert forall|c: int| (c == l || c == r || c == s) implies !waits(rest, c) by {
        if waits(rest, c) {
            let i = choose|i: int| 0 <= i < rest.len() && (#[trigger] rest[i]).1 && rest[i].0 == c;
            assert(stack[i].1);
            assert(rank(stack[top].0 as int) < rank(stack[i].0 as int));
        }
    }
    assert(done(visited, rest, s) && done(visited, rest, l) && done(visited, rest, r));
    assert forall|t: int| 0 <= t < e.symlen@.len() && #[trigger] done(visited, rest, t) implies {
        &&& e.settled(b, e.symlen@, t)
        &&& e.right_of(b, t) != 0xFFF ==> done(visited, rest, e.left_of(b, t)) && done(
            visited,
            rest,
            e.right_of(b, t),
        )
    } by {
        assert(e.left_of(b, t) == d.left_of(b, t) && e.right_of(b, t) == d.right_of(b, t));
        if t != s {
            assert(done(visited, stack, t));
            if d.right_of(b, t) != 0xFFF {
                assert(done(visited, stack, d.left_of(b, t)));
                assert(waits(stack, s));
            }
        }
    }
    assert forall|i: int| 0 <= i < rest.len() && (#[trigger] rest[i]).1 implies {
        let x = rest[i].0 as int;
        &&& visited[x]
        &&& due(visited, rest, i, e.left_of(b, x))
        &&& due(visited, rest, i, e.right_of(b, x))
    } by {
        let x = rest[i].0 as int;
        assert(stack[i].1);
        assert(e.left_of(b, x) == d.left_of(b, x) && e.right_of(b, x) == d.right_of(b, x));
        lemma_due_rest(visited, stack, i, d.left_of(b, x));
        lemma_due_rest(visited, stack, i, d.right_of(b, x));
    }
    assert forall|i: int, j: int| 0 <= i < j < rest.len() && (#[trigger] rest[i]).1 implies rank(
        (#[trigger] rest[j]).0 as int,
    ) < rank(rest[i].0 as int) by {
        assert(stack[i].1);
        assert(rank(stack[j].0 as int) < rank(stack[i].0 as int));
    }
}

/// What is due stays due when the top of the stack goes, if the top is visited or waits.
proof fn lemma_due_rest(visited: Seq<bool>, stack: Seq<(usize, bool)>, i: int, c: int)
    requires
        stack.len() > 0,
        0 <= i < stack.len(),
        due(visited, stack, i, c),
        stack.last().1 || visited[stack.last().0 as int],
    ensures
        due(visited, stack.drop_last(), i, c),
{
    if !visited[c] {
        let j = choose|j: int| i < j < stack.len() && !(#[trigger] stack[j]).1 && stack[j].0 == c;
        assert(!stack.drop_last()[j].1 && stack.drop_last()[j].0 == c);
    }
}

/// The walk passes over a symbol that has been visited.
proof fn lemma_step_skip(
    d: &PairsData,
    b: Seq<u8>,
    rank: spec_fn(int) -> int,
    visited: Seq<bool>,
    stack: Seq<(usize, bool)>,
)
    requires
        stack.len() > 0,
        !stack.last().1,
        visited[stack.last().0 as int],
        steady(d, b, rank, visited, stack),
    ensures
        steady(d, b, rank, visited, stack.drop_last()),
{
    let rest = stack.drop_last();
    assert forall|t: int| waits(rest, t) == waits(stack, t) by {
        if waits(stack, t) {
            let i = choose|i: int| 0 <= i < stack.len() && (#[trigger] stack[i]).1 && stack[i].0 == t;
            assert(rest[i].1 && rest[i].0 == t);
        }
        if waits(rest, t) {
            let i = choose|i: int| 0 <= i < rest.len() && (#[trigger] rest[i]).1 && rest[i].0 == t;
            assert(stack[i].1 && stack[i].0 == t);
        }
    }
    assert forall|s: int|
        0 <= s < d.symlen@.len() && #[trigger] done(visited, rest, s) implies d.settled(
        b,
        d.symlen@,
        s,
    ) && (d.right_of(b, s) != 0xFFF ==> done(visited, rest, d.left_of(b, s)) && done(
        visited,
        rest,
        d.right_of(b, s),
    )) by {
        assert(done(visited, stack, s));
    }
    assert forall|i: int| 0 <= i < rest.len() && (#[trigger] rest[i]).1 implies {
        let x = rest[i].0 as int;
        &&& visited[x]
        &&& due(visited, rest, i, d.left_of(b, x))
        &&& due(visited, rest, i, d.right_of(b, x))
    } by {
        let x = rest[i].0 as int;
        assert(stack[i].1);
        lemma_due_rest(visited, stack, i, d.left_of(b, x));
        lemma_due_rest(visited, stack, i, d.right_of(b, x));
    }
    assert forall|i: int, j: int| 0 <= i < j < rest.len() && (#[trigger] rest[i]).1 implies rank(
        (#[trigger] rest[j]).0 as int,
    ) < rank(rest[i].0 as int) by {
        assert(stack[i].1);
        assert(rank(stack[j].0 as int) < rank(stack[i].0 as int));
    }
}

/// The walk counts a symbol that stands for one value.
proof fn lemma_step_leaf(
    d: &PairsData,
    e: &PairsData,
    b: Seq<u8>,
    rank: spec_fn(int) -> int,
    visited: Seq<bool>,
    stack: Seq<(usize, bool)>,
)
    requires
        stack.len() > 0,
        !stack.last().1,
        in_range(d, b, visited, stack),
        !visited[stack.last().0 as int],
        d.right_of(b, stack.last().0 as int) == 0xFFF,
        steady(d, b, rank, visited, stack),
        e.btree == d.btree,
        e.symlen@ == d.symlen@.update(stack.last().0 as int, 0),
    ensures
        steady(e, b, rank, visited.update(stack.last().0 as int, true), stack.drop_last()),
{
    let s = stack.last().0 as int;
    let seen = visited.update(s, true);
    assert(forall|t: int| e.left_of(b, t) == d.left_of(b, t) && e.right_of(b, t) == d.right_of(b, t));
    assert(steady(e, b, rank, seen, stack)) by {
        assert(!waits(stack, s));
        assert forall|t: int| 0 <= t < e.symlen@.len() && #[trigger] done(seen, stack, t) implies {
            &&& e.settled(b, e.symlen@, t)
            &&& e.right_of(b, t) != 0xFFF ==> done(seen, stack, e.left_of(b, t)) && done(
                seen,
                stack,
                e.right_of(b, t),
            )
        } by {
            if t != s {
                assert(done(visited, stack, t));
                if d.right_of(b, t) != 0xFFF {
                    assert(done(visited, stack, d.left_of(b, t)));
                    assert(done(visited, stack, d.right_of(b, t)));
                }
            }
        }
        assert forall|i: int| 0 <= i < stack.len() && (#[trigger] stack[i]).1 implies {
            let x = stack[i].0 as int;
            &&& seen[x]
            &&& due(seen, stack, i, e.left_of(b, x))
            &&& due(seen, stack, i, e.right_of(b, x))
        } by {
            let x = stack[i].0 as int;
            assert(due(visited, stack, i, d.left_of(b, x)) && due(visited, stack, i, d.right_of(b, x)));
        }
    }
    lemma_step_skip(e, b, rank, seen, stack);
}

/// The walk goes down from a symbol to its children.
proof fn lemma_step_down(
    d: &PairsData,
    b: Seq<u8>,
    rank: spec_fn(int) -> int,
    visited: Seq<bool>,
    stack: Seq<(usize, bool)>,
    next: Seq<(usize, bool)>,
)
    requires
        stack.len() > 0,
        !stack.last().1,
        in_range(d, b, visited, stack),
        !visited[stack.last().0 as int],
        d.right_of(b, stack.last().0 as int) != 0xFFF,
        d.ordered(b, rank),
        steady(d, b, rank, visited, stack),
        stack.len() <= next.len(),
        forall|i: int| 0 <= i < stack.len() - 1 ==> #[trigger] next[i] == stack[i],
        next[stack.len() - 1] == (stack.last().0, true),
        forall|i: int|
            stack.len() <= i < next.len() ==> !(#[trigger] next[i]).1 && (next[i].0 == d.left_of(
                b,
                stack.last().0 as int,
            ) || next[i].0 == d.right_of(b, stack.last().0 as int)),
        ({
            let s = stack.last().0 as int;
            let seen = visited.update(s, true);
            &&& due(seen, next, stack.len() - 1, d.left_of(b, s))
            &&& due(seen, next, stack.len() - 1, d.right_of(b, s))
        }),
    ensures
        steady(d, b, rank, visited.update(stack.last().0 as int, true), next),
{
    let top = stack.len() - 1;
    let s = stack[top].0 as int;
    let seen = visited.update(s, true);
    assert(d.right_of(b, s) != 0xFFF && 0 <= s < d.symlen@.len());
    assert forall|t: int| t != s implies waits(next, t) == waits(stack, t) by {
        if waits(stack, t) {
            let i = choose|i: int| 0 <= i < stack.len() && (#[trigger] stack[i]).1 && stack[i].0 == t;
            assert(next[i] == stack[i]);
        }
        if waits(next, t) {
            let i = choose|i: int| 0 <= i < next.len() && (#[trigger] next[i]).1 && next[i].0 == t;
            assert(i < top);
            assert(next[i] == stack[i]);
        }
    }
    assert(waits(next, s)) by {
        assert(next[top].1 && next[top].0 == s);
    }
    assert forall|t: int| 0 <= t < d.symlen@.len() && #[trigger] done(seen, next, t) implies {
        &&& d.settled(b, d.symlen@, t)
        &&& d.right_of(b, t) != 0xFFF ==> done(seen, next, d.left_of(b, t)) && done(
            seen,
            next,
            d.right_of(b, t),
        )
    } by {
        assert(t != s);
        assert(done(visited, stack, t));
        if d.right_of(b, t) != 0xFFF {
            assert(done(visited, stack, d.left_of(b, t)));
            assert(done(visited, stack, d.right_of(b, t)));
        }
    }
    assert forall|i: int| 0 <= i < next.len() && (#[trigger] next[i]).1 implies {
        let x = next[i].0 as int;
        &&& seen[x]
        &&& due(seen, next, i, d.left_of(b, x))
        &&& due(seen, next, i, d.right_of(b, x))
    } by {
        let x = next[i].0 as int;
        if i < top {
            assert(next[i] == stack[i]);
            assert(stack[i].1);
            lemma_due_down(visited, stack, next, i, d.left_of(b, x));
            lemma_due_down(visited, stack, next, i, d.right_of(b, x));
        }
    }
    assert forall|i: int, j: int| 0 <= i < j < next.len() && (#[trigger] next[i]).1 implies rank(
        (#[trigger] next[j]).0 as int,
    ) < rank(next[i].0 as int) by {
        assert(0 <= rank(d.left_of(b, s)) < rank(s) && 0 <= rank(d.right_of(b, s)) < rank(s));
        if i < top {
            assert(next[i] == stack[i]);
            assert(stack[i].1);
            assert(rank(stack[top].0 as int) < rank(stack[i].0 as int));
            if j < top {
                assert(next[j] == stack[j]);
                assert(rank(stack[j].0 as int) < rank(stack[i].0 as int));
            }
        }
    }
}

proof fn lemma_due_down(
    visited: Seq<bool>,
    stack: Seq<(usize, bool)>,
    next: Seq<(usize, bool)>,
    i: int,
    c: int,
)
    requires
        0 <= i < stack.len() - 1,
        stack.len() <= next.len(),
        0 <= stack.last().0 < visited.len(),
        0 <= c < visited.len(),
        due(visited, stack, i, c),
        forall|k: int| 0 <= k < stack.len() - 1 ==> #[trigger] next[k] == stack[k],
    ensures
        due(visited.update(stack.last().0 as int, true), next, i, c),
{
    if !visited[c] {
        let j = choose|j: int| i < j < stack.len() && !(#[trigger] stack[j]).1 && stack[j].0 == c;
        if j < stack.len() - 1 {
            assert(next[j] == stack[j]);
            assert(!next[j].1 && next[j].0 == c);
        }
    }
}

/// Count the values of a symbol and of all that it stands for, with a stack of its own: the
/// tree can be thousands deep. False when a symbol stands for one that does not exist.
#[verifier::spinoff_prover]
#[verifier::rlimit(60)]
pub fn compute_symlen(d: &mut PairsData, bytes: &[u8], root: usize, visited: &mut Vec<bool>) -> (r:
    bool)
    requires
        root < old(d).symlen@.len(),
        old(visited)@.len() == old(d).symlen@.len(),
        forall|s: int|
            0 <= s < old(d).symlen@.len() && #[trigger] old(visited)@[s] ==> !old(d).broken(
                bytes@,
                old(d).symlen@.len() as int,
                s,
            ),
    ensures
        *final(d) == (PairsData { symlen: final(d).symlen, ..*old(d) }),
        final(d).symlen@.len() == old(d).symlen@.len(),
        final(visited)@.len() == old(visited)@.len(),
        forall|s: int|
            0 <= s < old(d).symlen@.len() && #[trigger] old(visited)@[s] ==> final(visited)@[s],
        forall|s: int|
            0 <= s < old(d).symlen@.len() && #[trigger] final(visited)@[s] ==> !old(d).broken(
                bytes@,
                old(d).symlen@.len() as int,
                s,
            ),
        r ==> final(visited)@[root as int],
        match walked(
            bytes@,
            old(d).btree as int,
            seq![(root, false)],
            old(visited)@,
            old(d).symlen@,
        ) {
            Some((v, c)) => r && final(visited)@ == v && final(d).symlen@ == c,
            None => !r,
        },
        r ==> old(d).acyclic(bytes@) && old(d).counted(bytes@, old(visited)@) ==> final(d).counted(
            bytes@,
            final(visited)@,
        ),
        !r ==> exists|s: int|
            0 <= s < old(d).symlen@.len() && #[trigger] old(d).broken(
                bytes@,
                old(d).symlen@.len() as int,
                s,
            ),
{
    let ghost n = d.symlen@.len() as int;
    let ghost b = bytes@;
    let ghost fair = d.acyclic(b) && d.counted(b, visited@);
    let ghost rank = choose|rank: spec_fn(int) -> int| d.ordered(b, rank);
    let ghost at = d.btree as int;
    let ghost goal = walked(b, at, seq![(root, false)], visited@, d.symlen@);
    let mut stack: Vec<(usize, bool)> = Vec::new();
    stack.push((root, false));
    proof {
        assert(stack@ =~= seq![(root, false)]);
        assert(stack@[0] == (root, false));
        if fair {
            assert(d.ordered(b, rank));
            assert forall|s: int| !waits(stack@, s) by {}
            assert forall|s: int| 0 <= s < n && #[trigger] done(visited@, stack@, s) implies d.settled(
                b,
                d.symlen@,
                s,
            ) && (d.right_of(b, s) != 0xFFF ==> done(visited@, stack@, d.left_of(b, s)) && done(
                visited@,
                stack@,
                d.right_of(b, s),
            )) by {
                assert(visited@[s]);
            }
        }
    }
    while stack.len() > 0
        invariant
            *d == (PairsData { symlen: d.symlen, ..*old(d) }),
            d.symlen@.len() == n,
            n == old(d).symlen@.len(),
            b == bytes@,
            root < n,
            in_range(d, b, visited@, stack@),
            forall|s: int| 0 <= s < n && #[trigger] old(visited)@[s] ==> visited@[s],
            old(visited)@.len() == n,
            visited@[root as int] || exists|i: int|
                0 <= i < stack@.len() && #[trigger] stack@[i] == (root, false),
            fair ==> old(d).ordered(b, rank),
            fair ==> steady(d, b, rank, visited@, stack@),
            at == old(d).btree,
            goal == walked(b, at, seq![(root, false)], old(visited)@, old(d).symlen@),
            goal == walked(b, at, stack@, visited@, d.symlen@),
        decreases 3 * unseen(visited@) + stack@.len(),
    {
        let ghost before = *d;
        let ghost seen = visited@;
        let ghost full = stack@;
        proof {
            assert(fair ==> d.ordered(b, rank)) by {
                assert(forall|s: int| old(d).right_of(b, s) == d.right_of(b, s));
                assert(forall|s: int| old(d).left_of(b, s) == d.left_of(b, s));
            }
        }
        let top = stack.pop();
        assert(full.drop_last() =~= stack@);
        let (s, expanded) = top.unwrap();
        assert((s, expanded) == full.last());
        let sr = d.right(bytes, s as u128);
        let sl = d.left(bytes, s as u128);
        assert(sr == right_at(b, at, s as int) && sl == left_at(b, at, s as int));
        if expanded {
            let sum: u8 = d.symlen[sl].wrapping_add(d.symlen[sr]).wrapping_add(1);
            d.symlen.set(s, sum);
            proof {
                if fair {
                    lemma_step_sum(&before, d, b, rank, visited@, full);
                }
            }
        } else if visited[s] {
            proof {
                if fair {
                    lemma_step_skip(d, b, rank, visited@, full);
                }
            }
        } else {
            proof {
                lemma_unseen(visited@, s as int);
            }
            if sr == 0xFFF {
                visited.set(s, true);
                d.symlen.set(s, 0);
                proof {
                    if fair {
                        lemma_step_leaf(&before, d, b, rank, seen, full);
                    }
                }
            } else {
                if sl >= d.symlen.len() || sr >= d.symlen.len() {
                    assert(old(d).broken(b, n, s as int));
                    return false;
                }
                visited.set(s, true);
                stack.push((s, true));
                let ghost one = stack@;
                if !visited[sr] {
                    stack.push((sr, false));
                }
                let ghost two = stack@;
                if !visited[sl] {
                    stack.push((sl, false));
                }
                proof {
                    assert(visited@ =~= seen.update(s as int, true));
                    assert(stack@ =~= pushed(
                        pushed(full.drop_last().push((s, true)), visited@, sr as int),
                        visited@,
                        sl as int,
                    ));
                    let k = full.len() - 1;
                    if !visited@[sr as int] {
                        assert(stack@[k + 1] == (sr, false));
                    }
                    if !visited@[sl as int] {
                        assert(stack@[stack@.len() - 1] == (sl, false));
                    }
                    assert(due(visited@, stack@, k, sl as int));
                    assert(due(visited@, stack@, k, sr as int));
                    if fair {
                        lemma_step_down(d, b, rank, seen, full, stack@);
                    }
                    if !visited@[root as int] {
                        let i = choose|i: int|
                            0 <= i < full.len() && #[trigger] full[i] == (root, false);
                        assert(stack@[i] == full[i]);
                    }
                }
            }
        }
        proof {
            lemma_unseen_positive(visited@);
            if !visited@[root as int] {
                let i = choose|i: int| 0 <= i < full.len() && #[trigger] full[i] == (root, false);
                assert(stack@[i] == full[i]);
            }
        }
    }
    proof {
        if fair {
            assert forall|s: int| 0 <= s < n && #[trigger] visited@[s] implies d.settled(
                b,
                d.symlen@,
                s,
            ) && (d.right_of(b, s) != 0xFFF ==> visited@[d.left_of(b, s)]
                && visited@[d.right_of(b, s)]) by {
                assert(done(visited@, stack@, s));
            }
        }
    }
    true
}

// ---------------------------------------------------------------------------
// Sizes
// ---------------------------------------------------------------------------

/// The lowest code of the length at place `i` of `n`, before it is padded.
pub open spec fn lowest_code(b: Seq<u8>, at: int, n: int, i: int) -> int
    decreases n - i,
{
    if i >= n - 1 {
        0
    } else {
        ((lowest_code(b, at, n, i + 1) + le16(b, at + 2 * i) - le16(b, at + 2 * (i + 1)))
            % 0x1_0000_0000_0000_0000) / 2
    }
}

/// How many code lengths a part has whose sizes are at `off`.
pub open spec fn lengths(b: Seq<u8>, off: int) -> int {
    b[off + 8] - b[off + 9] + 1
}

/// How many symbols it has.
pub open spec fn symbols(b: Seq<u8>, off: int) -> int {
    le16(b, off + 10 + 2 * lengths(b, off))
}

/// The sizes of a part can be read at `off`: one value; or two shifts that are in range, code
/// lengths from 1 to 64, and a tree that ends within the file and whose symbols all exist.
pub open spec fn sizes_ok(b: Seq<u8>, off: int) -> bool {
    &&& 0 <= off < b.len()
    &&& if is_set(b[off], FLAG_SINGLE_VALUE) {
        off + 1 < b.len()
    } else {
        &&& off + 9 < b.len()
        &&& b[off + 1] < 32
        &&& b[off + 2] < 32
        &&& 1 <= b[off + 9] <= b[off + 8] <= 64
        &&& off + 12 + 2 * lengths(b, off) + 3 * symbols(b, off) <= b.len()
        &&& tree_closed(b, off + 12 + 2 * lengths(b, off), symbols(b, off))
    }
}

/// Every symbol of a tree stands for one value or for two symbols of the tree.
pub open spec fn tree_closed(b: Seq<u8>, at: int, n: int) -> bool {
    forall|s: int| 0 <= s < n ==> !#[trigger] broken_at(b, at, n, s)
}

/// A symbol of the tree at `at` stands for one that is not among `n`.
pub open spec fn broken_at(b: Seq<u8>, at: int, n: int, s: int) -> bool {
    let o = at + 3 * s;
    o + 3 <= b.len() && {
        let right = 0x10 * b[o + 2] + b[o + 1] as int / 16;
        let left = 0x100 * (b[o + 1] % 16) + b[o];
        right != 0xFFF && (left >= n || right >= n)
    }
}

/// Where the sizes at `off` end.
pub open spec fn sizes_end(b: Seq<u8>, off: int) -> int {
    if is_set(b[off], FLAG_SINGLE_VALUE) {
        off + 2
    } else {
        let n = symbols(b, off);
        off + 12 + 2 * lengths(b, off) + 3 * n + n % 2
    }
}

/// The number of positions that the groups make.
pub open spec fn positions(group_len: Seq<i32>, group_idx: Seq<u64>, i: int) -> int
    decreases 7 - i,
{
    if i >= 7 || group_len[i] == 0 {
        group_idx[i] as int
    } else {
        positions(group_len, group_idx, i + 1)
    }
}

/// The part has the sizes that stand at `off`.
pub open spec fn sized(d: &PairsData, b: Seq<u8>, off: int) -> bool {
    &&& d.flags == b[off]
    &&& if is_set(d.flags, FLAG_SINGLE_VALUE) {
        &&& d.min_sym_len == b[off + 1]
        &&& d.blocks_num == 0
        &&& d.block_length_size == 0
        &&& d.span == 0
        &&& d.sparse_index_size == 0
    } else {
        &&& d.sizeof_block == vstd::arithmetic::power2::pow2(b[off + 1] as nat)
        &&& d.span == vstd::arithmetic::power2::pow2(b[off + 2] as nat)
        &&& d.sparse_index_size == (positions(d.group_len@, d.group_idx@, 0) + d.span - 1) / (
        d.span as int)
        &&& d.blocks_num == le32(b, off + 4)
        &&& d.block_length_size == (le32(b, off + 4) + b[off + 3]) % 0x1_0000_0000
        &&& d.max_sym_len == b[off + 8]
        &&& d.min_sym_len == b[off + 9]
        &&& d.lowest_sym == off + 10
        &&& d.base64@.len() == lengths(b, off)
        &&& forall|i: int|
            0 <= i < lengths(b, off) ==> #[trigger] d.base64@[i] == (lowest_code(
                b,
                off + 10,
                lengths(b, off),
                i,
            ) as u64) << ((64 - (i + d.min_sym_len)) as u64)
        &&& d.symlen@.len() == symbols(b, off)
        &&& symbol_counts(b, d.btree as int, symbols(b, off)) == Some(d.symlen@)
        &&& d.btree == off + 12 + 2 * lengths(b, off)
    }
}

/// The number of positions, and which group ends the list.
fn table_size(d: &PairsData) -> (r: u64)
    ensures
        r == positions(d.group_len@, d.group_idx@, 0),
{
    let mut i: usize = 0;
    while i < 7 && d.group_len[i] != 0
        invariant
            i <= 7,
            positions(d.group_len@, d.group_idx@, 0) == positions(
                d.group_len@,
                d.group_idx@,
                i as int,
            ),
        decreases 7 - i,
    {
        i += 1;
    }
    d.group_idx[i]
}

/// The lowest code of every length, padded to 64 bits.
fn build_base64(b: &[u8], at: u64, n: usize, min: u8) -> (r: Vec<u64>)
    requires
        0 < n <= 64,
        1 <= min,
        min + n <= 65,
    ensures
        r@.len() == n,
        forall|i: int|
            0 <= i < n ==> #[trigger] r@[i] == (lowest_code(b@, at as int, n as int, i) as u64) << ((
            64 - (i + min)) as u64),
{
    let mut base: Vec<u64> = Vec::new();
    let mut k: usize = 0;
    while k < n
        invariant
            k <= n,
            base@.len() == k,
        decreases n - k,
    {
        base.push(0);
        k += 1;
    }
    let mut code: u64 = 0;
    let mut i: usize = n;
    while i > 0
        invariant
            0 < n <= 64,
            1 <= min,
            min + n <= 65,
            i <= n,
            base@.len() == n,
            code == lowest_code(b@, at as int, n as int, i as int),
            forall|j: int|
                i <= j < n ==> #[trigger] base@[j] == (lowest_code(b@, at as int, n as int, j)
                    as u64) << ((64 - (j + min)) as u64),
        decreases i,
    {
        i -= 1;
        if i < n - 1 {
            let lo_i = u16_le(b, at as u128 + 2 * i as u128) as u64;
            let lo_j = u16_le(b, at as u128 + 2 * (i as u128 + 1)) as u64;
            code = code.wrapping_add(lo_i).wrapping_sub(lo_j) / 2;
        }
        let shift: u64 = 64 - (i as u64 + min as u64);
        base.set(i, code << shift);
    }
    base
}

/// Count the values of every symbol; false when one stands for a symbol that does not exist.
fn count_symbols(d: &mut PairsData, bytes: &[u8], count: usize) -> (r: bool)
    ensures
        *final(d) == (PairsData { symlen: final(d).symlen, ..*old(d) }),
        final(d).symlen@.len() == count,
        r == tree_closed(bytes@, old(d).btree as int, count as int),
        r ==> symbol_counts(bytes@, old(d).btree as int, count as int) == Some(final(d).symlen@),
        r ==> final(d).acyclic(bytes@) ==> final(d).summed(bytes@),
{
    let mut visited: Vec<bool> = Vec::new();
    let mut counts: Vec<u8> = Vec::new();
    let mut k: usize = 0;
    while k < count
        invariant
            k <= count,
            visited@.len() == k,
            counts@.len() == k,
            forall|s: int| 0 <= s < k ==> !#[trigger] visited@[s],
            forall|s: int| 0 <= s < k ==> #[trigger] counts@[s] == 0,
        decreases count - k,
    {
        visited.push(false);
        counts.push(0);
        k += 1;
    }
    d.symlen = counts;
    let ghost start = *d;
    let ghost at = d.btree as int;
    let ghost goal = walked_from(bytes@, at, 0, visited@, d.symlen@);
    proof {
        assert(visited@ =~= Seq::new(count as nat, |s: int| false));
        assert(d.symlen@ =~= Seq::new(count as nat, |s: int| 0u8));
    }
    let mut sym: usize = 0;
    while sym < count
        invariant
            sym <= count,
            visited@.len() == count,
            start.symlen@.len() == count,
            start == (PairsData { symlen: start.symlen, ..*old(d) }),
            d.symlen@.len() == count,
            *d == (PairsData { symlen: d.symlen, ..start }),
            forall|s: int|
                0 <= s < count && #[trigger] visited@[s] ==> !start.broken(bytes@, count as int, s),
            forall|s: int| 0 <= s < sym ==> #[trigger] visited@[s],
            at == start.btree,
            goal == walked_from(bytes@, at, sym as int, visited@, d.symlen@),
            start.acyclic(bytes@) ==> d.counted(bytes@, visited@),
            forall|s: int|
                #[trigger] start.broken(bytes@, count as int, s) && 0 <= s ==> broken_at(
                    bytes@,
                    start.btree as int,
                    count as int,
                    s,
                ),
        decreases count - sym,
    {
        let ghost before = *d;
        let ghost seen = visited@;
        proof {
            assert(forall|s: int| before.right_of(bytes@, s) == start.right_of(bytes@, s));
            assert(forall|s: int| before.left_of(bytes@, s) == start.left_of(bytes@, s));
            assert forall|s: int| before.broken(bytes@, count as int, s) == start.broken(
                bytes@,
                count as int,
                s,
            ) by {}
            if start.acyclic(bytes@) {
                let rank = choose|rank: spec_fn(int) -> int| start.ordered(bytes@, rank);
                assert(before.ordered(bytes@, rank));
            }
        }
        if !visited[sym] {
            if !compute_symlen(d, bytes, sym, &mut visited) {
                proof {
                    let s = choose|s: int|
                        0 <= s < count && #[trigger] before.broken(bytes@, count as int, s);
                    assert(start.broken(bytes@, count as int, s));
                    assert(broken_at(bytes@, start.btree as int, count as int, s));
                }
                return false;
            }
            assert forall|s: int| 0 <= s < sym + 1 implies #[trigger] visited@[s] by {
                assert(s < sym ==> seen[s]);
            }
        }
        sym += 1;
    }
    proof {
        assert forall|s: int| 0 <= s < count implies !#[trigger] broken_at(
            bytes@,
            start.btree as int,
            count as int,
            s,
        ) by {
            assert(visited@[s]);
            assert(!start.broken(bytes@, count as int, s));
        }
        if d.acyclic(bytes@) {
            let rank = choose|rank: spec_fn(int) -> int| d.ordered(bytes@, rank);
            assert(forall|s: int| d.right_of(bytes@, s) == start.right_of(bytes@, s));
            assert(forall|s: int| d.left_of(bytes@, s) == start.left_of(bytes@, s));
            assert(start.ordered(bytes@, rank));
            assert forall|s: int| 0 <= s < d.symlen@.len() implies d.settled(bytes@, d.symlen@, s) by {
                assert(visited@[s]);
            }
        }
    }
    true
}

/// Two to the power of a small number.
fn power(e: u8) -> (r: u64)
    requires
        e < 32,
    ensures
        r == vstd::arithmetic::power2::pow2(e as nat),
        1 <= r <= 0x8000_0000,
{
    let r: u64 = 1u64 << (e as u64);
    proof {
        let s = e as u64;
        assert(1u64 << s <= 0x8000_0000 && 1u64 << s >= 1) by (bit_vector)
            requires
                s < 32,
        ;
        vstd::bits::lemma_u64_pow2_no_overflow(s as nat);
        vstd::bits::lemma_u64_shl_is_mul(1, s);
    }
    r
}

/// Read the sizes of a part and its symbols at `off`, and find where they end.
pub fn set_sizes(d: &mut PairsData, bytes: &[u8], off: u64) -> (r: Option<u64>)
    requires
        bytes@.len() <= 0x7FFF_FFFF_FFFF_FFFF,
    ensures
        r is Some == sizes_ok(bytes@, off as int),
        r is Some ==> {
            &&& r->0 == sizes_end(bytes@, off as int)
            &&& sized(final(d), bytes@, off as int)
            &&& old(d).placed() ==> final(d).readable()
            &&& final(d).sparse_index == old(d).sparse_index
            &&& final(d).block_length == old(d).block_length
            &&& final(d).data == old(d).data
            &&& !is_set(final(d).flags, FLAG_SINGLE_VALUE) ==> final(d).len_tab_built()
            &&& !is_set(final(d).flags, FLAG_SINGLE_VALUE) && final(d).acyclic(bytes@)
                ==> final(d).summed(bytes@)
            &&& final(d).pieces == old(d).pieces
            &&& final(d).group_idx == old(d).group_idx
            &&& final(d).group_len == old(d).group_len
            &&& final(d).map_idx == old(d).map_idx
        },
{
    let len: u64 = bytes.len() as u64;
    if off >= len {
        return None;
    }
    let o = off as usize;
    let flags = bytes[o];
    d.flags = flags;
    if has_flag(flags, FLAG_SINGLE_VALUE) {
        d.blocks_num = 0;
        d.block_length_size = 0;
        d.span = 0;
        d.sparse_index_size = 0;
        if off + 1 >= len {
            return None;
        }
        d.min_sym_len = bytes[o + 1];
        return Some(off + 2);
    }
    if off + 9 >= len {
        return None;
    }
    let block_shift = bytes[o + 1];
    let span_shift = bytes[o + 2];
    let max = bytes[o + 8];
    let min = bytes[o + 9];
    if block_shift >= 32 || span_shift >= 32 || max < min || min < 1 || max > 64 {
        return None;
    }
    let size = table_size(d);
    d.sizeof_block = power(block_shift);
    d.span = power(span_shift);
    d.sparse_index_size = div_up(size, d.span);
    let padding = bytes[o + 3];
    d.blocks_num = u32_le(bytes, off as u128 + 4);
    d.block_length_size = d.blocks_num.wrapping_add(padding as u32);
    d.max_sym_len = max;
    d.min_sym_len = min;
    d.lowest_sym = off + 10;
    let n: usize = (max - min) as usize + 1;
    d.base64 = build_base64(bytes, off + 10, n, min);
    build_len_tab(d);
    if off + 12 + 2 * n as u64 > len {
        return None;
    }
    let count = u16_le(bytes, off as u128 + 10 + 2 * n as u128);
    if off + 12 + 2 * n as u64 + 3 * count as u64 > len {
        return None;
    }
    d.btree = off + 12 + 2 * n as u64;
    if !count_symbols(d, bytes, count as usize) {
        return None;
    }
    Some(off + 12 + 2 * n as u64 + 3 * count as u64 + (count % 2) as u64)
}

/// A quotient, rounded up.
fn div_up(a: u64, b: u64) -> (r: u64)
    requires
        b > 0,
    ensures
        r == (a + b - 1) / (b as int),
{
    let r = (a as u128 + b as u128 - 1) / b as u128;
    assert(r <= a) by (nonlinear_arith)
        requires
            r == (a + b - 1) / (b as int),
            b > 0,
    ;
    r as u64
}

// ---------------------------------------------------------------------------
// Groups
// ---------------------------------------------------------------------------

/// How many pieces the first group has at least: none more where pawns lead, three where some
/// piece is alone of its kind, else the two kings.
pub open spec fn first_length(has_pawns: bool, has_unique_pieces: bool) -> int {
    if has_pawns {
        0
    } else if has_unique_pieces {
        3
    } else {
        2
    }
}

/// The lengths of the groups of the first `count` pieces: runs of the same piece, behind a
/// first group of at least `first`.
pub open spec fn runs(pieces: Seq<u8>, first: int, count: int) -> Seq<int>
    decreases count,
{
    if count <= 1 {
        seq![1]
    } else {
        let p = runs(pieces, first, count - 1);
        let i = count - 1;
        if first - i > 0 || pieces[i] == pieces[i - 1] {
            p.drop_last().push(p.last() + 1)
        } else {
            p.push(1)
        }
    }
}

/// The number of pieces of the first `n` groups.
pub open spec fn members_upto(lens: Seq<int>, n: int) -> int
    decreases n,
{
    if n <= 0 {
        0
    } else {
        members_upto(lens, n - 1) + lens[n - 1]
    }
}

/// No group is longer than the tables of combinations reach.
pub open spec fn groups_ok(lens: Seq<int>, has_pawns: bool) -> bool {
    &&& forall|i: int| 1 <= i < lens.len() ==> #[trigger] lens[i] <= 5
    &&& has_pawns ==> lens[0] <= 5
}

/// How many pieces a group has, none where there is no such group.
pub open spec fn group_of(lens: Seq<int>, i: int) -> int {
    if i < lens.len() {
        lens[i]
    } else {
        0
    }
}

/// The number of placements of the first group.
pub open spec fn lead_factor(len: int, has_pawns: bool, has_unique_pieces: bool, file: int) -> int {
    if has_pawns {
        tables::lead_start(len, file, 7)
    } else if has_unique_pieces {
        31332
    } else {
        462
    }
}

/// What each group is multiplied by: the number of placements of those before it in the order
/// that `order` gives to the first group and to the second, the others keeping theirs.
pub open spec fn weights(
    lens: Seq<int>,
    lead: int,
    order: (int, int),
    k: int,
    next: int,
    free: int,
    idx: int,
    w: Seq<int>,
) -> Seq<int>
    decreases
            lens.len() + 1 - next + (if k <= order.0 {
                1int
            } else {
                0int
            }) + (if k <= order.1 {
                1int
            } else {
                0int
            }),
    when 0 <= next <= lens.len() + 1
{
    if next < lens.len() || k == order.0 || k == order.1 {
        if k == order.0 {
            weights(lens, lead, order, k + 1, next, free, idx * lead, w.update(0, idx))
        } else if k == order.1 {
            let f = tables::combos(48 - lens[0], group_of(lens, 1));
            weights(lens, lead, order, k + 1, next, free, idx * f, w.update(1, idx))
        } else {
            let f = tables::combos(free, lens[next]);
            weights(
                lens,
                lead,
                order,
                k + 1,
                next + 1,
                free - lens[next],
                idx * f,
                w.update(next, idx),
            )
        }
    } else {
        w.update(lens.len() as int, idx)
    }
}

/// A power of 64.
pub open spec fn p64(n: int) -> int
    decreases n,
{
    if n <= 0 {
        1
    } else {
        64 * p64(n - 1)
    }
}

pub proof fn lemma_p64(a: int, b: int)
    requires
        0 <= a,
        0 <= b,
    ensures
        p64(a + b) == p64(a) * p64(b),
        p64(a) >= 1,
    decreases b, a,
{
    if b > 0 {
        lemma_p64(a, b - 1);
        let x = p64(a);
        let y = p64(b - 1);
        assert(64 * (x * y) == x * (64 * y)) by (nonlinear_arith);
    } else {
        if a > 0 {
            lemma_p64(a - 1, 0);
        }
        assert(p64(a) * 1 == p64(a));
    }
}

pub proof fn lemma_p64_up(a: int, b: int)
    requires
        a <= b,
    ensures
        p64(a) <= p64(b),
        p64(a) >= 1,
    decreases b - a, b,
{
    if a < b {
        lemma_p64_up(a, b - 1);
        if b > 0 {
            lemma_p64_up(b - 1, b - 1);
        }
    } else if a > 0 {
        lemma_p64_up(a - 1, a - 1);
    }
}

/// One more factor keeps the product under the power, times what else there is.
proof fn lemma_factor(idx: int, f: int, used: int, g: int, more: int)
    requires
        0 <= idx <= p64(used) * more,
        0 <= f <= p64(g),
        0 <= used,
        0 <= g,
        used + g <= 7,
        0 <= more <= 0x20_0000,
    ensures
        0 <= idx * f <= p64(used + g) * more,
        idx * f <= 0x8000_0000_0000_0000,
{
    lemma_p64(used, g);
    let a = p64(used);
    let b = p64(g);
    let c = a * b;
    assert(0 <= idx * f <= (a * more) * b) by (nonlinear_arith)
        requires
            0 <= idx <= a * more,
            0 <= f <= b,
    ;
    assert((a * more) * b == (a * b) * more) by (nonlinear_arith);
    lemma_p64_up(used + g, 7);
    lemma_p64_up(0, used + g);
    reveal_with_fuel(p64, 8);
    assert(c * more <= 0x400_0000_0000 * 0x20_0000) by (nonlinear_arith)
        requires
            0 <= c <= 0x400_0000_0000,
            0 <= more <= 0x20_0000,
    ;
}

/// The product of `k` numbers that fall from `n`.
spec fn falling(n: int, k: int) -> int
    decreases k,
{
    if k <= 0 {
        1
    } else {
        n * falling(n - 1, k - 1)
    }
}

/// The product of the numbers up to `k`.
spec fn factorial(k: int) -> int
    decreases k,
{
    if k <= 0 {
        1
    } else {
        k * factorial(k - 1)
    }
}

proof fn lemma_falling(n: int, k: int)
    requires
        k >= 1,
    ensures
        falling(n, k) == falling(n, k - 1) * (n - k + 1),
    decreases k,
{
    if k > 1 {
        lemma_falling(n - 1, k - 1);
        let f = falling(n - 1, k - 2);
        assert(n * (f * (n - k + 1)) == (n * f) * (n - k + 1)) by (nonlinear_arith);
    } else {
        assert(falling(n - 1, 0) == 1);
        assert(falling(n, 0) == 1);
    }
}

/// The ways to choose, as a product.
proof fn lemma_combos(n: int, k: int)
    requires
        0 <= n,
        0 <= k,
    ensures
        factorial(k) * tables::combos(n, k) == falling(n, k),
    decreases n,
{
    if k == 0 {
        if n > 0 {
            lemma_combos(n - 1, 0);
        }
        reveal_with_fuel(tables::combos, 2);
    } else if n == 0 {
        assert(0 * falling(-1, k - 1) == 0);
        assert(factorial(k) * 0 == 0);
    } else {
        lemma_combos(n - 1, k - 1);
        lemma_combos(n - 1, k);
        lemma_falling(n - 1, k);
        let f = falling(n - 1, k - 1);
        let a = tables::combos(n - 1, k - 1);
        let b = tables::combos(n - 1, k);
        let g = factorial(k - 1);
        assert((k * g) * (a + b) == k * (g * a) + (k * g) * b) by (nonlinear_arith);
        assert(k * f + f * (n - k) == n * f) by (nonlinear_arith);
        if k > n {
            assert(a == 0 && b == 0);
            assert((k * g) * 0 == 0);
        }
    }
}

/// A bound of the ways to choose at most five of the squares that are left to the pawns.
proof fn lemma_few(n: int, k: int)
    requires
        0 <= n <= 47,
        0 <= k <= 5,
    ensures
        0 <= tables::combos(n, k) <= 0x20_0000,
{
    tables::lemma_choose(n, k);
    lemma_combos(n, k);
    lemma_falling_small(n, k);
    reveal_with_fuel(factorial, 6);
    reveal_with_fuel(p47, 6);
    let c = tables::combos(n, k);
    if k == 5 {
        assert(factorial(5) == 120);
        assert(120 * c <= 229345007);
    } else if k == 4 {
        assert(factorial(4) == 24);
        assert(24 * c <= 4879681);
    } else if k == 3 {
        assert(factorial(3) == 6);
        assert(6 * c <= 103823);
    } else if k == 2 {
        assert(factorial(2) == 2);
        assert(2 * c <= 2209);
    } else if k == 1 {
        assert(factorial(1) == 1);
        assert(1 * c <= 47);
    } else {
        assert(factorial(0) == 1);
        assert(1 * c <= 1);
    }
}

/// A factor that no group accounts for.
proof fn lemma_one_more(idx: int, f: int, used: int)
    requires
        0 <= idx <= p64(used),
        0 <= f <= 0x20_0000,
        0 <= used <= 7,
    ensures
        0 <= idx * f <= p64(used) * f,
        idx * f <= 0x8000_0000_0000_0000,
{
    let a = p64(used);
    lemma_p64_up(used, 7);
    reveal_with_fuel(p64, 8);
    assert(0 <= idx * f <= a * f) by (nonlinear_arith)
        requires
            0 <= idx <= a,
            0 <= f,
    ;
    assert(a * f <= 0x400_0000_0000 * 0x20_0000) by (nonlinear_arith)
        requires
            0 <= a <= 0x400_0000_0000,
            0 <= f <= 0x20_0000,
    ;
}

/// A power of 47.
spec fn p47(k: int) -> int
    decreases k,
{
    if k <= 0 {
        1
    } else {
        47 * p47(k - 1)
    }
}

proof fn lemma_falling_small(n: int, k: int)
    requires
        0 <= n <= 47,
        0 <= k,
    ensures
        0 <= falling(n, k) <= p47(k),
        p47(k) >= 1,
    decreases k,
{
    if k > 0 {
        if n == 0 {
            assert(0 * falling(-1, k - 1) == 0);
            lemma_falling_small(1, k - 1);
        } else {
            lemma_falling_small(n - 1, k - 1);
            let f = falling(n - 1, k - 1);
            let p = p47(k - 1);
            assert(0 <= n * f <= 47 * p) by (nonlinear_arith)
                requires
                    0 <= n <= 47,
                    0 <= f <= p,
            ;
        }
    }
}

pub proof fn lemma_small(n: int, k: int)
    requires
        0 <= n <= 64,
        0 <= k <= 5,
    ensures
        0 <= tables::combos(n, k) <= p64(k),
        tables::cap(k) == p64(k),
{
    tables::lemma_choose(n, k);
    reveal_with_fuel(p64, 6);
}

pub proof fn lemma_runs(pieces: Seq<u8>, first: int, count: int)
    requires
        1 <= count,
    ensures
        1 <= runs(pieces, first, count).len() <= count,
        members_upto(runs(pieces, first, count), runs(pieces, first, count).len() as int) == count,
        forall|i: int|
            0 <= i < runs(pieces, first, count).len() ==> #[trigger] runs(pieces, first, count)[i]
                >= 1,
        first <= count ==> runs(pieces, first, count)[0] >= first,
        count < first ==> runs(pieces, first, count)[0] == count && runs(pieces, first, count).len()
            == 1,
    decreases count,
{
    let r = runs(pieces, first, count);
    if count > 1 {
        lemma_runs(pieces, first, count - 1);
        let p = runs(pieces, first, count - 1);
        if first - (count - 1) > 0 || pieces[count - 1] == pieces[count - 2] {
            lemma_members_same(r, p, p.len() - 1);
        } else {
            lemma_members_same(r, p, p.len() as int);
        }
    } else {
        assert(r =~= seq![1int]);
        assert(members_upto(r, 0) == 0);
        assert(members_upto(r, 1) == 1);
    }
}

proof fn lemma_members_same(a: Seq<int>, b: Seq<int>, n: int)
    requires
        n <= a.len(),
        n <= b.len(),
        forall|i: int| 0 <= i < n ==> #[trigger] a[i] == b[i],
    ensures
        members_upto(a, n) == members_upto(b, n),
    decreases n,
{
    if n > 0 {
        lemma_members_same(a, b, n - 1);
    }
}

pub proof fn lemma_members_up(a: Seq<int>, m: int, n: int)
    requires
        0 <= m <= n <= a.len(),
        forall|i: int| 0 <= i < a.len() ==> #[trigger] a[i] >= 1,
    ensures
        members_upto(a, m) + (n - m) <= members_upto(a, n),
    decreases n - m,
{
    if m < n {
        lemma_members_up(a, m, n - 1);
    }
}

/// The lengths of the groups as numbers.
pub open spec fn lens_of(group_len: Seq<i32>, n: int) -> Seq<int> {
    Seq::new(n as nat, |i: int| group_len[i] as int)
}

/// The multipliers as numbers.
pub open spec fn weights_of(group_idx: Seq<u64>) -> Seq<int> {
    Seq::new(group_idx.len(), |i: int| group_idx[i] as int)
}

/// What a group is multiplied by leaves room for the group itself in 64 to the seventh power.
pub open spec fn modest(d: &PairsData, n: int) -> bool {
    forall|i: int| 0 <= i < n ==> #[trigger] d.group_idx@[i] <= p64(7 - d.group_len@[i])
}

/// Find the groups of the pieces, and return how many there are.
pub fn find_groups(d: &mut PairsData, piece_count: usize, first: i32) -> (r: usize)
    requires
        1 <= piece_count <= 7,
        0 <= first <= 3,
    ensures
        *final(d) == (PairsData { group_len: final(d).group_len, ..*old(d) }),
        1 <= r <= piece_count,
        lens_of(final(d).group_len@, r as int) == runs(
            old(d).pieces@,
            first as int,
            piece_count as int,
        ),
        final(d).group_len@[r as int] == 0,
        forall|i: int| 0 <= i < r ==> 1 <= #[trigger] final(d).group_len@[i] <= 7,
{
    let mut n: usize = 0;
    d.group_len[0] = 1;
    let mut i: usize = 1;
    let ghost pieces = d.pieces@;
    assert(lens_of(d.group_len@, 1) =~= runs(pieces, first as int, 1));
    while i < piece_count
        invariant
            1 <= i <= piece_count <= 7,
            0 <= first <= 3,
            n < i,
            pieces == d.pieces@,
            *d == (PairsData { group_len: d.group_len, ..*old(d) }),
            lens_of(d.group_len@, n + 1) == runs(pieces, first as int, i as int),
            forall|k: int| 0 <= k <= n ==> 1 <= #[trigger] d.group_len@[k] <= i,
        decreases piece_count - i,
    {
        let ghost before = lens_of(d.group_len@, n + 1);
        let left: i32 = first - i as i32;
        if left > 0 || d.pieces[i] == d.pieces[i - 1] {
            let x: i32 = d.group_len[n] + 1;
            d.group_len[n] = x;
            assert(lens_of(d.group_len@, n + 1) =~= before.drop_last().push(before.last() + 1));
        } else {
            n += 1;
            d.group_len[n] = 1;
            assert(lens_of(d.group_len@, n + 1) =~= before.push(1));
        }
        i += 1;
    }
    n += 1;
    let ghost before = lens_of(d.group_len@, n as int);
    d.group_len[n] = 0;
    assert(lens_of(d.group_len@, n as int) =~= before);
    n
}

/// Whether no group is longer than the tables of combinations reach.
fn groups_fit(d: &PairsData, n: usize, has_pawns: bool) -> (r: bool)
    requires
        1 <= n <= 7,
    ensures
        r == groups_ok(lens_of(d.group_len@, n as int), has_pawns),
{
    let ghost lens = lens_of(d.group_len@, n as int);
    if has_pawns && d.group_len[0] > 5 {
        return false;
    }
    let mut i: usize = 1;
    while i < n
        invariant
            1 <= i <= n <= 7,
            lens == lens_of(d.group_len@, n as int),
            forall|k: int| 1 <= k < i ==> #[trigger] lens[k] <= 5,
        decreases n - i,
    {
        if d.group_len[i] > 5 {
            assert(lens[i as int] > 5);
            return false;
        }
        i += 1;
    }
    true
}

/// Group the pieces of a part and compute what each group is multiplied by. False when a group
/// is longer than any table has.
#[verifier::spinoff_prover]
#[verifier::rlimit(80)]
pub fn set_groups(
    t: &IndexTables,
    d: &mut PairsData,
    piece_count: usize,
    has_pawns: bool,
    has_unique_pieces: bool,
    pawn_count: [u8; 2],
    order: [i32; 2],
    file: usize,
) -> (r: bool)
    requires
        t.wf(),
        1 <= piece_count <= 7,
        file < 4,
    ensures
        ({
            let lens = runs(
                old(d).pieces@,
                first_length(has_pawns, has_unique_pieces),
                piece_count as int,
            );
            let n = lens.len() as int;
            let pp = has_pawns && pawn_count[1] != 0;
            &&& r == groups_ok(lens, has_pawns)
            &&& *final(d) == (PairsData {
                group_len: final(d).group_len,
                group_idx: final(d).group_idx,
                ..*old(d)
            })
            &&& 1 <= n <= piece_count
            &&& lens_of(final(d).group_len@, n) == lens
            &&& final(d).group_len@[n] == 0
            &&& r && (pp || order[1] > 7) && (forall|i: int|
                0 <= i < 8 ==> #[trigger] old(d).group_idx@[i] == 0) ==> modest(final(d), n)
            &&& r ==> weights_of(final(d).group_idx@) == weights(
                lens,
                lead_factor(lens[0], has_pawns, has_unique_pieces, file as int),
                (order[0] as int, order[1] as int),
                0,
                if pp {
                    2
                } else {
                    1
                },
                64 - lens[0] - (if pp {
                    group_of(lens, 1)
                } else {
                    0
                }),
                1,
                weights_of(old(d).group_idx@),
            )
        }),
{
    let first: i32 = if has_pawns {
        0
    } else if has_unique_pieces {
        3
    } else {
        2
    };
    let n = find_groups(d, piece_count, first);
    let ghost lens = lens_of(d.group_len@, n as int);
    proof {
        lemma_runs(d.pieces@, first as int, piece_count as int);
    }
    if !groups_fit(d, n, has_pawns) {
        return false;
    }
    let pp = has_pawns && pawn_count[1] != 0;
    let len0: i32 = d.group_len[0];
    let len1: i32 = d.group_len[1];
    let start: usize = if pp {
        2
    } else {
        1
    };
    proof {
        assert(len0 == lens[0]);
        assert(len1 == group_of(lens, 1));
        reveal_with_fuel(members_upto, 3);
        lemma_members_up(lens, 1, n as int);
        if n > 1 {
            lemma_members_up(lens, 2, n as int);
        }
        lemma_p64_up(0, len0 as int);
        lemma_p64_up(0, len1 as int);
    }
    // The first group counts for as many as its placements are of.
    let ghost room: int = if len0 < first {
        first as int
    } else {
        len0 as int
    };
    let mut next: usize = start;
    let mut free: i32 = 64 - len0 - (if pp {
        len1
    } else {
        0
    });
    let lead: u64 = if has_pawns {
        proof {
            tables::lemma_lead_start(len0 as int, file as int, 7);
            lemma_small(0, len0 - 1);
        }
        t.lead_pawns_size[len0 as usize][file] as u64
    } else if has_unique_pieces {
        proof {
            lemma_p64_up(3, room);
            reveal_with_fuel(p64, 4);
        }
        31332
    } else {
        proof {
            lemma_p64_up(2, room);
            reveal_with_fuel(p64, 3);
        }
        462
    };
    assert(lead <= p64(room)) by {
        if has_pawns {
            let c = tables::cap(len0 - 1);
            assert((7 - 1) * c <= 64 * c) by (nonlinear_arith)
                requires
                    c >= 0,
            ;
            lemma_small(0, len0 - 1);
        }
    }
    let mut idx: u64 = 1;
    let mut k: i32 = 0;
    let ghost lead_n = lead_factor(lens[0], has_pawns, has_unique_pieces, file as int);
    let ghost o = (order[0] as int, order[1] as int);
    let ghost goal = weights(
        lens,
        lead_n,
        o,
        0,
        start as int,
        free as int,
        1,
        weights_of(d.group_idx@),
    );
    let ghost mut used: int = 0;
    let ghost mut more: int = 1;
    let ghost zeros = (pp || order[1] > 7) && forall|i: int|
        0 <= i < 8 ==> #[trigger] old(d).group_idx@[i] == 0;
    assert(p64(0) == 1);
    assert forall|i: int| zeros && 0 <= i < n implies #[trigger] d.group_idx@[i] <= p64(
        7 - d.group_len@[i],
    ) by {
        lemma_p64_up(7 - d.group_len@[i], 7 - d.group_len@[i]);
        assert(old(d).group_idx@[i] == 0);
    }
    while next < n || k == order[0] || k == order[1]
        invariant
            t.wf(),
            1 <= n <= 7,
            start <= next <= n + 1,
            start == if pp {
                2int
            } else {
                1int
            },
            next <= n || pp && n == 1,
            lens == lens_of(d.group_len@, n as int),
            d.group_len@[n as int] == 0,
            len0 == lens[0],
            len1 == group_of(lens, 1),
            1 <= len0 <= 7,
            0 <= len1 <= 5,
            lead == lead_n,
            lead <= p64(room),
            len0 <= room,
            room + members_upto(lens, n as int) - len0 <= 7,
            0 <= more <= 0x20_0000,
            pp || k <= order[1] ==> more == 1,
            groups_ok(lens, has_pawns),
            forall|i: int| 0 <= i < n ==> 1 <= #[trigger] lens[i] <= 7,
            members_upto(lens, n as int) <= 7,
            members_upto(lens, 1) == len0,
            n > 1 ==> members_upto(lens, 2) == len0 + len1,
            n == 1 ==> len1 == 0,
            zeros ==> pp || order[1] > 7,
            o == (order[0] as int, order[1] as int),
            0 <= k <= next - start + (if k > order[0] {
                1int
            } else {
                0int
            }) + (if k > order[1] {
                1int
            } else {
                0int
            }),
            *d == (PairsData { group_len: d.group_len, group_idx: d.group_idx, ..*old(d) }),
            free == 64 - (if next <= n {
                members_upto(lens, next as int)
            } else {
                members_upto(lens, n as int)
            }),
            0 <= used <= (if k > order[0] {
                room
            } else {
                0int
            }) + (if pp && k > order[1] {
                len1 as int
            } else {
                0int
            }) + (if next <= n {
                members_upto(lens, next as int) - members_upto(lens, start as int)
            } else {
                0
            }),
            next <= n ==> room + members_upto(lens, next as int) - len0 <= 7,
            idx <= p64(used) * more,
            idx <= 0x8000_0000_0000_0000,
            zeros ==> modest(d, n as int),
            goal == weights(
                lens,
                lead_n,
                o,
                k as int,
                next as int,
                free as int,
                idx as int,
                weights_of(d.group_idx@),
            ),
        decreases
                n + 1 - next + (if k <= order[0] {
                    1int
                } else {
                    0int
                }) + (if k <= order[1] {
                    1int
                } else {
                    0int
                }),
    {
        let ghost w = weights_of(d.group_idx@);
        if k == order[0] {
            proof {
                lemma_factor(idx as int, lead as int, used, room, more);
                lemma_p64_up(used, 7 - len0);
            }
            d.group_idx[0] = idx;
            assert(weights_of(d.group_idx@) =~= w.update(0, idx as int));
            idx = idx * lead;
            proof {
                used = used + room;
            }
        } else if k == order[1] {
            proof {
                lemma_small(48 - len0, len1 as int);
            }
            let f = t.binomial[len1 as usize][(48 - len0) as usize] as u64;
            proof {
                if pp {
                    lemma_factor(idx as int, f as int, used, len1 as int, more);
                    lemma_p64_up(used, 7 - len1);
                } else {
                    lemma_few(48 - len0, len1 as int);
                    lemma_p64_up(used, 7);
                    lemma_one_more(idx as int, f as int, used);
                }
            }
            d.group_idx[1] = idx;
            assert(weights_of(d.group_idx@) =~= w.update(1, idx as int));
            idx = idx * f;
            proof {
                if pp {
                    used = used + len1;
                } else {
                    more = f as int;
                }
            }
        } else {
            let g: i32 = d.group_len[next];
            proof {
                assert(g == lens[next as int]);
                lemma_members_up(lens, next + 1, n as int);
                lemma_members_up(lens, 1, next as int);
                lemma_small(free as int, g as int);
            }
            let f = t.binomial[g as usize][free as usize] as u64;
            proof {
                lemma_factor(idx as int, f as int, used, g as int, more);
                lemma_p64_up(used, 7 - g);
            }
            d.group_idx[next] = idx;
            assert(weights_of(d.group_idx@) =~= w.update(next as int, idx as int));
            idx = idx * f;
            free -= g;
            next += 1;
            proof {
                used = used + g;
            }
        }
        k += 1;
    }
    let ghost w = weights_of(d.group_idx@);
    d.group_idx[n] = idx;
    assert(weights_of(d.group_idx@) =~= w.update(n as int, idx as int));
    true
}

} // verus!
