//! One table: which material it is for, and how its file is laid out.

use vstd::prelude::*;
use crate::board::tally;
use crate::board::types::{Key, Piece, PieceType, Square};
use crate::board::zobrist;
use crate::platform::syzygy::pairs;
use crate::platform::syzygy::pairs::{
    has_flag, set_groups, set_sizes, PairsData, FLAG_MAPPED, FLAG_SINGLE_VALUE, FLAG_WIDE,
};
use crate::platform::syzygy::tables::IndexTables;

verus! {

/// Which kind of table a file is.
#[derive(Clone, Copy, PartialEq, Eq, Structural, Debug)]
pub enum TbType {
    /// Win, draw or loss, for both sides to move.
    Wdl,
    /// The distance to the next move that resets the clock, for one side to move.
    Dtz,
}

impl TbType {
    /// The extension of the file's name.
    pub fn ext(self) -> (r: &'static str)
        ensures
            r@ == (match self {
                TbType::Wdl => "rtbw"@,
                TbType::Dtz => "rtbz"@,
            }),
    {
        match self {
            TbType::Wdl => "rtbw",
            TbType::Dtz => "rtbz",
        }
    }

    /// The four bytes that the file begins with.
    pub open spec fn mark(self) -> Seq<u8> {
        match self {
            TbType::Dtz => seq![0xD7, 0x66, 0x0C, 0xA5],
            TbType::Wdl => seq![0x71, 0xE8, 0x23, 0x5D],
        }
    }

    /// The four bytes that the file begins with.
    pub fn magic(self) -> (r: [u8; 4])
        ensures
            r@ == self.mark(),
    {
        let r: [u8; 4] = match self {
            TbType::Dtz => [0xD7, 0x66, 0x0C, 0xA5],
            TbType::Wdl => [0x71, 0xE8, 0x23, 0x5D],
        };
        assert(r@ =~= self.mark());
        r
    }

    /// How many sides to move the file can hold.
    pub fn sides(self) -> (r: usize)
        ensures
            r == (match self {
                TbType::Wdl => 2int,
                TbType::Dtz => 1,
            }),
    {
        match self {
            TbType::Wdl => 2,
            TbType::Dtz => 1,
        }
    }
}

// ---------------------------------------------------------------------------
// Material
// ---------------------------------------------------------------------------

/// How many of a piece there are.
pub open spec fn amount(counts: [[i32; 7]; 2], pc: Piece) -> int {
    counts@[pc.side().idx()]@[pc.kind().idx()] as int
}

/// The material key over the piece codes below `n`, each piece counted by `f`.
pub open spec fn material_by(f: spec_fn(Piece) -> int, n: int) -> Key
    decreases n,
{
    if n <= 0 {
        0
    } else {
        let pc = tally::coded(n - 1);
        material_by(f, n - 1) ^ tally::column(pc, f(pc))
    }
}

/// The material key of piece counts.
pub open spec fn material_of_counts(counts: [[i32; 7]; 2]) -> Key {
    material_by(|pc: Piece| amount(counts, pc), 16)
}

/// A placement has the material key of its piece counts.
pub proof fn law_material_key_follows_the_counts(b: Seq<Piece>, counts: [[i32; 7]; 2])
    requires
        forall|pc: Piece| pc.is_real() ==> #[trigger] amount(counts, pc) == tally::count_of(b, pc),
    ensures
        material_of_counts(counts) == tally::material_of(b),
{
    lemma_material_by(b, |pc: Piece| amount(counts, pc), 16);
}

proof fn lemma_material_by(b: Seq<Piece>, f: spec_fn(Piece) -> int, n: int)
    requires
        forall|pc: Piece| pc.is_real() ==> #[trigger] f(pc) == tally::count_of(b, pc),
    ensures
        material_by(f, n) == tally::material_upto(b, n),
    decreases n,
{
    if n > 0 {
        lemma_material_by(b, f, n - 1);
        let pc = tally::coded(n - 1);
        if !pc.is_real() {
            tally::lemma_column_gap(pc, f(pc));
            tally::lemma_column_gap(pc, tally::count_of(b, pc));
        } else {
            assert(f(pc) == tally::count_of(b, pc));
        }
    }
}

/// No more of any piece than the keys are made for.
pub open spec fn countable(counts: [[i32; 7]; 2]) -> bool {
    forall|c: int, k: int|
        0 <= c < 2 && 0 <= k < 7 ==> 0 <= #[trigger] counts@[c]@[k] <= 56
}

/// The keys of one piece's column.
fn column_key(z: &zobrist::Tables, pc: Piece, n: i32) -> (r: Key)
    requires
        z.wf(),
        0 <= n <= 56,
    ensures
        r == tally::column(pc, n as int),
{
    let mut key: Key = 0;
    let mut k: i32 = 0;
    while k < n
        invariant
            z.wf(),
            0 <= k <= n <= 56,
            key == tally::column(pc, k as int),
        decreases n - k,
    {
        key = key ^ z.psq(pc, Square::new(8 + k as usize));
        k += 1;
    }
    key
}

/// The material key of piece counts: what is there, with no word of where.
pub fn material_key(counts: &[[i32; 7]; 2]) -> (r: Key)
    requires
        countable(*counts),
    ensures
        r == material_of_counts(*counts),
{
    let z = zobrist::build();
    let ghost f = |pc: Piece| amount(*counts, pc);
    let mut key: Key = 0;
    let mut code: u8 = 0;
    while code < 16
        invariant
            code <= 16,
            z.wf(),
            countable(*counts),
            f == (|pc: Piece| amount(*counts, pc)),
            key == material_by(f, code as int),
        decreases 16 - code,
    {
        let pc = Piece::from_raw(code);
        proof {
            tally::lemma_coded(pc);
        }
        let row = &counts[pc.color().index()];
        let n = row[pc.piece_type().index()];
        assert(n == counts@[pc.side().idx()]@[pc.kind().idx()]);
        key = key ^ column_key(&z, pc, n);
        code += 1;
    }
    key
}

// ---------------------------------------------------------------------------
// Names
// ---------------------------------------------------------------------------

/// Where a byte first stands in a text, or the text's length.
pub open spec fn first_at(s: Seq<u8>, c: u8, i: int) -> int
    decreases s.len() - i,
{
    if i >= s.len() || s[i] == c {
        i
    } else {
        first_at(s, c, i + 1)
    }
}

/// How many of the first `n` letters name a piece type.
pub open spec fn letters(s: Seq<u8>, pt: PieceType, n: int) -> int
    decreases n,
{
    if n <= 0 {
        0
    } else {
        letters(s, pt, n - 1) + (if PieceType::of_letter(s[n - 1]) == Some(pt) {
            1int
        } else {
            0int
        })
    }
}

/// One side's part of a name: piece letters in upper case, a king first.
pub open spec fn side_ok(s: Seq<u8>) -> bool {
    &&& s.len() > 0
    &&& s[0] == 75
    &&& forall|i: int|
        0 <= i < s.len() ==> 65 <= #[trigger] s[i] <= 90 && PieceType::of_letter(s[i]) is Some
}

/// The two sides of a name.
pub open spec fn side_of(s: Seq<u8>, side: int) -> Seq<u8> {
    let v = first_at(s, 118, 0);
    if side == 0 {
        s.subrange(0, v)
    } else {
        s.subrange(v + 1, s.len() as int)
    }
}

/// A text names a table: two sides with a `v` between them.
pub open spec fn is_code(s: Seq<u8>) -> bool {
    first_at(s, 118, 0) < s.len() && side_ok(side_of(s, 0)) && side_ok(side_of(s, 1))
}

/// The counts are those of a name.
pub open spec fn counts_of(counts: [[i32; 7]; 2], s: Seq<u8>) -> bool {
    forall|c: int, k: int|
        0 <= c < 2 && 0 <= k < 7 ==> #[trigger] counts@[c]@[k] == letters(
            side_of(s, c),
            PieceType::of_index(k),
            side_of(s, c).len() as int,
        )
}

proof fn lemma_first_at(s: Seq<u8>, c: u8, i: int)
    requires
        0 <= i <= s.len(),
    ensures
        i <= first_at(s, c, i) <= s.len(),
        first_at(s, c, i) < s.len() ==> s[first_at(s, c, i)] == c,
    decreases s.len() - i,
{
    if i < s.len() && s[i] != c {
        lemma_first_at(s, c, i + 1);
    }
}

proof fn lemma_letters(s: Seq<u8>, pt: PieceType, n: int)
    requires
        0 <= n <= s.len(),
    ensures
        0 <= letters(s, pt, n) <= n,
    decreases n,
{
    if n > 0 {
        lemma_letters(s, pt, n - 1);
    }
}

/// Count the letters of one side; nothing for a text that is not one.
fn side_counts(s: &[u8], from: usize, to: usize) -> (r: Option<[i32; 7]>)
    requires
        from <= to <= s@.len() <= 0x7fff_ffff,
    ensures
        r is Some == side_ok(s@.subrange(from as int, to as int)),
        r is Some ==> forall|k: int|
            0 <= k < 7 ==> #[trigger] (r->0)@[k] == letters(
                s@.subrange(from as int, to as int),
                PieceType::of_index(k),
                to - from,
            ),
{
    let ghost t = s@.subrange(from as int, to as int);
    if from == to || s[from] != 75 {
        assert(t.len() > 0 ==> t[0] == s@[from as int]);
        return None;
    }
    assert(t[0] == 75);
    let mut counts: [i32; 7] = [0; 7];
    let mut i: usize = from;
    while i < to
        invariant
            from <= i <= to <= s@.len() <= 0x7fff_ffff,
            t == s@.subrange(from as int, to as int),
            forall|k: int|
                0 <= k < 7 ==> #[trigger] counts@[k] == letters(t, PieceType::of_index(k), i - from),
            forall|k: int|
                0 <= k < i - from ==> 65 <= #[trigger] t[k] <= 90 && PieceType::of_letter(t[k])
                    is Some,
        decreases to - i,
    {
        assert(t[i - from] == s@[i as int]);
        if s[i] < 65 || s[i] > 90 {
            return None;
        }
        match PieceType::from_char(s[i]) {
            Some(pt) => {
                let k = pt.index();
                proof {
                    lemma_letters(t, pt, i - from);
                    lemma_of_index(pt);
                    assert forall|j: int| 0 <= j < 7 implies (PieceType::of_index(j) == pt) == (j
                        == k) by {
                        lemma_of_index(PieceType::of_index(j));
                    }
                }
                let ghost before = counts@;
                let n: i32 = counts[k] + 1;
                counts[k] = n;
                assert(forall|j: int| 0 <= j < 7 && j != k ==> #[trigger] counts@[j] == before[j]);
            },
            None => {
                return None;
            },
        }
        i += 1;
    }
    Some(counts)
}

proof fn lemma_of_index(pt: PieceType)
    ensures
        PieceType::of_index(pt.idx()) == pt,
        forall|j: int| 0 <= j < 7 ==> #[trigger] PieceType::of_index(j).idx() == j,
{
}

/// The piece counts that a table's name gives, such as `KRPvKR`. Nothing for another text.
pub fn parse_code(code: &str) -> (r: Option<[[i32; 7]; 2]>)
    requires
        vstd::utf8::encode_utf8(code@).len() <= 0x7fff_ffff,
    ensures
        r is Some == is_code(vstd::utf8::encode_utf8(code@)),
        r is Some ==> counts_of(r->0, vstd::utf8::encode_utf8(code@)),
{
    let s = code.as_bytes();
    let mut v: usize = 0;
    while v < s.len() && s[v] != 118
        invariant
            v <= s@.len(),
            first_at(s@, 118, 0) == first_at(s@, 118, v as int),
        decreases s@.len() - v,
    {
        v += 1;
    }
    if v >= s.len() {
        return None;
    }
    match side_counts(s, 0, v) {
        None => None,
        Some(white) => match side_counts(s, v + 1, s.len()) {
            None => None,
            Some(black) => Some([white, black]),
        },
    }
}

// ---------------------------------------------------------------------------
// A table
// ---------------------------------------------------------------------------

/// What a file holds, laid out.
#[derive(Debug)]
pub struct Loaded {
    pub bytes: Vec<u8>,
    /// The parts, file by file and side by side within a file. A table without pawns has one
    /// file.
    pub items: Vec<PairsData>,
    /// Where the map of the distances is.
    pub map: u64,
}

/// One table: the material that it is for, and where its file is.
#[derive(Debug)]
pub struct TbTable {
    pub kind: TbType,
    /// The material key as the name has it.
    pub key: Key,
    /// The material key with the colours exchanged.
    pub key2: Key,
    pub piece_count: usize,
    pub has_pawns: bool,
    /// Some piece besides the kings is alone of its kind and colour.
    pub has_unique_pieces: bool,
    /// The pawns of the leading colour and of the other.
    pub pawn_count: [u8; 2],
    /// Where the file is.
    pub path: String,
}

/// The counts with the colours exchanged.
pub open spec fn exchanged(counts: [[i32; 7]; 2], other: [[i32; 7]; 2]) -> bool {
    other@[0] == counts@[1] && other@[1] == counts@[0]
}

/// The sum of the first `n` counts of a side.
pub open spec fn sum_of(row: Seq<i32>, n: int) -> int
    decreases n,
{
    if n <= 0 {
        0
    } else {
        sum_of(row, n - 1) + row[n - 1]
    }
}

/// Some piece besides the king is alone of its kind.
pub open spec fn has_single(row: Seq<i32>) -> bool {
    exists|k: int| 1 <= k <= 5 && #[trigger] row[k] == 1
}

/// White's pawns lead: Black has none, or White has some and not more.
pub open spec fn white_leads(counts: [[i32; 7]; 2]) -> bool {
    let w = counts@[0]@[1];
    let b = counts@[1]@[1];
    b == 0 || (w != 0 && b >= w)
}

impl TbTable {
    /// The table is the one for these counts.
    pub open spec fn identified(&self, counts: [[i32; 7]; 2]) -> bool {
        let w = counts@[0]@;
        let b = counts@[1]@;
        &&& self.key == material_of_counts(counts)
        &&& forall|other: [[i32; 7]; 2]|
            #[trigger] exchanged(counts, other) ==> self.key2 == material_of_counts(other)
        &&& self.piece_count == sum_of(w, 7) + sum_of(b, 7)
        &&& self.has_pawns == (w[1] + b[1] > 0)
        &&& self.has_unique_pieces == (has_single(w) || has_single(b))
        &&& self.pawn_count@ == (if white_leads(counts) {
            seq![w[1] as u8, b[1] as u8]
        } else {
            seq![b[1] as u8, w[1] as u8]
        })
    }

    /// There are pieces enough for the first group.
    pub open spec fn wf(&self) -> bool {
        &&& 1 <= self.piece_count <= 784
        &&& pairs::first_length(self.has_pawns, self.has_unique_pieces) <= self.piece_count
    }
}

/// The counts of a name are counted once and for all.
pub proof fn lemma_counts(a: [[i32; 7]; 2], b: [[i32; 7]; 2], s: Seq<u8>)
    requires
        counts_of(a, s),
        counts_of(b, s),
    ensures
        countable(a) == countable(b),
        a == b,
{
    assert forall|c: int, k: int| 0 <= c < 2 && 0 <= k < 7 implies #[trigger] a@[c]@[k]
        == b@[c]@[k] by {}
    assert forall|c: int, k: int| 0 <= c < 2 && 0 <= k < 7 implies #[trigger] b@[c]@[k]
        == a@[c]@[k] by {}
    assert(a@[0] =~= b@[0]);
    assert(a@[1] =~= b@[1]);
    assert(a =~= b);
}

/// The sum of a side's counts, and whether a piece is alone of its kind.
fn sum_row(row: &[i32; 7]) -> (r: (i32, bool))
    requires
        forall|k: int| 0 <= k < 7 ==> 0 <= #[trigger] row@[k] <= 56,
    ensures
        r.0 == sum_of(row@, 7),
        r.1 == has_single(row@),
        0 <= r.0 <= 392,
        forall|k: int| 0 <= k < 7 ==> #[trigger] row@[k] <= r.0,
        r.1 ==> r.0 >= row@[6] + 1,
{
    let mut sum: i32 = 0;
    let mut single = false;
    let mut k: usize = 0;
    while k < 7
        invariant
            k <= 7,
            forall|j: int| 0 <= j < 7 ==> 0 <= #[trigger] row@[j] <= 56,
            sum == sum_of(row@, k as int),
            0 <= sum <= 56 * k,
            forall|j: int| 0 <= j < k ==> #[trigger] row@[j] <= sum,
            single == (exists|j: int| 1 <= j <= 5 && j < k && #[trigger] row@[j] == 1),
            single ==> sum >= 1,
            single && k == 7 ==> sum >= row@[6] + 1,
        decreases 7 - k,
    {
        let n = row[k];
        if k >= 1 && k <= 5 && n == 1 {
            single = true;
        }
        sum += n;
        k += 1;
    }
    (sum, single)
}

/// Whether no count is over what the keys are made for.
fn row_fits(row: &[i32; 7]) -> (r: bool)
    ensures
        r == (forall|k: int| 0 <= k < 7 ==> #[trigger] row@[k] <= 56),
{
    let mut k: usize = 0;
    while k < 7
        invariant
            k <= 7,
            forall|j: int| 0 <= j < k ==> #[trigger] row@[j] <= 56,
        decreases 7 - k,
    {
        if row[k] > 56 {
            return false;
        }
        k += 1;
    }
    true
}

impl TbTable {
    /// The table that a name gives. Nothing for a text that names none, or that has more of a
    /// piece than a material key can tell apart. The file is not read.
    pub fn new(kind: TbType, code: &str, path: String) -> (r: Option<TbTable>)
        requires
            vstd::utf8::encode_utf8(code@).len() <= 0x7fff_ffff,
        ensures
            ({
                let s = vstd::utf8::encode_utf8(code@);
                &&& r is Some ==> is_code(s)
                &&& is_code(s) ==> exists|counts: [[i32; 7]; 2]|
                    {
                        &&& #[trigger] counts_of(counts, s)
                        &&& r is Some == countable(counts)
                        &&& r is Some ==> (r->0).identified(counts)
                    }
                &&& r is Some ==> {
                    &&& (r->0).wf()
                    &&& (r->0).kind == kind
                    &&& (r->0).path == path
                }
            }),
    {
        let counts = match parse_code(code) {
            Some(counts) => counts,
            None => {
                return None;
            },
        };
        let ghost s = vstd::utf8::encode_utf8(code@);
        let white = counts[0];
        let black = counts[1];
        assert(white@ == counts@[0]@ && black@ == counts@[1]@);
        proof {
            assert forall|c: int, k: int| 0 <= c < 2 && 0 <= k < 7 implies 0
                <= #[trigger] counts@[c]@[k] by {
                lemma_letters(side_of(s, c), PieceType::of_index(k), side_of(s, c).len() as int);
            }
        }
        if !row_fits(&white) || !row_fits(&black) {
            assert(!countable(counts));
            return None;
        }
        assert(countable(counts));
        proof {
            lemma_kings(side_of(s, 0));
            lemma_kings(side_of(s, 1));
            assert(counts@[0]@[6] >= 1 && counts@[1]@[6] >= 1);
        }
        let (w, w_single) = sum_row(&white);
        let (b, b_single) = sum_row(&black);
        let swapped = [black, white];
        assert(exchanged(counts, swapped));
        assert(countable(swapped)) by {
            assert forall|c: int, k: int| 0 <= c < 2 && 0 <= k < 7 implies 0
                <= #[trigger] swapped@[c]@[k] <= 56 by {
                assert(swapped@[c]@[k] == counts@[1 - c]@[k]);
            }
        }
        let key = material_key(&counts);
        let key2 = material_key(&swapped);
        proof {
            assert forall|other: [[i32; 7]; 2]| #[trigger] exchanged(counts, other) implies key2
                == material_of_counts(other) by {
                assert forall|pc: Piece| amount(other, pc) == amount(swapped, pc) by {}
                assert((|pc: Piece| amount(other, pc)) =~= (|pc: Piece| amount(swapped, pc)));
            }
        }
        let wp = white[1];
        let bp = black[1];
        let lead_white = bp == 0 || (wp != 0 && bp >= wp);
        let pawn_count: [u8; 2] = if lead_white {
            [wp as u8, bp as u8]
        } else {
            [bp as u8, wp as u8]
        };
        assert(pawn_count@ =~= if lead_white {
            seq![wp as u8, bp as u8]
        } else {
            seq![bp as u8, wp as u8]
        });
        Some(
            TbTable {
                kind,
                key,
                key2,
                piece_count: (w + b) as usize,
                has_pawns: wp + bp > 0,
                has_unique_pieces: w_single || b_single,
                pawn_count,
                path,
            },
        )
    }
}

/// A side has its king.
proof fn lemma_kings(s: Seq<u8>)
    requires
        side_ok(s),
    ensures
        letters(s, PieceType::King, s.len() as int) >= 1,
{
    lemma_kings_upto(s, s.len() as int);
}

proof fn lemma_kings_upto(s: Seq<u8>, n: int)
    requires
        side_ok(s),
        1 <= n <= s.len(),
    ensures
        letters(s, PieceType::King, n) >= 1,
    decreases n,
{
    if n > 1 {
        lemma_kings_upto(s, n - 1);
    } else {
        assert(letters(s, PieceType::King, 0) == 0);
    }
}

// ---------------------------------------------------------------------------
// The layout of a file
// ---------------------------------------------------------------------------

/// The next multiple of `n`.
pub open spec fn aligned(off: int, n: int) -> int {
    (off + n - 1) / n * n
}

/// Where the values of a map end that starts at `off`.
pub open spec fn slot_end(b: Seq<u8>, off: int, wide: bool) -> int {
    if wide {
        off + 2 * pairs::le16(b, off) + 2
    } else {
        off + b[off] + 1
    }
}

/// What a map that starts at `off` is found by, counted from `base`.
pub open spec fn slot_index(base: int, off: int, wide: bool) -> int {
    if wide {
        (off - base) / 2 + 1
    } else {
        off - base + 1
    }
}

/// A map can start at `off`: its length is in the file, and what it is found by fits.
pub open spec fn slot_ok(b: Seq<u8>, base: int, off: int, wide: bool) -> bool {
    &&& off + (if wide {
        2int
    } else {
        1int
    }) <= b.len()
    &&& slot_index(base, off, wide) <= 0xFFFF
}

/// Where the map of outcome `j` starts, the first at `start`.
pub open spec fn slot_off(b: Seq<u8>, start: int, wide: bool, j: int) -> int
    decreases j,
{
    if j <= 0 {
        start
    } else {
        slot_end(b, slot_off(b, start, wide, j - 1), wide)
    }
}

impl TbTable {
    /// Both sides have pawns.
    pub open spec fn both_pawns(&self) -> bool {
        self.has_pawns && self.pawn_count@[1] != 0
    }

    /// How many sides to move the file has.
    pub open spec fn side_count(&self) -> int {
        if self.kind == TbType::Wdl && self.key != self.key2 {
            2
        } else {
            1
        }
    }

    /// How many files the leading pawn can be on.
    pub open spec fn file_count(&self) -> int {
        if self.has_pawns {
            4
        } else {
            1
        }
    }

    /// How many parts there are.
    pub open spec fn part_count(&self) -> int {
        self.side_count() * self.file_count()
    }

    /// The length of a file's front: the order of the groups, then the pieces.
    pub open spec fn front_len(&self) -> int {
        (if self.both_pawns() {
            2int
        } else {
            1int
        }) + self.piece_count
    }

    /// Where the front of part `i` is.
    pub open spec fn front_off(&self, i: int) -> int {
        5 + i / self.side_count() * self.front_len()
    }

    /// The half of a byte that is for the side of part `i`.
    pub open spec fn half(&self, i: int, byte: u8) -> int {
        if i % self.side_count() != 0 {
            byte as int / 16
        } else {
            byte as int % 16
        }
    }

    /// Piece `k` in the order of part `i`.
    pub open spec fn code_at(&self, b: Seq<u8>, i: int, k: int) -> int {
        self.half(i, b[self.front_off(i) + self.front_len() - self.piece_count + k])
    }

    /// The place of the first group and of the second in the order of part `i`.
    pub open spec fn order_of(&self, b: Seq<u8>, i: int) -> (int, int) {
        (
            self.half(i, b[self.front_off(i)]),
            if self.both_pawns() {
                self.half(i, b[self.front_off(i) + 1])
            } else {
                15
            },
        )
    }

    /// The pieces of part `i`, in the order of the part.
    pub open spec fn codes(&self, b: Seq<u8>, i: int) -> Seq<u8> {
        Seq::new(
            7,
            |k: int|
                if k < self.piece_count {
                    self.code_at(b, i, k) as u8
                } else {
                    0
                },
        )
    }

    /// The lengths of the groups of part `i`.
    pub open spec fn lens(&self, b: Seq<u8>, i: int) -> Seq<int> {
        pairs::runs(
            self.codes(b, i),
            pairs::first_length(self.has_pawns, self.has_unique_pieces),
            self.piece_count as int,
        )
    }

    /// What the groups of part `i` are multiplied by, and behind them the number of positions.
    pub open spec fn multipliers(&self, b: Seq<u8>, i: int) -> Seq<int> {
        let lens = self.lens(b, i);
        pairs::weights(
            lens,
            pairs::lead_factor(
                lens[0],
                self.has_pawns,
                self.has_unique_pieces,
                i / self.side_count(),
            ),
            self.order_of(b, i),
            0,
            if self.both_pawns() {
                2
            } else {
                1
            },
            64 - lens[0] - (if self.both_pawns() {
                pairs::group_of(lens, 1)
            } else {
                0
            }),
            1,
            Seq::new(8, |k: int| 0),
        )
    }

    /// The front of part `i` can be used: a pawn leads where there are pawns, and no group is
    /// longer than the tables reach.
    pub open spec fn front_ok(&self, b: Seq<u8>, i: int) -> bool {
        &&& self.has_pawns ==> self.code_at(b, i, 0) % 8 == 1
        &&& pairs::groups_ok(self.lens(b, i), self.has_pawns)
    }

    /// The head agrees with the name, and every front can be used.
    pub open spec fn head_ok(&self, b: Seq<u8>) -> bool {
        &&& b.len() >= 5
        &&& (b[4] as int / 2 % 2 == 1) == self.has_pawns
        &&& (b[4] as int % 2 == 1) == (self.key != self.key2)
        &&& self.piece_count <= 7
        &&& 5 + self.file_count() * self.front_len() <= b.len()
        &&& forall|i: int| 0 <= i < self.part_count() ==> #[trigger] self.front_ok(b, i)
    }

    /// Where the sizes of part `i` are.
    pub open spec fn size_off(&self, b: Seq<u8>, i: int) -> int
        decreases i,
    {
        if i <= 0 {
            aligned(5 + self.file_count() * self.front_len(), 2)
        } else {
            pairs::sizes_end(b, self.size_off(b, i - 1))
        }
    }

    /// The sizes of the first `n` parts can be read.
    pub open spec fn sizes_ok_upto(&self, b: Seq<u8>, n: int) -> bool {
        forall|i: int| 0 <= i < n ==> pairs::sizes_ok(b, #[trigger] self.size_off(b, i))
    }

    /// Where the maps are.
    pub open spec fn map_base(&self, b: Seq<u8>) -> int {
        self.size_off(b, self.part_count())
    }

    /// The flags of part `i`.
    pub open spec fn flags_of(&self, b: Seq<u8>, i: int) -> u8 {
        b[self.size_off(b, i)]
    }

    /// Part `f` has maps of two bytes for each value.
    pub open spec fn wide_at(&self, b: Seq<u8>, f: int) -> bool {
        pairs::is_set(self.flags_of(b, f), FLAG_WIDE)
    }

    /// Where the maps of part `f` start, if it has any.
    pub open spec fn map_start(&self, b: Seq<u8>, f: int) -> int {
        if self.wide_at(b, f) {
            aligned(self.map_off(b, f), 2)
        } else {
            self.map_off(b, f)
        }
    }

    /// Where the maps of the first `f` parts end.
    pub open spec fn map_off(&self, b: Seq<u8>, f: int) -> int
        decreases f,
    {
        if f <= 0 {
            self.map_base(b)
        } else if !pairs::is_set(self.flags_of(b, f - 1), FLAG_MAPPED) {
            self.map_off(b, f - 1)
        } else {
            let wide = self.wide_at(b, f - 1);
            let start = if wide {
                aligned(self.map_off(b, f - 1), 2)
            } else {
                self.map_off(b, f - 1)
            };
            slot_off(b, start, wide, 4)
        }
    }

    /// The maps of the first `n` parts can be used.
    pub open spec fn maps_ok_upto(&self, b: Seq<u8>, n: int) -> bool {
        forall|f: int, j: int|
            0 <= f < n && 0 <= j < 4 && pairs::is_set(self.flags_of(b, f), FLAG_MAPPED) ==> slot_ok(
                b,
                self.map_base(b),
                #[trigger] slot_off(b, self.map_start(b, f), self.wide_at(b, f), j),
                self.wide_at(b, f),
            )
    }

    /// The maps can be used, where the table has any.
    pub open spec fn maps_ok(&self, b: Seq<u8>) -> bool {
        self.kind == TbType::Dtz ==> self.maps_ok_upto(b, self.file_count())
    }

    /// How many entries the sparse index of part `i` has.
    pub open spec fn sparse_count(&self, b: Seq<u8>, i: int) -> int {
        let o = self.size_off(b, i);
        if pairs::is_set(b[o], FLAG_SINGLE_VALUE) {
            0
        } else {
            let span = vstd::arithmetic::power2::pow2(b[o + 2] as nat) as int;
            (self.multipliers(b, i)[self.lens(b, i).len() as int] + span - 1) / span
        }
    }

    /// How many block lengths part `i` has.
    pub open spec fn block_count(&self, b: Seq<u8>, i: int) -> int {
        let o = self.size_off(b, i);
        if pairs::is_set(b[o], FLAG_SINGLE_VALUE) {
            0
        } else {
            (pairs::le32(b, o + 4) + b[o + 3]) % 0x1_0000_0000
        }
    }

    /// How many bytes the values of part `i` take.
    pub open spec fn payload(&self, b: Seq<u8>, i: int) -> int {
        let o = self.size_off(b, i);
        if pairs::is_set(b[o], FLAG_SINGLE_VALUE) {
            0
        } else {
            pairs::le32(b, o + 4) * vstd::arithmetic::power2::pow2(b[o + 1] as nat)
        }
    }

    /// Where the sparse index of part `i` is.
    pub open spec fn sparse_off(&self, b: Seq<u8>, i: int) -> int
        decreases i,
    {
        if i <= 0 {
            if self.kind == TbType::Dtz {
                aligned(self.map_off(b, self.file_count()), 2)
            } else {
                self.map_base(b)
            }
        } else {
            self.sparse_off(b, i - 1) + 6 * self.sparse_count(b, i - 1)
        }
    }

    /// Where the block lengths of part `i` are.
    pub open spec fn block_off(&self, b: Seq<u8>, i: int) -> int
        decreases i,
    {
        if i <= 0 {
            self.sparse_off(b, self.part_count())
        } else {
            self.block_off(b, i - 1) + 2 * self.block_count(b, i - 1)
        }
    }

    /// Where the values of the first `i` parts end.
    pub open spec fn data_end(&self, b: Seq<u8>, i: int) -> int
        decreases i,
    {
        if i <= 0 {
            self.block_off(b, self.part_count())
        } else {
            aligned(self.data_end(b, i - 1), 64) + self.payload(b, i - 1)
        }
    }

    /// A file can be laid out: every structure is in it.
    pub open spec fn accepts(&self, b: Seq<u8>) -> bool {
        &&& self.head_ok(b)
        &&& self.sizes_ok_upto(b, self.part_count())
        &&& self.maps_ok(b)
        &&& self.data_end(b, self.part_count()) <= b.len()
    }

    /// A part has the pieces and the groups of part `i`.
    pub open spec fn fronted(&self, d: &PairsData, b: Seq<u8>, i: int) -> bool {
        let n = self.lens(b, i).len() as int;
        &&& d.pieces@ == self.codes(b, i)
        &&& 1 <= n <= self.piece_count
        &&& pairs::lens_of(d.group_len@, n) == self.lens(b, i)
        &&& d.group_len@[n] == 0
        &&& pairs::weights_of(d.group_idx@) == self.multipliers(b, i)
        &&& pairs::modest(d, n)
    }

    /// A part has the maps of part `f`.
    pub open spec fn mapped(&self, d: &PairsData, b: Seq<u8>, f: int) -> bool {
        forall|j: int|
            0 <= j < 4 ==> #[trigger] d.map_idx@[j] == (if self.kind == TbType::Dtz
                && pairs::is_set(self.flags_of(b, f), FLAG_MAPPED) {
                slot_index(
                    self.map_base(b),
                    slot_off(b, self.map_start(b, f), self.wide_at(b, f), j),
                    self.wide_at(b, f),
                )
            } else {
                0
            })
    }

    /// A part is part `i` of the file.
    pub open spec fn is_part(&self, d: &PairsData, b: Seq<u8>, i: int) -> bool {
        &&& self.fronted(d, b, i)
        &&& pairs::sized(d, b, self.size_off(b, i))
        &&& d.readable()
        &&& self.mapped(d, b, i)
        &&& d.sparse_index == self.sparse_off(b, i)
        &&& d.block_length == self.block_off(b, i)
        &&& d.data == aligned(self.data_end(b, i), 64)
    }

    /// The contents are those of the file.
    pub open spec fn laid_out(&self, l: &Loaded) -> bool {
        &&& self.accepts(l.bytes@)
        &&& l.items@.len() == self.part_count()
        &&& forall|i: int| 0 <= i < l.items@.len() ==> self.is_part(&#[trigger] l.items@[i], l.bytes@, i)
        &&& l.map == self.map_base(l.bytes@)
    }

    /// Whether both sides have pawns.
    fn has_both_pawns(&self) -> (r: bool)
        ensures
            r == self.both_pawns(),
    {
        self.has_pawns && self.pawn_count[1] != 0
    }

    /// How many sides to move the file has.
    fn count_sides(&self) -> (r: usize)
        ensures
            r == self.side_count(),
    {
        if self.kind.sides() == 2 && self.key != self.key2 {
            2
        } else {
            1
        }
    }

    /// The half of a byte that is for a side.
    fn pick(side: usize, byte: u8) -> (r: u8)
        ensures
            r == if side != 0 {
                byte as int / 16
            } else {
                byte as int % 16
            },
            r < 16,
    {
        if side != 0 {
            byte / 16
        } else {
            byte % 16
        }
    }

    /// The pieces and the groups of part `i`; nothing when its front cannot be used.
    fn read_front(&self, t: &IndexTables, bytes: &Vec<u8>, i: usize) -> (r: Option<PairsData>)
        requires
            self.wf(),
            t.wf(),
            self.piece_count <= 7,
            5 + self.file_count() * self.front_len() <= bytes@.len(),
            i < self.part_count(),
        ensures
            r is Some == self.front_ok(bytes@, i as int),
            r is Some ==> {
                let d = r->0;
                &&& self.fronted(&d, bytes@, i as int)
                &&& d.sparse_index == 0
                &&& d.block_length == 0
                &&& d.data == 0
                &&& d.sizeof_block == 0
                &&& forall|j: int| 0 <= j < 4 ==> #[trigger] d.map_idx@[j] == 0
            },
    {
        let ghost b = bytes@;
        let sides = self.count_sides();
        let pp = self.has_both_pawns();
        let file = i / sides;
        let side = i % sides;
        let lead: usize = if pp {
            2
        } else {
            1
        };
        let len: usize = lead + self.piece_count;
        proof {
            let n = self.file_count();
            assert(file < n) by (nonlinear_arith)
                requires
                    file == i as int / (sides as int),
                    i < sides * n,
                    sides > 0,
            ;
            assert(file * len + len <= n * len) by (nonlinear_arith)
                requires
                    file + 1 <= n,
                    len >= 0,
            ;
            assert(0 <= file * len <= 3 * 9) by (nonlinear_arith)
                requires
                    file <= 3,
                    len <= 9,
            ;
        }
        let off: usize = 5 + file * len;
        let mut d = PairsData::default();
        let ghost zeros = pairs::weights_of(d.group_idx@);
        assert(zeros =~= Seq::new(8, |k: int| 0));
        let mut k: usize = 0;
        while k < self.piece_count
            invariant
                k <= self.piece_count <= 7,
                b == bytes@,
                off == self.front_off(i as int),
                off <= 32,
                lead <= 2,
                lead + self.piece_count == self.front_len(),
                off + self.front_len() <= b.len(),
                side == i as int % self.side_count(),
                forall|j: int| 0 <= j < k ==> #[trigger] d.pieces@[j] == self.code_at(b, i as int, j),
                forall|j: int| k <= j < 7 ==> #[trigger] d.pieces@[j] == 0,
                zeros == pairs::weights_of(d.group_idx@),
                forall|j: int| 0 <= j < 8 ==> #[trigger] d.group_idx@[j] == 0,
                d.sparse_index == 0,
                d.block_length == 0,
                d.data == 0,
                d.sizeof_block == 0,
                forall|j: int| 0 <= j < 4 ==> #[trigger] d.map_idx@[j] == 0,
            decreases self.piece_count - k,
        {
            let c = Self::pick(side, bytes[off + lead + k]);
            d.pieces[k] = c;
            k += 1;
        }
        assert(d.pieces@ =~= self.codes(b, i as int));
        if self.has_pawns && d.pieces[0] % 8 != 1 {
            return None;
        }
        let first = Self::pick(side, bytes[off]) as i32;
        let second: i32 = if pp {
            Self::pick(side, bytes[off + 1]) as i32
        } else {
            15
        };
        let ok = set_groups(
            t,
            &mut d,
            self.piece_count,
            self.has_pawns,
            self.has_unique_pieces,
            self.pawn_count,
            [first, second],
            file,
        );
        if !ok {
            return None;
        }
        Some(d)
    }
}

/// The sizes of a part are not long.
proof fn lemma_sizes_end(b: Seq<u8>, off: int)
    requires
        pairs::sizes_ok(b, off),
    ensures
        pairs::sizes_end(b, off) <= b.len() + 0x4_0000,
{
}

/// The groups end where the lengths do.
proof fn lemma_positions(d: &PairsData, n: int, i: int)
    requires
        0 <= i <= n <= 7,
        d.group_len@[n] == 0,
        forall|k: int| 0 <= k < n ==> #[trigger] d.group_len@[k] >= 1,
    ensures
        pairs::positions(d.group_len@, d.group_idx@, i) == d.group_idx@[n],
    decreases n - i,
{
    if i < n {
        assert(d.group_len@[i] >= 1);
        lemma_positions(d, n, i + 1);
    }
}

impl TbTable {
    /// The part has its front and its sizes.
    spec fn measured(&self, d: &PairsData, b: Seq<u8>, i: int) -> bool {
        &&& self.fronted(d, b, i)
        &&& pairs::sized(d, b, self.size_off(b, i))
        &&& d.readable()
    }

    /// Two parts differ at most in where their data are.
    spec fn alike(d: &PairsData, e: &PairsData) -> bool {
        *e == (PairsData {
            map_idx: e.map_idx,
            sparse_index: e.sparse_index,
            block_length: e.block_length,
            data: e.data,
            ..*d
        })
    }

    proof fn lemma_alike(&self, d: &PairsData, e: &PairsData, b: Seq<u8>, i: int)
        requires
            self.measured(d, b, i),
            Self::alike(d, e),
            e.placed(),
        ensures
            self.measured(e, b, i),
    {
        if !pairs::is_set(d.flags, FLAG_SINGLE_VALUE) {
            assert(d.fast_ok());
            assert(e.fast_ok());
        }
    }

    proof fn lemma_lens(&self, b: Seq<u8>, i: int)
        requires
            self.wf(),
        ensures
            forall|k: int| 0 <= k < self.lens(b, i).len() ==> #[trigger] self.lens(b, i)[k] >= 1,
    {
        pairs::lemma_runs(
            self.codes(b, i),
            pairs::first_length(self.has_pawns, self.has_unique_pieces),
            self.piece_count as int,
        );
    }

    /// The sizes of a part are those that its offsets are computed from.
    proof fn lemma_measured(&self, d: &PairsData, b: Seq<u8>, i: int)
        requires
            self.wf(),
            self.piece_count <= 7,
            self.measured(d, b, i),
        ensures
            d.sparse_index_size == self.sparse_count(b, i),
            d.block_length_size == self.block_count(b, i),
            d.blocks_num * d.sizeof_block == self.payload(b, i),
    {
        let n = self.lens(b, i).len() as int;
        self.lemma_lens(b, i);
        assert forall|k: int| 0 <= k < n implies #[trigger] d.group_len@[k] >= 1 by {
            assert(pairs::lens_of(d.group_len@, n)[k] == self.lens(b, i)[k]);
        }
        lemma_positions(d, n, 0);
        assert(pairs::weights_of(d.group_idx@)[n] == self.multipliers(b, i)[n]);
        if pairs::is_set(d.flags, FLAG_SINGLE_VALUE) {
            assert(d.blocks_num * d.sizeof_block == 0) by (nonlinear_arith)
                requires
                    d.blocks_num == 0,
            ;
        }
    }

    /// The fronts of all parts.
    fn read_fronts(&self, t: &IndexTables, bytes: &Vec<u8>, n: usize) -> (r: Option<Vec<PairsData>>)
        requires
            self.wf(),
            t.wf(),
            self.piece_count <= 7,
            5 + self.file_count() * self.front_len() <= bytes@.len(),
            n == self.part_count(),
        ensures
            r is Some == (forall|i: int|
                0 <= i < n ==> #[trigger] self.front_ok(bytes@, i)),
            r is Some ==> (r->0)@.len() == n,
            r is Some ==> forall|i: int|
                0 <= i < n ==> {
                    let d = #[trigger] (r->0)@[i];
                    &&& self.fronted(&d, bytes@, i)
                    &&& d.placed()
                    &&& forall|j: int| 0 <= j < 4 ==> #[trigger] d.map_idx@[j] == 0
                },
    {
        let mut items: Vec<PairsData> = Vec::new();
        let mut i: usize = 0;
        while i < n
            invariant
                self.wf(),
                t.wf(),
                self.piece_count <= 7,
                5 + self.file_count() * self.front_len() <= bytes@.len(),
                n == self.part_count(),
                i <= n,
                items@.len() == i,
                forall|k: int| 0 <= k < i ==> #[trigger] self.front_ok(bytes@, k),
                forall|k: int|
                    0 <= k < i ==> {
                        let d = #[trigger] items@[k];
                        &&& self.fronted(&d, bytes@, k)
                        &&& d.placed()
                        &&& forall|j: int| 0 <= j < 4 ==> #[trigger] d.map_idx@[j] == 0
                    },
            decreases n - i,
        {
            match self.read_front(t, bytes, i) {
                Some(d) => {
                    items.push(d);
                },
                None => {
                    return None;
                },
            }
            i += 1;
        }
        Some(items)
    }

    /// The sizes of all parts, and where they end.
    fn read_sizes(&self, bytes: &Vec<u8>, items: &mut Vec<PairsData>, start: u64) -> (r: Option<u64>)
        requires
            bytes@.len() <= 0x7FFF_FFFF_FFFF_FFFF,
            old(items)@.len() == self.part_count(),
            start == self.size_off(bytes@, 0),
            forall|i: int|
                0 <= i < old(items)@.len() ==> {
                    let d = #[trigger] old(items)@[i];
                    &&& self.fronted(&d, bytes@, i)
                    &&& d.placed()
                    &&& forall|j: int| 0 <= j < 4 ==> #[trigger] d.map_idx@[j] == 0
                },
        ensures
            r is Some == self.sizes_ok_upto(bytes@, self.part_count()),
            r is Some ==> r->0 == self.map_base(bytes@),
            r is Some ==> r->0 <= bytes@.len() + 0x4_0000,
            r is Some ==> final(items)@.len() == old(items)@.len(),
            r is Some ==> forall|i: int|
                0 <= i < final(items)@.len() ==> {
                    let d = #[trigger] final(items)@[i];
                    &&& self.measured(&d, bytes@, i)
                    &&& d.placed()
                    &&& forall|j: int| 0 <= j < 4 ==> #[trigger] d.map_idx@[j] == 0
                },
    {
        let ghost b = bytes@;
        let ghost was = items@;
        let n = items.len();
        let mut off: u64 = start;
        let mut i: usize = 0;
        while i < n
            invariant
                b == bytes@,
                b.len() <= 0x7FFF_FFFF_FFFF_FFFF,
                i <= n,
                n == items@.len(),
                n == self.part_count(),
                was.len() == n,
                off == self.size_off(b, i as int),
                i > 0 ==> off <= b.len() + 0x4_0000,
                self.sizes_ok_upto(b, i as int),
                forall|k: int|
                    0 <= k < n ==> {
                        let d = #[trigger] was[k];
                        &&& self.fronted(&d, b, k)
                        &&& d.placed()
                        &&& forall|j: int| 0 <= j < 4 ==> #[trigger] d.map_idx@[j] == 0
                    },
                forall|k: int| i <= k < n ==> #[trigger] items@[k] == was[k],
                forall|k: int|
                    0 <= k < i ==> {
                        let d = #[trigger] items@[k];
                        &&& self.measured(&d, b, k)
                        &&& d.placed()
                        &&& forall|j: int| 0 <= j < 4 ==> #[trigger] d.map_idx@[j] == 0
                    },
            decreases n - i,
        {
            assert(items@[i as int] == was[i as int]);
            let ghost before = items@;
            match set_sizes(&mut items[i], bytes.as_slice(), off) {
                Some(end) => {
                    proof {
                        lemma_sizes_end(b, off as int);
                    }
                    off = end;
                    assert(forall|k: int| 0 <= k < n && k != i ==> #[trigger] items@[k] == before[k]);
                },
                None => {
                    assert(!pairs::sizes_ok(b, self.size_off(b, i as int)));
                    return None;
                },
            }
            i += 1;
        }
        Some(off)
    }

    /// The four maps that start at `start`: what each is found by, and where they end.
    fn read_maps(bytes: &Vec<u8>, base: u64, start: u64, wide: bool) -> (r: Option<([u16; 4], u64)>)
        requires
            bytes@.len() <= 0x7FFF_FFFF_FFFF_FFFF,
            base <= start <= 0x9000_0000_0000_0000,
        ensures
            r is Some == (forall|j: int|
                0 <= j < 4 ==> slot_ok(
                    bytes@,
                    base as int,
                    #[trigger] slot_off(bytes@, start as int, wide, j),
                    wide,
                )),
            r is Some ==> (r->0).1 == slot_off(bytes@, start as int, wide, 4),
            r is Some ==> start <= (r->0).1 <= bytes@.len() + 0x2_0000,
            r is Some ==> forall|j: int|
                0 <= j < 4 ==> #[trigger] (r->0).0@[j] == slot_index(
                    base as int,
                    slot_off(bytes@, start as int, wide, j),
                    wide,
                ),
    {
        let ghost b = bytes@;
        let mut slots: [u16; 4] = [0; 4];
        let mut off: u64 = start;
        let mut j: usize = 0;
        let len: u64 = bytes.len() as u64;
        while j < 4
            invariant
                j <= 4,
                b == bytes@,
                len == b.len(),
                b.len() <= 0x7FFF_FFFF_FFFF_FFFF,
                base <= start <= off,
                off <= 0x9000_0000_0000_0000,
                b.len() <= usize::MAX,
                j > 0 ==> off <= b.len() + 0x2_0000,
                start <= 0x9000_0000_0000_0000,
                off == slot_off(b, start as int, wide, j as int),
                forall|k: int|
                    0 <= k < j ==> slot_ok(
                        b,
                        base as int,
                        #[trigger] slot_off(b, start as int, wide, k),
                        wide,
                    ),
                forall|k: int|
                    0 <= k < j ==> #[trigger] slots@[k] == slot_index(
                        base as int,
                        slot_off(b, start as int, wide, k),
                        wide,
                    ),
            decreases 4 - j,
        {
            let need: u64 = if wide {
                2
            } else {
                1
            };
            let index: u64 = if wide {
                (off - base) / 2 + 1
            } else {
                off - base + 1
            };
            if off + need > len || index > 0xFFFF {
                assert(!slot_ok(b, base as int, slot_off(b, start as int, wide, j as int), wide));
                return None;
            }
            slots[j] = index as u16;
            if wide {
                let n = pairs::u16_le(bytes.as_slice(), off as u128);
                off = off + 2 * n as u64 + 2;
            } else {
                off = off + bytes[off as usize] as u64 + 1;
            }
            j += 1;
        }
        Some((slots, off))
    }

    /// The maps of all parts, and where they end.
    fn set_dtz_map(&self, bytes: &Vec<u8>, items: &mut Vec<PairsData>, base: u64) -> (r: Option<u64>)
        requires
            bytes@.len() <= 0x7FFF_FFFF_FFFF_FFFF,
            self.kind == TbType::Dtz,
            old(items)@.len() == self.part_count(),
            base == self.map_base(bytes@),
            base <= bytes@.len() + 0x10_0000,
            forall|i: int|
                0 <= i < old(items)@.len() ==> {
                    let d = #[trigger] old(items)@[i];
                    &&& self.measured(&d, bytes@, i)
                    &&& d.placed()
                    &&& forall|j: int| 0 <= j < 4 ==> #[trigger] d.map_idx@[j] == 0
                },
        ensures
            r is Some == self.maps_ok(bytes@),
            r is Some ==> r->0 == self.sparse_off(bytes@, 0),
            r is Some ==> final(items)@.len() == old(items)@.len(),
            r is Some ==> forall|i: int|
                0 <= i < final(items)@.len() ==> {
                    let d = #[trigger] final(items)@[i];
                    &&& self.measured(&d, bytes@, i)
                    &&& self.mapped(&d, bytes@, i)
                    &&& d.placed()
                },
    {
        let ghost b = bytes@;
        let ghost was = items@;
        let n = items.len();
        assert(self.part_count() == self.file_count()) by (nonlinear_arith)
            requires
                self.part_count() == self.side_count() * self.file_count(),
                self.side_count() == 1,
        ;
        let mut off: u64 = base;
        let mut i: usize = 0;
        while i < n
            invariant
                b == bytes@,
                b.len() <= 0x7FFF_FFFF_FFFF_FFFF,
                self.kind == TbType::Dtz,
                i <= n,
                n == items@.len(),
                n == self.part_count(),
                n == self.file_count(),
                was.len() == n,
                base == self.map_base(b),
                base <= off <= b.len() + 0x10_0000,
                off == self.map_off(b, i as int),
                self.maps_ok_upto(b, i as int),
                forall|k: int|
                    0 <= k < n ==> {
                        let d = #[trigger] was[k];
                        &&& self.measured(&d, b, k)
                        &&& d.placed()
                        &&& forall|j: int| 0 <= j < 4 ==> #[trigger] d.map_idx@[j] == 0
                    },
                forall|k: int| i <= k < n ==> #[trigger] items@[k] == was[k],
                forall|k: int|
                    0 <= k < i ==> {
                        let d = #[trigger] items@[k];
                        &&& self.measured(&d, b, k)
                        &&& self.mapped(&d, b, k)
                        &&& d.placed()
                    },
            decreases n - i,
        {
            let ghost before = items@;
            assert(items@[i as int] == was[i as int]);
            assert(self.measured(&was[i as int], b, i as int));
            let flags = items[i].flags;
            assert(flags == self.flags_of(b, i as int));
            if has_flag(flags, FLAG_MAPPED) {
                let wide = has_flag(flags, FLAG_WIDE);
                let start: u64 = if wide {
                    (off + 1) / 2 * 2
                } else {
                    off
                };
                assert(start == self.map_start(b, i as int));
                match Self::read_maps(bytes, base, start, wide) {
                    Some((slots, end)) => {
                        let slot = &mut items[i];
                        slot.map_idx = slots;
                        off = end;
                        proof {
                            self.lemma_alike(&before[i as int], &items@[i as int], b, i as int);
                            assert(self.mapped(&items@[i as int], b, i as int));
                            assert(off == self.map_off(b, i + 1));
                        }
                    },
                    None => {
                        proof {
                            let j = choose|j: int|
                                0 <= j < 4 && !slot_ok(
                                    b,
                                    base as int,
                                    #[trigger] slot_off(b, start as int, wide, j),
                                    wide,
                                );
                            assert(!slot_ok(
                                b,
                                self.map_base(b),
                                slot_off(
                                    b,
                                    self.map_start(b, i as int),
                                    self.wide_at(b, i as int),
                                    j,
                                ),
                                self.wide_at(b, i as int),
                            ));
                        }
                        return None;
                    },
                }
            } else {
                assert(self.mapped(&items@[i as int], b, i as int));
            }
            assert(forall|k: int| 0 <= k < n && k != i ==> #[trigger] items@[k] == before[k]);
            i += 1;
        }
        Some((off + 1) / 2 * 2)
    }
}

impl TbTable {
    /// The part has its sizes and its maps.
    spec fn with_maps(&self, d: &PairsData, b: Seq<u8>, i: int) -> bool {
        self.measured(d, b, i) && self.mapped(d, b, i) && d.placed()
    }

    /// The part has its sparse index too.
    spec fn with_sparse(&self, d: &PairsData, b: Seq<u8>, i: int) -> bool {
        self.with_maps(d, b, i) && d.sparse_index == self.sparse_off(b, i)
    }

    /// The part has its block lengths too.
    spec fn with_blocks(&self, d: &PairsData, b: Seq<u8>, i: int) -> bool {
        self.with_sparse(d, b, i) && d.block_length == self.block_off(b, i)
    }

    /// Where the sparse indices are, and where they end.
    fn set_sparse(&self, bytes: &Vec<u8>, items: &mut Vec<PairsData>, start: u128) -> (r: u128)
        requires
            self.wf(),
            self.piece_count <= 7,
            old(items)@.len() == self.part_count(),
            self.part_count() <= 8,
            start == self.sparse_off(bytes@, 0),
            start <= 0xFFFF_FFFF_FFFF_FFFF,
            forall|i: int|
                0 <= i < old(items)@.len() ==> self.with_maps(&#[trigger] old(items)@[i], bytes@, i),
        ensures
            r == self.sparse_off(bytes@, self.part_count()),
            r <= start + 0x1000_0000_0000_0000_0000,
            final(items)@.len() == old(items)@.len(),
            forall|i: int|
                0 <= i < final(items)@.len() ==> self.with_sparse(
                    &#[trigger] final(items)@[i],
                    bytes@,
                    i,
                ),
    {
        let ghost b = bytes@;
        let ghost was = items@;
        let n = items.len();
        let mut off: u128 = start;
        let mut i: usize = 0;
        while i < n
            invariant
                self.wf(),
                self.piece_count <= 7,
                b == bytes@,
                i <= n <= 8,
                n == items@.len(),
                n == self.part_count(),
                was.len() == n,
                start == self.sparse_off(bytes@, 0),
            start <= 0xFFFF_FFFF_FFFF_FFFF,
                off == self.sparse_off(b, i as int),
                off <= start + 0x10_0000_0000_0000_0000 * i,
                forall|k: int| 0 <= k < n ==> self.with_maps(&#[trigger] was[k], b, k),
                forall|k: int| i <= k < n ==> #[trigger] items@[k] == was[k],
                forall|k: int| 0 <= k < i ==> self.with_sparse(&#[trigger] items@[k], b, k),
            decreases n - i,
        {
            let ghost before = items@;
            assert(items@[i as int] == was[i as int]);
            proof {
                self.lemma_measured(&was[i as int], b, i as int);
            }
            let size: u128 = items[i].sparse_index_size as u128;
            let slot = &mut items[i];
            slot.sparse_index = off;
            off = off + 6 * size;
            proof {
                self.lemma_alike(&was[i as int], &items@[i as int], b, i as int);
            }
            assert(forall|k: int| 0 <= k < n && k != i ==> #[trigger] items@[k] == before[k]);
            i += 1;
        }
        off
    }

    /// Where the block lengths are, and where they end.
    fn set_blocks(&self, bytes: &Vec<u8>, items: &mut Vec<PairsData>, start: u128) -> (r: u128)
        requires
            self.wf(),
            self.piece_count <= 7,
            old(items)@.len() == self.part_count(),
            self.part_count() <= 8,
            start == self.block_off(bytes@, 0),
            start <= 0x2000_0000_0000_0000_0000,
            forall|i: int|
                0 <= i < old(items)@.len() ==> self.with_sparse(&#[trigger] old(items)@[i], bytes@, i),
        ensures
            r == self.block_off(bytes@, self.part_count()),
            r <= start + 0x1000_0000_0000_0000_0000,
            final(items)@.len() == old(items)@.len(),
            forall|i: int|
                0 <= i < final(items)@.len() ==> self.with_blocks(
                    &#[trigger] final(items)@[i],
                    bytes@,
                    i,
                ),
    {
        let ghost b = bytes@;
        let ghost was = items@;
        let n = items.len();
        let mut off: u128 = start;
        let mut i: usize = 0;
        while i < n
            invariant
                self.wf(),
                self.piece_count <= 7,
                b == bytes@,
                i <= n <= 8,
                n == items@.len(),
                n == self.part_count(),
                was.len() == n,
                start == self.block_off(bytes@, 0),
            start <= 0x2000_0000_0000_0000_0000,
                off == self.block_off(b, i as int),
                off <= start + 0x10_0000_0000_0000_0000 * i,
                forall|k: int| 0 <= k < n ==> self.with_sparse(&#[trigger] was[k], b, k),
                forall|k: int| i <= k < n ==> #[trigger] items@[k] == was[k],
                forall|k: int| 0 <= k < i ==> self.with_blocks(&#[trigger] items@[k], b, k),
            decreases n - i,
        {
            let ghost before = items@;
            assert(items@[i as int] == was[i as int]);
            proof {
                self.lemma_measured(&was[i as int], b, i as int);
            }
            let size: u128 = items[i].block_length_size as u128;
            let slot = &mut items[i];
            slot.block_length = off;
            off = off + 2 * size;
            proof {
                self.lemma_alike(&was[i as int], &items@[i as int], b, i as int);
            }
            assert(forall|k: int| 0 <= k < n && k != i ==> #[trigger] items@[k] == before[k]);
            i += 1;
        }
        off
    }

    /// Where the values are, and where they end.
    fn set_data(&self, bytes: &Vec<u8>, items: &mut Vec<PairsData>, start: u128) -> (r: u128)
        requires
            self.wf(),
            self.piece_count <= 7,
            old(items)@.len() == self.part_count(),
            self.part_count() <= 8,
            start == self.data_end(bytes@, 0),
            start <= 0x3000_0000_0000_0000_0000,
            forall|i: int|
                0 <= i < old(items)@.len() ==> self.with_blocks(&#[trigger] old(items)@[i], bytes@, i),
        ensures
            r == self.data_end(bytes@, self.part_count()),
            r <= start + 0x100_0000_0000_0000_0000_0000_0000,
            final(items)@.len() == old(items)@.len(),
            forall|i: int|
                0 <= i < final(items)@.len() ==> self.is_part(
                    &#[trigger] final(items)@[i],
                    bytes@,
                    i,
                ),
    {
        let ghost b = bytes@;
        let ghost was = items@;
        let n = items.len();
        let mut off: u128 = start;
        let mut i: usize = 0;
        while i < n
            invariant
                self.wf(),
                self.piece_count <= 7,
                b == bytes@,
                i <= n <= 8,
                n == items@.len(),
                n == self.part_count(),
                was.len() == n,
                start == self.data_end(bytes@, 0),
            start <= 0x3000_0000_0000_0000_0000,
                off == self.data_end(b, i as int),
                off <= start + 0x10_0000_0000_0000_0000_0000_0000 * i,
                forall|k: int| 0 <= k < n ==> self.with_blocks(&#[trigger] was[k], b, k),
                forall|k: int| i <= k < n ==> #[trigger] items@[k] == was[k],
                forall|k: int| 0 <= k < i ==> self.is_part(&#[trigger] items@[k], b, k),
            decreases n - i,
        {
            let ghost before = items@;
            assert(items@[i as int] == was[i as int]);
            proof {
                self.lemma_measured(&was[i as int], b, i as int);
            }
            let blocks: u128 = items[i].blocks_num as u128;
            let size: u128 = items[i].sizeof_block as u128;
            assert(blocks * size <= 0xFFFF_FFFF * 0xFFFF_FFFF_FFFF_FFFF) by (nonlinear_arith)
                requires
                    blocks <= 0xFFFF_FFFF,
                    size <= 0xFFFF_FFFF_FFFF_FFFF,
            ;
            off = (off + 63) / 64 * 64;
            let slot = &mut items[i];
            slot.data = off;
            off = off + blocks * size;
            proof {
                self.lemma_alike(&was[i as int], &items@[i as int], b, i as int);
            }
            assert(forall|k: int| 0 <= k < n && k != i ==> #[trigger] items@[k] == before[k]);
            i += 1;
        }
        off
    }

    /// Lay out a file over its bytes. Nothing when the head does not agree with the name, or
    /// when a structure is not in the file.
    pub fn parse(&self, t: &IndexTables, bytes: Vec<u8>) -> (r: Option<Loaded>)
        requires
            self.wf(),
            t.wf(),
            bytes@.len() <= 0x7FFF_FFFF_FFFF_FFFF,
        ensures
            r is Some == self.accepts(bytes@),
            r is Some ==> (r->0).bytes@ == bytes@ && self.laid_out(&r->0),
    {
        let ghost b = bytes@;
        let len = bytes.len();
        if len < 5 {
            return None;
        }
        let head = bytes[4];
        if (head / 2 % 2 == 1) != self.has_pawns {
            return None;
        }
        if (head % 2 == 1) != (self.key != self.key2) {
            return None;
        }
        if self.piece_count > 7 {
            return None;
        }
        let sides = self.count_sides();
        let files: usize = if self.has_pawns {
            4
        } else {
            1
        };
        let front: usize = if self.has_both_pawns() {
            2 + self.piece_count
        } else {
            1 + self.piece_count
        };
        assert(0 <= files * front <= 4 * 9) by (nonlinear_arith)
            requires
                files <= 4,
                front <= 9,
        ;
        let end: usize = 5 + files * front;
        if end > len {
            return None;
        }
        assert(0 < sides * files <= 8) by (nonlinear_arith)
            requires
                1 <= sides <= 2,
                1 <= files <= 4,
        ;
        let n: usize = sides * files;
        let mut items = match self.read_fronts(t, &bytes, n) {
            Some(items) => items,
            None => {
                return None;
            },
        };
        let base = match self.read_sizes(&bytes, &mut items, ((end + 1) / 2 * 2) as u64) {
            Some(base) => base,
            None => {
                return None;
            },
        };
        let mut off: u64 = base;
        if self.kind == TbType::Dtz {
            match self.set_dtz_map(&bytes, &mut items, base) {
                Some(end) => {
                    off = end;
                },
                None => {
                    return None;
                },
            }
        } else {
            assert(forall|i: int|
                0 <= i < items@.len() ==> self.with_maps(&#[trigger] items@[i], b, i));
        }
        let sparse_end = self.set_sparse(&bytes, &mut items, off as u128);
        let block_end = self.set_blocks(&bytes, &mut items, sparse_end);
        let data_end = self.set_data(&bytes, &mut items, block_end);
        if data_end > len as u128 {
            return None;
        }
        Some(Loaded { bytes, items, map: base })
    }

    /// A file begins with the mark of its kind and can be laid out.
    pub open spec fn reads(&self, b: Seq<u8>) -> bool {
        b.len() >= 5 && b.subrange(0, 4) == self.kind.mark() && self.accepts(b)
    }

    /// Check the mark of a file's bytes and lay them out.
    pub fn read(&self, t: &IndexTables, bytes: Vec<u8>) -> (r: Option<Loaded>)
        requires
            self.wf(),
            t.wf(),
            bytes@.len() <= 0x7FFF_FFFF_FFFF_FFFF,
        ensures
            r is Some == self.reads(bytes@),
            r is Some ==> (r->0).bytes@ == bytes@ && self.laid_out(&r->0),
    {
        if bytes.len() < 5 {
            return None;
        }
        let magic = self.kind.magic();
        let ghost head = bytes@.subrange(0, 4);
        if bytes[0] != magic[0] || bytes[1] != magic[1] || bytes[2] != magic[2] || bytes[3]
            != magic[3] {
            assert(head[0] == bytes@[0] && head[1] == bytes@[1] && head[2] == bytes@[2] && head[3]
                == bytes@[3]);
            return None;
        }
        assert(head =~= self.kind.mark());
        self.parse(t, bytes)
    }

    /// The part for a side to move and a file of the leading pawn.
    pub open spec fn part_of(&self, stm: int, file: int) -> int {
        (if self.has_pawns {
            file
        } else {
            0
        }) * self.side_count() + stm % self.side_count()
    }

    /// The part for a side to move and a file of the leading pawn.
    pub fn pairs<'a>(&self, loaded: &'a Loaded, stm: usize, file: usize) -> (r: &'a PairsData)
        requires
            loaded.items@.len() == self.part_count(),
            file < 4,
        ensures
            0 <= self.part_of(stm as int, file as int) < self.part_count(),
            *r == loaded.items@[self.part_of(stm as int, file as int)],
    {
        let sides = self.count_sides();
        let side = stm % sides;
        let f: usize = if self.has_pawns {
            file
        } else {
            0
        };
        assert(f * sides + side < self.part_count() && f * sides <= 8) by (nonlinear_arith)
            requires
                self.part_count() == sides * self.file_count(),
                f < self.file_count(),
                self.file_count() <= 4,
                side < sides,
                sides <= 2,
        ;
        &loaded.items[f * sides + side]
    }
}

} // verus!
