//! Which tables there are: what a path setting names, which files are tables, and which tables
//! a set is made of.

use vstd::prelude::*;
use vstd::string::StringExecFns;
use crate::board::types::PieceType;
use crate::platform::syzygy::table;

verus! {

// ---------------------------------------------------------------------------
// Names
// ---------------------------------------------------------------------------

/// A letter that names a piece in a table's name.
pub open spec fn is_piece_letter(c: u8) -> bool {
    c == 75 || c == 81 || c == 82 || c == 66 || c == 78 || c == 80
}

/// One side of a table's name: piece letters, a king first.
pub open spec fn is_side_text(s: Seq<u8>) -> bool {
    &&& s.len() > 0
    &&& s[0] == 75
    &&& forall|i: int| 0 <= i < s.len() ==> is_piece_letter(#[trigger] s[i])
}

/// How many pieces a table's name is for.
pub open spec fn pieces_named(s: Seq<u8>) -> Option<int> {
    let v = table::first_at(s, 118, 0);
    if v < s.len() && is_side_text(s.subrange(0, v)) && is_side_text(
        s.subrange(v + 1, s.len() as int),
    ) {
        Some(s.len() - 1)
    } else {
        None
    }
}

/// Whether a part of a text is one side of a table's name.
fn side_text(s: &[u8], from: usize, to: usize) -> (r: bool)
    requires
        from <= to <= s@.len(),
    ensures
        r == is_side_text(s@.subrange(from as int, to as int)),
{
    let ghost t = s@.subrange(from as int, to as int);
    if from == to || s[from] != 75 {
        assert(t.len() > 0 ==> t[0] == s@[from as int]);
        return false;
    }
    assert(t[0] == 75);
    let mut i: usize = from;
    while i < to
        invariant
            from <= i <= to <= s@.len(),
            t == s@.subrange(from as int, to as int),
            forall|k: int| 0 <= k < i - from ==> is_piece_letter(#[trigger] t[k]),
        decreases to - i,
    {
        let c = s[i];
        assert(t[i - from] == c);
        if !(c == 75 || c == 81 || c == 82 || c == 66 || c == 78 || c == 80) {
            return false;
        }
        i += 1;
    }
    true
}

/// How many pieces the table is for whose name stands in the bytes before `end`.
fn count_named(s: &[u8], end: usize) -> (r: Option<u32>)
    requires
        end <= s@.len(),
        end <= 0x7fff_ffff,
    ensures
        r is Some == pieces_named(s@.subrange(0, end as int)) is Some,
        r is Some ==> r->0 == pieces_named(s@.subrange(0, end as int))->0,
{
    let ghost t = s@.subrange(0, end as int);
    let mut v: usize = 0;
    while v < end && s[v] != 118
        invariant
            v <= end <= s@.len(),
            t == s@.subrange(0, end as int),
            table::first_at(t, 118, 0) == table::first_at(t, 118, v as int),
        decreases end - v,
    {
        assert(t[v as int] == s@[v as int]);
        v += 1;
    }
    if v >= end {
        return None;
    }
    assert(t[v as int] == s@[v as int]);
    assert(t.subrange(0, v as int) =~= s@.subrange(0, v as int));
    assert(t.subrange(v + 1, end as int) =~= s@.subrange(v + 1, end as int));
    if side_text(s, 0, v) && side_text(s, v + 1, end) {
        Some((end - 1) as u32)
    } else {
        None
    }
}

/// How many pieces a table's name is for, such as 5 for `KRPvKR`. Nothing for another text.
pub fn cardinality_of(stem: &str) -> (r: Option<u32>)
    requires
        vstd::utf8::encode_utf8(stem@).len() <= 0x7fff_ffff,
    ensures
        r is Some == pieces_named(vstd::utf8::encode_utf8(stem@)) is Some,
        r is Some ==> r->0 == pieces_named(vstd::utf8::encode_utf8(stem@))->0,
{
    let s = stem.as_bytes();
    assert(s@.subrange(0, s@.len() as int) =~= s@);
    count_named(s, s.len())
}

/// A text names a table with a number of pieces exactly when it names one with counts of them.
pub proof fn law_names_have_pieces_and_counts(s: Seq<u8>)
    ensures
        pieces_named(s) is Some == table::is_code(s),
{
    let v = table::first_at(s, 118, 0);
    if v < s.len() {
        assert(v >= 0) by {
            lemma_first_at_from(s, 118, 0);
        }
        lemma_side_texts(table::side_of(s, 0));
        lemma_side_texts(table::side_of(s, 1));
    }
}

proof fn lemma_first_at_from(s: Seq<u8>, c: u8, i: int)
    ensures
        table::first_at(s, c, i) >= i,
    decreases s.len() - i,
{
    if i < s.len() && s[i] != c {
        lemma_first_at_from(s, c, i + 1);
    }
}

proof fn lemma_side_texts(s: Seq<u8>)
    ensures
        is_side_text(s) == table::side_ok(s),
{
    if is_side_text(s) {
        assert forall|i: int| 0 <= i < s.len() implies 65 <= #[trigger] s[i] <= 90
            && PieceType::of_letter(s[i]) is Some by {
            assert(is_piece_letter(s[i]));
        }
    }
    if table::side_ok(s) {
        assert forall|i: int| 0 <= i < s.len() implies is_piece_letter(#[trigger] s[i]) by {
            assert(65 <= s[i] <= 90 && PieceType::of_letter(s[i]) is Some);
        }
    }
}

/// Where a byte last stands in the first `n` of a text, or -1.
pub open spec fn last_at(s: Seq<u8>, c: u8, n: int) -> int
    decreases n,
{
    if n <= 0 {
        -1
    } else if s[n - 1] == c {
        n - 1
    } else {
        last_at(s, c, n - 1)
    }
}

/// What stands behind the last dot of a file's name is the extension of a table.
pub open spec fn table_ext(s: Seq<u8>, dot: int) -> bool {
    &&& s.len() == dot + 5
    &&& s[dot + 1] == 114
    &&& s[dot + 2] == 116
    &&& s[dot + 3] == 98
    &&& s[dot + 4] == 119 || s[dot + 4] == 122
}

/// How many pieces the table is for that a file holds, by the file's name.
pub open spec fn file_pieces(s: Seq<u8>) -> Option<int> {
    let dot = last_at(s, 46, s.len() as int);
    if dot >= 0 && table_ext(s, dot) {
        pieces_named(s.subrange(0, dot))
    } else {
        None
    }
}

/// How many pieces the table is for that a file holds.
pub fn file_cardinality(name: &str) -> (r: Option<u32>)
    requires
        vstd::utf8::encode_utf8(name@).len() <= 0x7fff_ffff,
    ensures
        r is Some == file_pieces(vstd::utf8::encode_utf8(name@)) is Some,
        r is Some ==> r->0 == file_pieces(vstd::utf8::encode_utf8(name@))->0,
{
    let s = name.as_bytes();
    let n = s.len();
    let mut end: usize = n;
    while end > 0 && s[end - 1] != 46
        invariant
            end <= n,
            n == s@.len(),
            last_at(s@, 46, n as int) == last_at(s@, 46, end as int),
        decreases end,
    {
        end -= 1;
    }
    if end == 0 {
        return None;
    }
    let dot = end - 1;
    if n - dot == 5 && s[dot + 1] == 114 && s[dot + 2] == 116 && s[dot + 3] == 98 && (s[dot + 4]
        == 119 || s[dot + 4] == 122) {
        count_named(s, dot)
    } else {
        None
    }
}

// ---------------------------------------------------------------------------
// A path setting
// ---------------------------------------------------------------------------

/// The pieces of the first `n` characters between separators that are not empty, and the piece
/// that has begun.
pub open spec fn dirs_upto(s: Seq<char>, sep: char, n: int) -> (Seq<Seq<char>>, Seq<char>)
    decreases n,
{
    if n <= 0 {
        (Seq::empty(), Seq::empty())
    } else {
        let (done, open) = dirs_upto(s, sep, n - 1);
        if s[n - 1] != sep {
            (done, open.push(s[n - 1]))
        } else if open.len() == 0 {
            (done, open)
        } else {
            (done.push(open), Seq::empty())
        }
    }
}

/// The directories that a path setting names. The empty text and `<empty>` name none.
pub open spec fn dirs_of(s: Seq<char>, sep: char) -> Seq<Seq<char>> {
    let (done, open) = dirs_upto(s, sep, s.len() as int);
    if s == "<empty>"@ {
        Seq::empty()
    } else if open.len() == 0 {
        done
    } else {
        done.push(open)
    }
}

/// The texts of a list.
pub open spec fn texts(v: Seq<String>) -> Seq<Seq<char>> {
    Seq::new(v.len(), |i: int| v[i]@)
}

/// Whether a text is `<empty>`.
fn is_empty_mark(s: &str) -> (r: bool)
    ensures
        r == (s@ == "<empty>"@),
{
    let mark = "<empty>";
    let n = s.unicode_len();
    if n != mark.unicode_len() {
        assert(s@.len() != mark@.len());
        return false;
    }
    let mut i: usize = 0;
    while i < n
        invariant
            i <= n,
            n == s@.len(),
            n == mark@.len(),
            mark@ == "<empty>"@,
            forall|k: int| 0 <= k < i ==> #[trigger] s@[k] == mark@[k],
        decreases n - i,
    {
        if s.get_char(i) != mark.get_char(i) {
            return false;
        }
        i += 1;
    }
    assert(s@ =~= mark@);
    true
}

/// The directories that a path setting names, between separators.
pub fn search_dirs(path: &str, sep: char) -> (r: Vec<String>)
    ensures
        texts(r@) == dirs_of(path@, sep),
{
    let mut done: Vec<String> = Vec::new();
    if is_empty_mark(path) {
        assert(texts(done@) =~= Seq::empty());
        return done;
    }
    let n = path.unicode_len();
    let mut open = String::new();
    let mut filled = false;
    let mut i: usize = 0;
    assert(texts(done@) =~= Seq::<Seq<char>>::empty());
    assert(open@ =~= Seq::<char>::empty());
    while i < n
        invariant
            i <= n,
            n == path@.len(),
            filled == (open@.len() > 0),
            (texts(done@), open@) == dirs_upto(path@, sep, i as int),
        decreases n - i,
    {
        let c = path.get_char(i);
        let ghost before = texts(done@);
        if c != sep {
            open.push(c);
            filled = true;
        } else if filled {
            let ghost piece = open@;
            done.push(open);
            open = String::new();
            filled = false;
            assert(texts(done@) =~= before.push(piece));
            assert(open@ =~= Seq::<char>::empty());
        }
        i += 1;
    }
    if filled {
        let ghost before = texts(done@);
        let ghost piece = open@;
        done.push(open);
        assert(texts(done@) =~= before.push(piece));
    }
    done
}

/// The limit with one more file found.
pub open spec fn noted(limit: int, name: Seq<u8>) -> int {
    match file_pieces(name) {
        Some(n) => if n > limit {
            n
        } else {
            limit
        },
        None => limit,
    }
}

/// What a path setting has led to.
#[derive(Clone, Debug)]
pub struct Tablebases {
    /// The directories that are searched.
    dirs: Vec<String>,
    /// The largest number of pieces that a table is for, 0 when there is none.
    max_cardinality: u32,
}

impl Tablebases {
    /// The directories that are searched.
    pub closed spec fn searched(&self) -> Seq<Seq<char>> {
        texts(self.dirs@)
    }

    /// The largest number of pieces that a table is for.
    pub closed spec fn limit(&self) -> int {
        self.max_cardinality as int
    }

    /// The directories of a path setting, with nothing found in them yet.
    pub fn new(path: &str, sep: char) -> (r: Tablebases)
        ensures
            r.searched() == dirs_of(path@, sep),
            r.limit() == 0,
    {
        Tablebases { dirs: search_dirs(path, sep), max_cardinality: 0 }
    }

    /// Take note of a file of one of the directories.
    pub fn note(&mut self, name: &str)
        requires
            vstd::utf8::encode_utf8(name@).len() <= 0x7fff_ffff,
        ensures
            final(self).searched() == old(self).searched(),
            final(self).limit() == noted(old(self).limit(), vstd::utf8::encode_utf8(name@)),
    {
        match file_cardinality(name) {
            Some(n) => {
                if n > self.max_cardinality {
                    self.max_cardinality = n;
                }
            },
            None => {},
        }
    }

    /// The largest number of pieces that a table is for.
    pub fn max_cardinality(&self) -> (r: u32)
        ensures
            r == self.limit(),
    {
        self.max_cardinality
    }

    /// The directories that are searched.
    pub fn dirs(&self) -> (r: &Vec<String>)
        ensures
            texts(r@) == self.searched(),
    {
        &self.dirs
    }

    /// Whether a table was found.
    pub fn is_available(&self) -> (r: bool)
        ensures
            r == (self.limit() > 0),
    {
        self.max_cardinality > 0
    }
}

impl Default for Tablebases {
    /// No directory and no table.
    fn default() -> (r: Tablebases)
        ensures
            r.searched().len() == 0,
            r.limit() == 0,
    {
        Tablebases { dirs: Vec::new(), max_cardinality: 0 }
    }
}

/// The order in which two files are found does not matter.
pub proof fn law_files_can_be_found_in_any_order(limit: int, a: Seq<u8>, b: Seq<u8>)
    ensures
        noted(noted(limit, a), b) == noted(noted(limit, b), a),
        noted(limit, a) >= limit,
{
}

// ---------------------------------------------------------------------------
// The tables of a set
// ---------------------------------------------------------------------------

/// The letter of a piece by its place from the queen down.
pub open spec fn letter(i: int) -> u8 {
    if i == 0 {
        81
    } else if i == 1 {
        82
    } else if i == 2 {
        66
    } else if i == 3 {
        78
    } else {
        80
    }
}

/// The pieces of a side besides its king: `k` of them, from the queen down.
pub open spec fn is_side(s: Seq<u8>, k: int) -> bool {
    &&& s.len() == k
    &&& forall|i: int| 0 <= i < k ==> #[trigger] s[i] < 5
    &&& forall|i: int, j: int| 0 <= i < j < k ==> #[trigger] s[i] <= #[trigger] s[j]
}

/// One list of numbers comes before another.
pub open spec fn before(a: Seq<u8>, b: Seq<u8>, i: int) -> bool
    decreases a.len() - i,
{
    if i >= b.len() {
        false
    } else if i >= a.len() {
        true
    } else if a[i] != b[i] {
        a[i] < b[i]
    } else {
        before(a, b, i + 1)
    }
}

/// The letters of a side.
pub open spec fn lettered(s: Seq<u8>) -> Seq<u8> {
    Seq::new(s.len(), |i: int| letter(s[i] as int))
}

/// The name of a table.
pub open spec fn stem_of(w: Seq<u8>, b: Seq<u8>) -> Seq<u8> {
    seq![75u8] + lettered(w) + seq![118u8, 75u8] + lettered(b)
}

/// Two sides make a table of `extra` pieces besides the kings: the side with more pieces comes
/// first, and of two with as many the one whose pieces come first from the queen down.
pub open spec fn makes_table(w: Seq<u8>, b: Seq<u8>, extra: int) -> bool {
    &&& is_side(w, w.len() as int)
    &&& is_side(b, b.len() as int)
    &&& w.len() + b.len() == extra
    &&& w.len() > b.len() || (w.len() == b.len() && !before(b, w, 0))
}

/// A text is the name of a table of the set.
pub open spec fn in_set(t: Seq<u8>, extra: int) -> bool {
    exists|w: Seq<u8>, b: Seq<u8>| #[trigger] makes_table(w, b, extra) && t == stem_of(w, b)
}

/// A list holds a text.
pub open spec fn holds(list: Seq<Vec<u8>>, s: Seq<u8>) -> bool {
    exists|i: int| 0 <= i < list.len() && #[trigger] list[i]@ == s
}

/// A longer list holds what the shorter did.
proof fn lemma_holds(a: Seq<Vec<u8>>, b: Seq<Vec<u8>>, s: Seq<u8>)
    requires
        holds(a, s),
        a.len() <= b.len(),
        forall|j: int| 0 <= j < a.len() ==> #[trigger] b[j] == a[j],
    ensures
        holds(b, s),
{
    let m = choose|m: int| 0 <= m < a.len() && #[trigger] a[m]@ == s;
    assert(b[m] == a[m]);
}

/// Every way to put one more piece behind a side, from `start` on.
fn extend(out: &mut Vec<Vec<u8>>, base: &Vec<u8>, start: u8, Ghost(k): Ghost<int>)
    requires
        k > 0,
        is_side(base@, k - 1),
        k > 1 ==> start == base@[k - 2],
        start <= 5,
        forall|j: int| 0 <= j < old(out)@.len() ==> is_side(#[trigger] old(out)@[j]@, k),
    ensures
        old(out)@.len() <= final(out)@.len(),
        forall|j: int| 0 <= j < old(out)@.len() ==> #[trigger] final(out)@[j] == old(out)@[j],
        forall|j: int| 0 <= j < final(out)@.len() ==> is_side(#[trigger] final(out)@[j]@, k),
        forall|q: u8| start <= q < 5 ==> holds(final(out)@, #[trigger] base@.push(q)),
{
    let mut p: u8 = start;
    while p < 5
        invariant
            k > 0,
            is_side(base@, k - 1),
            k > 1 ==> start == base@[k - 2],
            start <= p <= 5,
            old(out)@.len() <= out@.len(),
            forall|j: int| 0 <= j < old(out)@.len() ==> #[trigger] out@[j] == old(out)@[j],
            forall|j: int| 0 <= j < out@.len() ==> is_side(#[trigger] out@[j]@, k),
            forall|q: u8| start <= q < p ==> holds(out@, #[trigger] base@.push(q)),
        decreases 5 - p,
    {
        let mut s = base.clone();
        assert(s@ =~= base@);
        s.push(p);
        assert(s@ == base@.push(p));
        assert(is_side(s@, k));
        let ghost prev = out@;
        out.push(s);
        proof {
            assert(out@[prev.len() as int]@ == base@.push(p));
            assert forall|q: u8| start <= q < p + 1 implies holds(out@, #[trigger] base@.push(q)) by {
                if q < p {
                    lemma_holds(prev, out@, base@.push(q));
                }
            }
        }
        p += 1;
    }
}

/// Every side of `k` pieces.
fn sides(k: usize) -> (r: Vec<Vec<u8>>)
    ensures
        forall|i: int| 0 <= i < r@.len() ==> is_side(#[trigger] r@[i]@, k as int),
        forall|s: Seq<u8>| #[trigger] is_side(s, k as int) ==> holds(r@, s),
    decreases k,
{
    let mut out: Vec<Vec<u8>> = Vec::new();
    if k == 0 {
        out.push(Vec::new());
        assert forall|s: Seq<u8>| #[trigger] is_side(s, 0) implies holds(out@, s) by {
            assert(out@[0]@ =~= s);
        }
        return out;
    }
    let rest = sides(k - 1);
    let mut i: usize = 0;
    while i < rest.len()
        invariant
            k > 0,
            i <= rest@.len(),
            forall|j: int| 0 <= j < rest@.len() ==> is_side(#[trigger] rest@[j]@, k - 1),
            forall|j: int| 0 <= j < out@.len() ==> is_side(#[trigger] out@[j]@, k as int),
            forall|j: int, p: u8|
                0 <= j < i && p < 5 && (k > 1 ==> rest@[j]@[k - 2] <= p) ==> holds(
                    out@,
                    #[trigger] rest@[j]@.push(p),
                ),
        decreases rest@.len() - i,
    {
        let start: u8 = if k > 1 {
            rest[i][k - 2]
        } else {
            0
        };
        let ghost prev = out@;
        assert(is_side(rest@[i as int]@, k - 1));
        extend(&mut out, &rest[i], start, Ghost(k as int));
        proof {
            assert forall|j: int, p: u8|
                0 <= j < i + 1 && p < 5 && (k > 1 ==> rest@[j]@[k - 2] <= p) implies holds(
                out@,
                #[trigger] rest@[j]@.push(p),
            ) by {
                if j < i {
                    lemma_holds(prev, out@, rest@[j]@.push(p));
                } else {
                    assert(rest@[i as int]@.push(p) == rest@[j]@.push(p));
                }
            }
        }
        i += 1;
    }
    assert forall|s: Seq<u8>| #[trigger] is_side(s, k as int) implies holds(out@, s) by {
        let d = s.drop_last();
        assert(is_side(d, k - 1));
        let j = choose|j: int| 0 <= j < rest@.len() && #[trigger] rest@[j]@ == d;
        let p = s.last();
        assert(d.push(p) =~= s);
        if k > 1 {
            assert(s[k - 2] <= s[k - 1]);
        }
        assert(rest@[j]@.push(p) == s);
    }
    out
}

// ---------------------------------------------------------------------------
// Order
// ---------------------------------------------------------------------------

proof fn lemma_before_total(a: Seq<u8>, b: Seq<u8>, i: int)
    requires
        0 <= i <= a.len(),
        i <= b.len(),
        forall|k: int| 0 <= k < i ==> #[trigger] a[k] == b[k],
    ensures
        before(a, b, i) || before(b, a, i) || a == b,
        !(before(a, b, i) && before(b, a, i)),
        a == b ==> !before(a, b, i),
    decreases a.len() - i,
{
    if i < a.len() && i < b.len() {
        if a[i] == b[i] {
            lemma_before_total(a, b, i + 1);
        }
    } else if i == a.len() && i == b.len() {
        assert(a =~= b);
    }
}

proof fn lemma_before_transitive(a: Seq<u8>, b: Seq<u8>, c: Seq<u8>, i: int)
    requires
        0 <= i,
        before(a, b, i),
        before(b, c, i),
    ensures
        before(a, c, i),
    decreases b.len() - i,
{
    if i < a.len() && i < b.len() && i < c.len() && a[i] == b[i] && b[i] == c[i] {
        lemma_before_transitive(a, b, c, i + 1);
    }
}

/// The texts of a list come in order, none twice.
pub open spec fn in_sequence(list: Seq<Vec<u8>>) -> bool {
    forall|i: int, j: int|
        0 <= i < j < list.len() ==> before((#[trigger] list[i])@, (#[trigger] list[j])@, 0)
}

/// Whether one list of numbers comes before another.
fn comes_before(a: &Vec<u8>, b: &Vec<u8>) -> (r: bool)
    ensures
        r == before(a@, b@, 0),
{
    let mut i: usize = 0;
    while i < a.len() && i < b.len() && a[i] == b[i]
        invariant
            i <= a@.len(),
            i <= b@.len(),
            before(a@, b@, 0) == before(a@, b@, i as int),
        decreases a@.len() - i,
    {
        i += 1;
    }
    if i >= b.len() {
        false
    } else if i >= a.len() {
        true
    } else {
        a[i] < b[i]
    }
}

/// Put a text in its place, unless it is there.
fn put_in_sequence(list: &mut Vec<Vec<u8>>, item: Vec<u8>)
    requires
        in_sequence(old(list)@),
    ensures
        in_sequence(final(list)@),
        forall|s: Seq<u8>| #[trigger]
            holds(final(list)@, s) == (holds(old(list)@, s) || s == item@),
{
    let mut k: usize = 0;
    while k < list.len() && comes_before(&list[k], &item)
        invariant
            k <= list@.len(),
            list@ == old(list)@,
            forall|j: int| 0 <= j < k ==> before((#[trigger] list@[j])@, item@, 0),
        decreases list@.len() - k,
    {
        k += 1;
    }
    let ghost was = list@;
    if k < list.len() && !comes_before(&item, &list[k]) {
        proof {
            lemma_before_total(was[k as int]@, item@, 0);
            assert(was[k as int]@ == item@);
        }
        return;
    }
    let ghost t = item@;
    let ghost v = item;
    list.insert(k, item);
    proof {
        assert(list@ =~= was.insert(k as int, v));
        assert forall|i: int, j: int| 0 <= i < j < list@.len() implies before(
            (#[trigger] list@[i])@,
            (#[trigger] list@[j])@,
            0,
        ) by {
            if j > k {
                assert(list@[j] == was[j - 1]);
                if i == k {
                    if j - 1 > k {
                        assert(before(was[k as int]@, was[j - 1]@, 0));
                        lemma_before_transitive(t, was[k as int]@, was[j - 1]@, 0);
                    }
                } else if i > k {
                    assert(list@[i] == was[i - 1]);
                    assert(before(was[i - 1]@, was[j - 1]@, 0));
                } else {
                    assert(list@[i] == was[i]);
                    assert(before(was[i]@, was[j - 1]@, 0));
                }
            } else {
                assert(list@[i] == was[i]);
                if j < k {
                    assert(list@[j] == was[j]);
                    assert(before(was[i]@, was[j]@, 0));
                }
            }
        }
        assert forall|s: Seq<u8>| #[trigger] holds(list@, s) == (holds(was, s) || s == t) by {
            if holds(list@, s) {
                let i = choose|i: int| 0 <= i < list@.len() && #[trigger] list@[i]@ == s;
                if i < k {
                    assert(was[i]@ == s);
                } else if i > k {
                    assert(was[i - 1]@ == s);
                }
            }
            if holds(was, s) {
                let i = choose|i: int| 0 <= i < was.len() && #[trigger] was[i]@ == s;
                if i < k {
                    assert(list@[i]@ == s);
                } else {
                    assert(list@[i + 1]@ == s);
                }
            }
            if s == t {
                assert(list@[k as int]@ == s);
            }
        }
    }
}

/// The letters of a side, behind what is there.
fn push_letters(out: &mut Vec<u8>, s: &Vec<u8>)
    ensures
        final(out)@ == old(out)@ + lettered(s@),
{
    let mut i: usize = 0;
    assert(out@ =~= old(out)@ + lettered(s@).subrange(0, 0));
    while i < s.len()
        invariant
            i <= s@.len(),
            out@ == old(out)@ + lettered(s@).subrange(0, i as int),
        decreases s@.len() - i,
    {
        let c: u8 = match s[i] {
            0 => 81,
            1 => 82,
            2 => 66,
            3 => 78,
            _ => 80,
        };
        out.push(c);
        i += 1;
        assert(lettered(s@).subrange(0, i as int) =~= lettered(s@).subrange(0, i - 1).push(c));
        assert(out@ =~= old(out)@ + lettered(s@).subrange(0, i as int));
    }
    assert(lettered(s@).subrange(0, i as int) =~= lettered(s@));
}

/// The name of the table that two sides make.
fn write_stem(w: &Vec<u8>, b: &Vec<u8>) -> (r: Vec<u8>)
    ensures
        r@ == stem_of(w@, b@),
{
    let mut out: Vec<u8> = Vec::new();
    out.push(75);
    assert(out@ =~= seq![75u8]);
    push_letters(&mut out, w);
    let ghost first = out@;
    out.push(118);
    out.push(75);
    assert(out@ =~= first + seq![118u8, 75u8]);
    push_letters(&mut out, b);
    out
}

/// A text is the name of a table of the set whose first side has at least `n` pieces.
spec fn in_set_from(t: Seq<u8>, extra: int, n: int) -> bool {
    exists|w: Seq<u8>, b: Seq<u8>| #[trigger]
        makes_table(w, b, extra) && w.len() >= n && t == stem_of(w, b)
}

/// Put the names of the tables whose first side is `w` in their places.
fn add_tables_of(list: &mut Vec<Vec<u8>>, w: &Vec<u8>, black: &Vec<Vec<u8>>, Ghost(extra): Ghost<int>)
    requires
        in_sequence(old(list)@),
        is_side(w@, w@.len() as int),
        2 * w@.len() >= extra,
        extra >= w@.len(),
        forall|i: int| 0 <= i < black@.len() ==> is_side(#[trigger] black@[i]@, extra - w@.len()),
        forall|s: Seq<u8>| #[trigger] is_side(s, extra - w@.len()) ==> holds(black@, s),
    ensures
        in_sequence(final(list)@),
        forall|t: Seq<u8>| #[trigger]
            holds(final(list)@, t) == (holds(old(list)@, t) || exists|b: Seq<u8>| #[trigger]
                makes_table(w@, b, extra) && t == stem_of(w@, b)),
{
    let mut i: usize = 0;
    while i < black.len()
        invariant
            i <= black@.len(),
            in_sequence(list@),
            is_side(w@, w@.len() as int),
            2 * w@.len() >= extra,
            forall|k: int|
                0 <= k < black@.len() ==> is_side(#[trigger] black@[k]@, extra - w@.len()),
            forall|t: Seq<u8>| #[trigger]
                holds(list@, t) ==> holds(old(list)@, t) || exists|b: Seq<u8>| #[trigger]
                    makes_table(w@, b, extra) && t == stem_of(w@, b),
            forall|t: Seq<u8>| #[trigger] holds(old(list)@, t) ==> holds(list@, t),
            forall|k: int|
                0 <= k < i && makes_table(w@, (#[trigger] black@[k])@, extra) ==> holds(
                    list@,
                    stem_of(w@, black@[k]@),
                ),
        decreases black@.len() - i,
    {
        let b = &black[i];
        assert(is_side(black@[i as int]@, extra - w@.len()));
        if w.len() > b.len() || !comes_before(b, w) {
            assert(makes_table(w@, b@, extra));
            let name = write_stem(w, b);
            put_in_sequence(list, name);
        }
        i += 1;
    }
    assert forall|t: Seq<u8>| (exists|b: Seq<u8>| #[trigger]
        makes_table(w@, b, extra) && t == stem_of(w@, b)) implies #[trigger] holds(list@, t) by {
        let b = choose|b: Seq<u8>| #[trigger] makes_table(w@, b, extra) && t == stem_of(w@, b);
        assert(is_side(b, extra - w@.len()));
        let k = choose|k: int| 0 <= k < black@.len() && #[trigger] black@[k]@ == b;
        assert(makes_table(w@, black@[k]@, extra));
    }
}

/// Put the names of the tables whose first side has `n` pieces in their places.
fn add_tables(list: &mut Vec<Vec<u8>>, n: usize, extra: usize)
    requires
        in_sequence(old(list)@),
        n <= extra,
        2 * n >= extra,
        forall|t: Seq<u8>| #[trigger]
            holds(old(list)@, t) == in_set_from(t, extra as int, n + 1),
    ensures
        in_sequence(final(list)@),
        forall|t: Seq<u8>| #[trigger] holds(final(list)@, t) == in_set_from(t, extra as int, n as int),
{
    let white = sides(n);
    let black = sides(extra - n);
    let ghost was = list@;
    let mut i: usize = 0;
    while i < white.len()
        invariant
            i <= white@.len(),
            n <= extra,
            2 * n >= extra,
            in_sequence(list@),
            forall|k: int| 0 <= k < white@.len() ==> is_side(#[trigger] white@[k]@, n as int),
            forall|k: int|
                0 <= k < black@.len() ==> is_side(#[trigger] black@[k]@, extra - n),
            forall|s: Seq<u8>| #[trigger] is_side(s, extra - n) ==> holds(black@, s),
            forall|t: Seq<u8>| #[trigger] holds(was, t) == in_set_from(t, extra as int, n + 1),
            forall|t: Seq<u8>| #[trigger] holds(was, t) ==> holds(list@, t),
            forall|t: Seq<u8>| #[trigger] holds(list@, t) ==> in_set_from(t, extra as int, n as int),
            forall|k: int, b: Seq<u8>|
                0 <= k < i && #[trigger] makes_table(white@[k]@, b, extra as int) ==> holds(
                    list@,
                    stem_of(white@[k]@, b),
                ),
        decreases white@.len() - i,
    {
        let ghost prev = list@;
        assert(is_side(white@[i as int]@, n as int));
        add_tables_of(list, &white[i], &black, Ghost(extra as int));
        proof {
            let w = white@[i as int]@;
            assert forall|t: Seq<u8>| #[trigger] holds(list@, t) implies in_set_from(
                t,
                extra as int,
                n as int,
            ) by {
                if !holds(prev, t) {
                    let b = choose|b: Seq<u8>| #[trigger]
                        makes_table(w, b, extra as int) && t == stem_of(w, b);
                    assert(makes_table(w, b, extra as int) && w.len() >= n && t == stem_of(w, b));
                }
            }
            assert forall|t: Seq<u8>| #[trigger] holds(was, t) implies holds(list@, t) by {
                assert(holds(prev, t));
            }
            assert forall|k: int, b: Seq<u8>|
                0 <= k < i + 1 && #[trigger] makes_table(white@[k]@, b, extra as int) implies holds(
                list@,
                stem_of(white@[k]@, b),
            ) by {
                if k < i {
                    assert(holds(prev, stem_of(white@[k]@, b)));
                }
            }
        }
        i += 1;
    }
    assert forall|t: Seq<u8>| in_set_from(t, extra as int, n as int) implies #[trigger] holds(
        list@,
        t,
    ) by {
        let (w, b) = choose|w: Seq<u8>, b: Seq<u8>| #[trigger]
            makes_table(w, b, extra as int) && w.len() >= n && t == stem_of(w, b);
        if w.len() == n {
            assert(is_side(w, n as int));
            let k = choose|k: int| 0 <= k < white@.len() && #[trigger] white@[k]@ == w;
            assert(makes_table(white@[k]@, b, extra as int));
        } else {
            assert(makes_table(w, b, extra as int) && w.len() >= n + 1 && t == stem_of(w, b));
            assert(holds(was, t));
        }
    }
}

/// The characters of a text of bytes.
pub open spec fn characters(s: Seq<u8>) -> Seq<char> {
    Seq::new(s.len(), |i: int| s[i] as char)
}

/// The names are those of a list, in its order.
pub open spec fn written(v: Seq<String>, list: Seq<Vec<u8>>) -> bool {
    &&& v.len() == list.len()
    &&& forall|i: int| 0 <= i < v.len() ==> (#[trigger] v[i])@ == characters(list[i]@)
}

/// Write a text of bytes as characters.
fn to_text(s: &Vec<u8>) -> (r: String)
    ensures
        r@ == characters(s@),
{
    let mut out = String::new();
    let mut i: usize = 0;
    assert(out@ =~= characters(s@).subrange(0, 0));
    while i < s.len()
        invariant
            i <= s@.len(),
            out@ == characters(s@).subrange(0, i as int),
        decreases s@.len() - i,
    {
        out.push(s[i] as char);
        i += 1;
        assert(out@ =~= characters(s@).subrange(0, i as int));
    }
    assert(characters(s@).subrange(0, i as int) =~= characters(s@));
    out
}

/// The names of the tables for `n` pieces, kings with them, in the order of the names.
pub fn stems_for(n: u32) -> (r: Vec<String>)
    ensures
        exists|list: Seq<Vec<u8>>|
            {
                &&& #[trigger] written(r@, list)
                &&& in_sequence(list)
                &&& forall|t: Seq<u8>| #[trigger]
                    holds(list, t) == in_set(
                        t,
                        if n < 2 {
                            0
                        } else {
                            n - 2
                        },
                    )
            },
{
    let extra: usize = if n < 2 {
        0
    } else {
        (n - 2) as usize
    };
    let mut list: Vec<Vec<u8>> = Vec::new();
    let mut w: usize = extra + 1;
    while w > 0 && 2 * (w as u128 - 1) >= extra as u128
        invariant
            w <= extra + 1,
            extra < 0x1_0000_0000,
            2 * w >= extra,
            in_sequence(list@),
            forall|t: Seq<u8>| #[trigger] holds(list@, t) == in_set_from(t, extra as int, w as int),
        decreases w,
    {
        w -= 1;
        add_tables(&mut list, w, extra);
    }
    proof {
        assert forall|t: Seq<u8>| #[trigger] holds(list@, t) == in_set(t, extra as int) by {
            if in_set(t, extra as int) {
                let (a, b) = choose|a: Seq<u8>, b: Seq<u8>| #[trigger]
                    makes_table(a, b, extra as int) && t == stem_of(a, b);
                assert(a.len() >= w);
                assert(makes_table(a, b, extra as int) && a.len() >= w && t == stem_of(a, b));
            }
        }
    }
    to_texts(&list)
}

// ---------------------------------------------------------------------------
// The tables of a directory
// ---------------------------------------------------------------------------

/// What stands behind the last dot of a file's name is the extension of a table of verdicts.
pub open spec fn verdict_ext(s: Seq<u8>, dot: int) -> bool {
    table_ext(s, dot) && s[dot + 4] == 119
}

/// The file is a table of verdicts with the given name.
pub open spec fn verdicts_of(file: Seq<u8>, stem: Seq<u8>) -> bool {
    let dot = last_at(file, 46, file.len() as int);
    &&& dot >= 0
    &&& verdict_ext(file, dot)
    &&& stem == file.subrange(0, dot)
    &&& pieces_named(stem) is Some
}

/// One of the first `n` files is a table of verdicts with the given name.
pub open spec fn listed(names: Seq<String>, n: int, stem: Seq<u8>) -> bool {
    exists|i: int|
        0 <= i < n && verdicts_of(vstd::utf8::encode_utf8((#[trigger] names[i])@), stem)
}

/// The name of the table of verdicts that a file holds.
fn verdict_stem(name: &str) -> (r: Option<Vec<u8>>)
    requires
        vstd::utf8::encode_utf8(name@).len() <= 0x7fff_ffff,
    ensures
        match r {
            Some(stem) => verdicts_of(vstd::utf8::encode_utf8(name@), stem@),
            None => forall|stem: Seq<u8>|
                !#[trigger] verdicts_of(vstd::utf8::encode_utf8(name@), stem),
        },
{
    let s = name.as_bytes();
    let n = s.len();
    let mut end: usize = n;
    while end > 0 && s[end - 1] != 46
        invariant
            end <= n,
            n == s@.len(),
            last_at(s@, 46, n as int) == last_at(s@, 46, end as int),
        decreases end,
    {
        end -= 1;
    }
    if end == 0 {
        return None;
    }
    let dot = end - 1;
    if n - dot != 5 || s[dot + 1] != 114 || s[dot + 2] != 116 || s[dot + 3] != 98 || s[dot + 4]
        != 119 {
        return None;
    }
    if count_named(s, dot).is_none() {
        return None;
    }
    let mut stem: Vec<u8> = Vec::new();
    let mut i: usize = 0;
    while i < dot
        invariant
            i <= dot < s@.len(),
            stem@ == s@.subrange(0, i as int),
        decreases dot - i,
    {
        stem.push(s[i]);
        i += 1;
        assert(stem@ =~= s@.subrange(0, i as int));
    }
    Some(stem)
}

/// The names of the tables of verdicts among the files of a directory, in their order.
pub fn wdl_stems(names: &Vec<String>) -> (r: Vec<String>)
    requires
        forall|i: int|
            0 <= i < names@.len() ==> vstd::utf8::encode_utf8((#[trigger] names@[i])@).len()
                <= 0x7fff_ffff,
    ensures
        exists|list: Seq<Vec<u8>>|
            {
                &&& #[trigger] written(r@, list)
                &&& in_sequence(list)
                &&& forall|stem: Seq<u8>| #[trigger]
                    holds(list, stem) == listed(names@, names@.len() as int, stem)
            },
{
    let mut list: Vec<Vec<u8>> = Vec::new();
    let mut i: usize = 0;
    while i < names.len()
        invariant
            i <= names@.len(),
            forall|k: int|
                0 <= k < names@.len() ==> vstd::utf8::encode_utf8((#[trigger] names@[k])@).len()
                    <= 0x7fff_ffff,
            in_sequence(list@),
            forall|stem: Seq<u8>| #[trigger] holds(list@, stem) == listed(names@, i as int, stem),
        decreases names@.len() - i,
    {
        let ghost was = list@;
        let ghost file = vstd::utf8::encode_utf8(names@[i as int]@);
        let found = verdict_stem(names[i].as_str());
        let ghost seen = found;
        if let Some(stem) = found {
            put_in_sequence(&mut list, stem);
        }
        proof {
            assert forall|stem: Seq<u8>| #[trigger] holds(list@, stem) == listed(
                names@,
                i + 1,
                stem,
            ) by {
                assert(holds(was, stem) == listed(names@, i as int, stem));
                assert(listed(names@, i + 1, stem) == (listed(names@, i as int, stem)
                    || verdicts_of(file, stem))) by {
                    if listed(names@, i as int, stem) {
                        let k = choose|k: int|
                            0 <= k < i && verdicts_of(
                                vstd::utf8::encode_utf8((#[trigger] names@[k])@),
                                stem,
                            );
                        assert(verdicts_of(vstd::utf8::encode_utf8(names@[k]@), stem));
                    }
                }
            }
        }
        i += 1;
    }
    to_texts(&list)
}

/// Write texts of bytes as characters.
fn to_texts(list: &Vec<Vec<u8>>) -> (r: Vec<String>)
    ensures
        written(r@, list@),
{
    let mut out: Vec<String> = Vec::new();
    let mut i: usize = 0;
    while i < list.len()
        invariant
            i <= list@.len(),
            out@.len() == i,
            forall|k: int| 0 <= k < i ==> (#[trigger] out@[k])@ == characters(list@[k]@),
        decreases list@.len() - i,
    {
        out.push(to_text(&list[i]));
        i += 1;
    }
    out
}

} // verus!
