//! Lists of processor numbers as text: `0,2,4-7`.

use vstd::prelude::*;
use crate::board::text;

verus! {

/// The most numbers that one range may stand for.
pub const MAX_INDICES: usize = 1_048_576;

// ---------------------------------------------------------------------------
// Splitting
// ---------------------------------------------------------------------------

/// The pieces of the first `n` bytes between separators.
pub open spec fn pieces_upto(s: Seq<u8>, sep: u8, n: int) -> Seq<Seq<u8>>
    decreases n,
{
    if n <= 0 {
        seq![Seq::empty()]
    } else {
        let p = pieces_upto(s, sep, n - 1);
        if s[n - 1] == sep {
            p.push(Seq::empty())
        } else {
            p.update(p.len() - 1, p.last().push(s[n - 1]))
        }
    }
}

/// The pieces of a text between separators.
pub open spec fn pieces(s: Seq<u8>, sep: u8) -> Seq<Seq<u8>> {
    pieces_upto(s, sep, s.len() as int)
}

pub proof fn lemma_pieces(s: Seq<u8>, sep: u8, n: int)
    ensures
        pieces_upto(s, sep, n).len() >= 1,
    decreases n,
{
    if n > 0 {
        lemma_pieces(s, sep, n - 1);
    }
}

/// The contents of a vector of vectors.
pub open spec fn deep(v: Seq<Vec<u8>>) -> Seq<Seq<u8>> {
    Seq::new(v.len(), |i: int| v[i]@)
}

/// Split a text at every separator.
pub fn split(s: &[u8], sep: u8) -> (r: Vec<Vec<u8>>)
    ensures
        deep(r@) == pieces(s@, sep),
        r@.len() >= 1,
{
    let mut done: Vec<Vec<u8>> = Vec::new();
    let mut last: Vec<u8> = Vec::new();
    let mut i: usize = 0;
    assert(deep(done@).push(last@) =~= pieces_upto(s@, sep, 0));
    while i < s.len()
        invariant
            i <= s@.len(),
            deep(done@).push(last@) == pieces_upto(s@, sep, i as int),
        decreases s@.len() - i,
    {
        let c = s[i];
        let ghost p = pieces_upto(s@, sep, i as int);
        let ghost before = deep(done@);
        if c == sep {
            let ghost piece = last@;
            done.push(last);
            last = Vec::new();
            assert(deep(done@) =~= before.push(piece));
            assert(deep(done@).push(last@) =~= p.push(Seq::empty()));
        } else {
            last.push(c);
            assert(deep(done@).push(last@) =~= p.update(p.len() - 1, p.last().push(c)));
        }
        i += 1;
    }
    let ghost before = deep(done@);
    let ghost piece = last@;
    done.push(last);
    assert(deep(done@) =~= before.push(piece));
    done
}

// ---------------------------------------------------------------------------
// Numbers
// ---------------------------------------------------------------------------

/// What follows an optional plus sign.
pub open spec fn unsigned_part(s: Seq<u8>) -> Seq<u8> {
    if s.len() > 0 && s[0] == 43 {
        s.subrange(1, s.len() as int)
    } else {
        s
    }
}

/// The number that a text writes, if it writes one that fits a `usize`.
pub open spec fn number(s: Seq<u8>) -> Option<int> {
    let d = unsigned_part(s);
    if d.len() > 0 && text::all_digits(d) && text::digits_value(d) <= usize::MAX {
        Some(text::digits_value(d))
    } else {
        None
    }
}

/// More digits never make a number smaller.
proof fn lemma_grows(d: Seq<u8>, i: int)
    requires
        0 <= i <= d.len(),
        text::all_digits(d),
    ensures
        0 <= text::digits_value(d.subrange(0, i)) <= text::digits_value(d),
    decreases d.len(),
{
    if i < d.len() {
        let e = d.drop_last();
        assert forall|k: int| 0 <= k < e.len() implies text::is_digit(#[trigger] e[k]) by {
            assert(d[k] == e[k]);
        }
        lemma_grows(e, i);
        assert(e.subrange(0, i) =~= d.subrange(0, i));
        assert(text::is_digit(d[d.len() - 1]));
    } else {
        assert(d.subrange(0, i) =~= d);
        if d.len() > 0 {
            let e = d.drop_last();
            assert forall|k: int| 0 <= k < e.len() implies text::is_digit(#[trigger] e[k]) by {
                assert(d[k] == e[k]);
            }
            lemma_grows(e, e.len() as int);
            assert(e.subrange(0, e.len() as int) =~= e);
            assert(text::is_digit(d[d.len() - 1]));
        }
    }
}

/// Read a number.
pub fn parse_number(s: &[u8]) -> (r: Option<usize>)
    ensures
        (match r {
            Some(v) => number(s@) == Some(v as int),
            None => number(s@).is_none(),
        }),
{
    let n: usize = s.len();
    let start: usize = if n > 0 && s[0] == 43 {
        1
    } else {
        0
    };
    let ghost d = unsigned_part(s@);
    assert(d =~= s@.subrange(start as int, n as int));
    if start >= n {
        return None;
    }
    let mut value: usize = 0;
    let mut i: usize = start;
    assert(d.subrange(0, 0) =~= Seq::<u8>::empty());
    while i < n
        invariant
            start <= i <= n,
            start < n,
            n == s@.len(),
            d == s@.subrange(start as int, n as int),
            d == unsigned_part(s@),
            text::all_digits(d.subrange(0, i - start)),
            value == text::digits_value(d.subrange(0, i - start)),
        decreases n - i,
    {
        let c = s[i];
        let ghost k = i - start;
        assert(d[k] == c);
        if c < 48 || c > 57 {
            assert(!text::is_digit(d[k]));
            return None;
        }
        let digit: usize = (c - 48) as usize;
        let ghost p = d.subrange(0, k + 1);
        proof {
            assert(p.drop_last() =~= d.subrange(0, k));
            assert(p.last() == c);
            assert forall|j: int| 0 <= j < p.len() implies text::is_digit(#[trigger] p[j]) by {
                if j < k {
                    assert(text::is_digit(d.subrange(0, k)[j]));
                }
            }
        }
        if value > (usize::MAX - digit) / 10 {
            proof {
                assert(text::digits_value(p) > usize::MAX);
                if text::all_digits(d) {
                    lemma_grows(d, k + 1);
                }
            }
            return None;
        }
        value = value * 10 + digit;
        i += 1;
    }
    assert(d.subrange(0, i - start) =~= d);
    Some(value)
}

// ---------------------------------------------------------------------------
// Lists
// ---------------------------------------------------------------------------

/// The numbers from `first` to `last`.
pub open spec fn range_of(first: int, last: int) -> Seq<usize> {
    if first <= last {
        Seq::new((last - first + 1) as nat, |i: int| (first + i) as usize)
    } else {
        Seq::empty()
    }
}

/// What one piece of a list stands for: a number, or a range that is not unreasonable. Any
/// other piece stands for nothing.
pub open spec fn piece_of(part: Seq<u8>) -> Seq<usize> {
    let bounds = pieces(part, 45);
    if bounds.len() == 1 {
        match number(bounds[0]) {
            Some(c) => seq![c as usize],
            None => Seq::empty(),
        }
    } else if bounds.len() == 2 {
        match (number(bounds[0]), number(bounds[1])) {
            (Some(first), Some(last)) => if last - first < MAX_INDICES {
                range_of(first, last)
            } else {
                Seq::empty()
            },
            _ => Seq::empty(),
        }
    } else {
        Seq::empty()
    }
}

/// What the first `n` pieces stand for.
pub open spec fn listed_upto(parts: Seq<Seq<u8>>, n: int) -> Seq<usize>
    decreases n,
{
    if n <= 0 {
        Seq::empty()
    } else {
        listed_upto(parts, n - 1) + piece_of(parts[n - 1])
    }
}

/// The numbers of a list.
pub open spec fn listed(s: Seq<u8>) -> Seq<usize> {
    listed_upto(pieces(s, 44), pieces(s, 44).len() as int)
}

/// Append what one piece stands for.
fn push_piece(part: &[u8], out: &mut Vec<usize>)
    ensures
        final(out)@ == old(out)@ + piece_of(part@),
{
    let ghost start = out@;
    let bounds = split(part, 45);
    let ghost b = pieces(part@, 45);
    assert(b.len() == bounds@.len());
    assert(start + Seq::<usize>::empty() =~= start);
    if bounds.len() == 1 {
        assert(b[0] == bounds@[0]@);
        match parse_number(bounds[0].as_slice()) {
            Some(c) => {
                out.push(c);
                assert(out@ =~= start + seq![c]);
            },
            None => {},
        }
    } else if bounds.len() == 2 {
        assert(b[0] == bounds@[0]@ && b[1] == bounds@[1]@);
        match (parse_number(bounds[0].as_slice()), parse_number(bounds[1].as_slice())) {
            (Some(first), Some(last)) => {
                if first <= last && last - first < MAX_INDICES {
                    let mut i: usize = 0;
                    let n: usize = last - first;
                    let ghost all = range_of(first as int, last as int);
                    assert(start + all.subrange(0, 0) =~= start);
                    while i <= n
                        invariant
                            i <= n + 1,
                            n < MAX_INDICES,
                            n == last - first,
                            all == range_of(first as int, last as int),
                            all.len() == n + 1,
                            out@ == start + all.subrange(0, i as int),
                        decreases n + 1 - i,
                    {
                        out.push(first + i);
                        i += 1;
                        assert(out@ =~= start + all.subrange(0, i as int));
                    }
                    assert(all.subrange(0, i as int) =~= all);
                }
            },
            _ => {},
        }
    }
}

/// Read a shortened list of numbers: `0,2,4-7` and so on. A malformed piece is dropped, and so
/// is a range of more than a million numbers or one that runs backwards.
pub fn indices_from_shortened_string(s: &str) -> (r: Vec<usize>)
    ensures
        r@ == listed(vstd::utf8::encode_utf8(s@)),
{
    indices_of_bytes(s.as_bytes())
}

/// The numbers of a list given as bytes.
pub fn indices_of_bytes(s: &[u8]) -> (r: Vec<usize>)
    ensures
        r@ == listed(s@),
{
    let parts = split(s, 44);
    let ghost ps = pieces(s@, 44);
    let mut out: Vec<usize> = Vec::new();
    let mut i: usize = 0;
    while i < parts.len()
        invariant
            i <= parts@.len(),
            deep(parts@) == ps,
            out@ == listed_upto(ps, i as int),
        decreases parts@.len() - i,
    {
        assert(ps[i as int] == deep(parts@)[i as int]);
        push_piece(parts[i].as_slice(), &mut out);
        i += 1;
    }
    assert(ps.len() == parts@.len());
    out
}

// ---------------------------------------------------------------------------
// The processors of a process
// ---------------------------------------------------------------------------

/// What the line with the allowed processors begins with: `Cpus_allowed_list:`.
pub const ALLOWED_PREFIX: [u8; 18] = [
    67,
    112,
    117,
    115,
    95,
    97,
    108,
    108,
    111,
    119,
    101,
    100,
    95,
    108,
    105,
    115,
    116,
    58,
];

/// A blank: a space, a tab, or the end of a line.
pub open spec fn is_blank(c: u8) -> bool {
    c == 32 || 9 <= c <= 13
}

/// How many blanks the text begins with, from `i` on.
pub open spec fn blanks_from(s: Seq<u8>, i: int) -> int
    decreases s.len() - i,
{
    if i >= s.len() || !is_blank(s[i]) {
        i
    } else {
        blanks_from(s, i + 1)
    }
}

/// Where the blanks at the end of the first `n` bytes begin.
pub open spec fn blanks_upto(s: Seq<u8>, n: int) -> int
    decreases n,
{
    if n <= 0 || !is_blank(s[n - 1]) {
        n
    } else {
        blanks_upto(s, n - 1)
    }
}

/// A text without the blanks around it.
pub open spec fn trimmed(s: Seq<u8>) -> Seq<u8> {
    let i = blanks_from(s, 0);
    let n = blanks_upto(s, s.len() as int);
    if i < n {
        s.subrange(i, n)
    } else {
        Seq::empty()
    }
}

/// The line names the allowed processors.
pub open spec fn names_allowed(line: Seq<u8>) -> bool {
    line.len() >= 18 && line.subrange(0, 18) == ALLOWED_PREFIX@
}

/// What the first of the lines from `i` on that names the allowed processors lists.
pub open spec fn allowed_from(lines: Seq<Seq<u8>>, i: int) -> Option<Seq<usize>>
    decreases lines.len() - i,
{
    if i >= lines.len() {
        None
    } else if names_allowed(lines[i]) {
        let l = listed(trimmed(lines[i].subrange(18, lines[i].len() as int)));
        if l.len() == 0 {
            None
        } else {
            Some(l)
        }
    } else {
        allowed_from(lines, i + 1)
    }
}

/// Whether a byte is a blank.
fn blank(c: u8) -> (r: bool)
    ensures
        r == is_blank(c),
{
    c == 32 || (c >= 9 && c <= 13)
}

/// The text without the blanks around it.
pub fn trim(s: &[u8]) -> (r: &[u8])
    ensures
        r@ == trimmed(s@),
{
    let mut i: usize = 0;
    while i < s.len() && blank(s[i])
        invariant
            i <= s@.len(),
            blanks_from(s@, 0) == blanks_from(s@, i as int),
        decreases s@.len() - i,
    {
        i += 1;
    }
    let mut n: usize = s.len();
    while n > 0 && blank(s[n - 1])
        invariant
            n <= s@.len(),
            blanks_upto(s@, s@.len() as int) == blanks_upto(s@, n as int),
        decreases n,
    {
        n -= 1;
    }
    if i < n {
        vstd::slice::slice_subrange(s, i, n)
    } else {
        let r = vstd::slice::slice_subrange(s, 0, 0);
        assert(r@ =~= Seq::<u8>::empty());
        r
    }
}

/// Whether a line names the allowed processors.
fn is_allowed_line(line: &Vec<u8>) -> (r: bool)
    ensures
        r == names_allowed(line@),
{
    if line.len() < 18 {
        return false;
    }
    let mut i: usize = 0;
    while i < 18
        invariant
            i <= 18,
            line@.len() >= 18,
            forall|k: int| 0 <= k < i ==> #[trigger] line@[k] == ALLOWED_PREFIX@[k],
        decreases 18 - i,
    {
        if line[i] != ALLOWED_PREFIX[i] {
            assert(line@.subrange(0, 18)[i as int] == line@[i as int]);
            return false;
        }
        i += 1;
    }
    assert(line@.subrange(0, 18) =~= ALLOWED_PREFIX@);
    true
}

/// The processors that a process may run on, from the text of its status. None when the text
/// does not name any.
pub fn affinity_from_status(status: &str) -> (r: Option<Vec<usize>>)
    ensures
        (match r {
            Some(v) => allowed_from(pieces(vstd::utf8::encode_utf8(status@), 10), 0) == Some(v@),
            None => allowed_from(pieces(vstd::utf8::encode_utf8(status@), 10), 0).is_none(),
        }),
{
    let lines = split(status.as_bytes(), 10);
    let ghost ls = pieces(vstd::utf8::encode_utf8(status@), 10);
    let mut i: usize = 0;
    while i < lines.len()
        invariant
            i <= lines@.len(),
            deep(lines@) == ls,
            ls == pieces(vstd::utf8::encode_utf8(status@), 10),
            allowed_from(ls, 0) == allowed_from(ls, i as int),
        decreases lines@.len() - i,
    {
        assert(ls[i as int] == deep(lines@)[i as int]);
        assert(ls.len() == lines@.len());
        let line = &lines[i];
        if is_allowed_line(line) {
            let rest = vstd::slice::slice_subrange(line.as_slice(), 18, line.len());
            let v = indices_of_bytes(trim(rest));
            if v.len() == 0 {
                return None;
            }
            return Some(v);
        }
        i += 1;
    }
    assert(ls.len() == lines@.len());
    None
}

} // verus!
