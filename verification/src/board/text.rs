//! Reading words and numbers out of bytes, and writing numbers into text.

use vstd::prelude::*;

verus! {

/// An ASCII white-space byte: space, tab, line feed, form feed or carriage return.
pub open spec fn is_space(c: u8) -> bool {
    c == 32 || c == 9 || c == 10 || c == 12 || c == 13
}

/// The first position from `i` on that holds no white space.
pub open spec fn skip_space(s: Seq<u8>, i: int) -> int
    decreases s.len() - i,
{
    if 0 <= i < s.len() && is_space(s[i]) {
        skip_space(s, i + 1)
    } else {
        i
    }
}

/// The first position from `i` on that holds white space, or the end.
pub open spec fn word_end(s: Seq<u8>, i: int) -> int
    decreases s.len() - i,
{
    if 0 <= i < s.len() && !is_space(s[i]) {
        word_end(s, i + 1)
    } else {
        i
    }
}

/// Where the `n`-th word of `s` starts and ends. There is none when the two are equal.
pub open spec fn word_span(s: Seq<u8>, n: nat) -> (int, int)
    decreases n,
{
    let from: int = if n == 0 {
        0
    } else {
        word_span(s, (n - 1) as nat).1
    };
    let start = skip_space(s, from);
    (start, word_end(s, start))
}

/// The `n`-th word of `s`, counting from zero.
pub open spec fn word(s: Seq<u8>, n: nat) -> Option<Seq<u8>> {
    let (start, end) = word_span(s, n);
    if start < end {
        Some(s.subrange(start, end))
    } else {
        None
    }
}

/// The next word from position `from` on, as a start and an end.
pub fn next_word(s: &[u8], from: usize) -> (r: (usize, usize))
    requires
        from <= s@.len(),
    ensures
        r.0 == skip_space(s@, from as int),
        r.1 == word_end(s@, r.0 as int),
        from <= r.0 <= r.1 <= s@.len(),
{
    let mut i: usize = from;
    while i < s.len() && (s[i] == 32 || s[i] == 9 || s[i] == 10 || s[i] == 12 || s[i] == 13)
        invariant
            from <= i <= s@.len(),
            skip_space(s@, from as int) == skip_space(s@, i as int),
        decreases s@.len() - i,
    {
        i += 1;
    }
    let start: usize = i;
    while i < s.len() && !(s[i] == 32 || s[i] == 9 || s[i] == 10 || s[i] == 12 || s[i] == 13)
        invariant
            start <= i <= s@.len(),
            word_end(s@, start as int) == word_end(s@, i as int),
        decreases s@.len() - i,
    {
        i += 1;
    }
    (start, i)
}

/// A decimal digit.
pub open spec fn is_digit(c: u8) -> bool {
    48 <= c <= 57
}

/// Every byte is a digit.
pub open spec fn all_digits(s: Seq<u8>) -> bool {
    forall|i: int| 0 <= i < s.len() ==> is_digit(#[trigger] s[i])
}

/// The number that a sequence of digits writes.
pub open spec fn digits_value(s: Seq<u8>) -> int
    decreases s.len(),
{
    if s.len() == 0 {
        0
    } else {
        digits_value(s.drop_last()) * 10 + (s.last() - 48)
    }
}

/// The digits of a signed number: what follows its sign.
pub open spec fn magnitude(s: Seq<u8>) -> Seq<u8> {
    if s.len() > 0 && (s[0] == 43 || s[0] == 45) {
        s.subrange(1, s.len() as int)
    } else {
        s
    }
}

/// The number that a signed decimal text writes.
pub open spec fn signed_value(s: Seq<u8>) -> int {
    if s.len() > 0 && s[0] == 45 {
        -digits_value(magnitude(s))
    } else {
        digits_value(magnitude(s))
    }
}

/// The text is a decimal number that fits an `i32`: an optional sign and at least one digit.
pub open spec fn is_i32(s: Seq<u8>) -> bool {
    &&& magnitude(s).len() > 0
    &&& all_digits(magnitude(s))
    &&& i32::MIN <= signed_value(s) <= i32::MAX
}

/// The number a text writes, `None` when it writes none that fits an `i32`.
pub open spec fn read_i32(s: Seq<u8>) -> Option<int> {
    if is_i32(s) {
        Some(signed_value(s))
    } else {
        None
    }
}

/// More digits never make a number smaller.
proof fn lemma_digits_grow(s: Seq<u8>, i: int)
    requires
        0 <= i <= s.len(),
        all_digits(s),
    ensures
        0 <= digits_value(s.subrange(0, i)) <= digits_value(s),
    decreases s.len(),
{
    if i == s.len() {
        assert(s.subrange(0, i) =~= s);
        if s.len() > 0 {
            lemma_digits_grow(s.drop_last(), i - 1);
            assert(s.drop_last().subrange(0, i - 1) =~= s.drop_last());
        }
    } else {
        lemma_digits_grow(s.drop_last(), i);
        assert(s.drop_last().subrange(0, i) =~= s.subrange(0, i));
    }
}

/// Read a signed decimal number.
pub fn parse_i32(s: &[u8]) -> (r: Option<i32>)
    ensures
        (match r {
            Some(v) => read_i32(s@) == Some(v as int),
            None => read_i32(s@).is_none(),
        }),
{
    let n: usize = s.len();
    let signed = n > 0 && (s[0] == 43 || s[0] == 45);
    let negative = n > 0 && s[0] == 45;
    let start: usize = if signed {
        1
    } else {
        0
    };
    let ghost mag = magnitude(s@);
    assert(mag =~= s@.subrange(start as int, n as int));
    if start >= n {
        return None;
    }
    let mut value: i64 = 0;
    let mut i: usize = start;
    while i < n
        invariant
            start <= i <= n,
            n == s@.len(),
            mag == s@.subrange(start as int, n as int),
            mag == magnitude(s@),
            all_digits(mag.subrange(0, i - start)),
            value == digits_value(mag.subrange(0, i - start)),
            0 <= value <= 4_294_967_296,
            negative == (s@.len() > 0 && s@[0] == 45),
        decreases n - i,
    {
        let c: u8 = s[i];
        assert(mag[i - start] == c);
        if c < 48 || c > 57 {
            assert(!is_digit(mag[i - start]));
            return None;
        }
        value = value * 10 + (c - 48) as i64;
        proof {
            let p = mag.subrange(0, i + 1 - start);
            assert(p.drop_last() =~= mag.subrange(0, i - start));
            assert(p.last() == c);
            assert(value == digits_value(p));
            assert forall|k: int| 0 <= k < p.len() implies is_digit(#[trigger] p[k]) by {
                if k < i - start {
                    assert(is_digit(mag.subrange(0, i - start)[k]));
                }
            }
        }
        i += 1;
        if value > 4_294_967_296 {
            proof {
                if all_digits(mag) {
                    lemma_digits_grow(mag, i - start);
                }
            }
            return None;
        }
    }
    assert(mag.subrange(0, n - start) =~= mag);
    if negative {
        if value > 2_147_483_648 {
            None
        } else {
            Some((-value) as i32)
        }
    } else if value > 2_147_483_647 {
        None
    } else {
        Some(value as i32)
    }
}

/// The decimal digits of a number, as characters.
pub open spec fn decimal(n: nat) -> Seq<char>
    decreases n,
{
    if n < 10 {
        seq![(48 + n) as char]
    } else {
        decimal(n / 10).push((48 + n % 10) as char)
    }
}

/// The decimal text of a signed number.
pub open spec fn signed_decimal(n: int) -> Seq<char> {
    if n < 0 {
        seq!['-'] + decimal((-n) as nat)
    } else {
        decimal(n as nat)
    }
}

/// Append the decimal digits of `n`.
pub fn push_decimal(s: &mut String, n: u64)
    ensures
        final(s)@ == old(s)@ + decimal(n as nat),
    decreases n,
{
    if n < 10 {
        s.push((48 + n as u8) as char);
        assert(s@ =~= old(s)@ + decimal(n as nat));
    } else {
        push_decimal(s, n / 10);
        let d: u8 = (n % 10) as u8;
        s.push((48 + d) as char);
        assert(s@ =~= old(s)@ + decimal(n as nat));
    }
}

/// Append the decimal text of `n`.
pub fn push_signed(s: &mut String, n: i64)
    requires
        n > i64::MIN,
    ensures
        final(s)@ == old(s)@ + signed_decimal(n as int),
{
    if n < 0 {
        s.push('-');
        push_decimal(s, (-n) as u64);
    } else {
        push_decimal(s, n as u64);
    }
    assert(s@ =~= old(s)@ + signed_decimal(n as int));
}

/// The bytes of an ASCII text.
pub open spec fn ascii(s: Seq<char>) -> Seq<u8> {
    Seq::new(s.len(), |i: int| s[i] as u8)
}

/// Reading a written number gives the number back.
pub proof fn law_decimal_round_trip(n: int)
    requires
        i32::MIN <= n <= i32::MAX,
    ensures
        read_i32(ascii(signed_decimal(n))) == Some(n),
{
    if n < 0 {
        let d = ascii(decimal((-n) as nat));
        lemma_decimal((-n) as nat);
        let s = ascii(signed_decimal(n));
        assert(s[0] == 45);
        assert(magnitude(s) =~= d);
    } else {
        let d = ascii(decimal(n as nat));
        lemma_decimal(n as nat);
        assert(is_digit(d[0]));
        assert(magnitude(d) =~= d);
    }
}

/// Written digits are digits and write the number.
pub proof fn lemma_decimal(n: nat)
    ensures
        decimal(n).len() > 0,
        all_digits(ascii(decimal(n))),
        digits_value(ascii(decimal(n))) == n,
        forall|i: int|
            0 <= i < decimal(n).len() ==> 48 <= #[trigger] (decimal(n)[i] as int) <= 57,
    decreases n,
{
    let s = ascii(decimal(n));
    if n < 10 {
        assert(s.drop_last() =~= Seq::<u8>::empty());
        assert(digits_value(s.drop_last()) == 0);
    } else {
        lemma_decimal(n / 10);
        assert(s.drop_last() =~= ascii(decimal(n / 10)));
        assert forall|i: int| 0 <= i < s.len() implies is_digit(#[trigger] s[i]) by {
            if i < s.len() - 1 {
                assert(s[i] == s.drop_last()[i]);
                assert(is_digit(ascii(decimal(n / 10))[i]));
            }
        }
        assert forall|i: int| 0 <= i < decimal(n).len() implies 48 <= #[trigger] (decimal(n)[i] as int)
            <= 57 by {
            if i < decimal(n).len() - 1 {
                assert(decimal(n)[i] == decimal(n / 10)[i]);
            }
        }
    }
}

} // verus!
